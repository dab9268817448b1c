//! Regular-expression patterns, compiled and matched by the `regex` crate.
use vstd::prelude::*;

verus! {

/// The `regex` crate's compiled expression.
#[verifier::external_type_specification]
#[verifier::external_body]
pub struct ExRegex(regex::Regex);

/// What `regex::Regex::new` gives for the pattern: success, or the display
/// text of its error.
pub uninterp spec fn regex_new_outcome(pattern: Seq<char>) -> Result<(), Seq<char>>;

/// Whether `regex::Regex::new` accepts the pattern.
pub open spec fn regex_compiles(pattern: Seq<char>) -> bool {
    regex_new_outcome(pattern) is Ok
}

/// The display text of the error `regex::Regex::new` gives for a pattern it
/// refuses.
pub open spec fn regex_error_text(pattern: Seq<char>) -> Seq<char> {
    match regex_new_outcome(pattern) {
        Err(e) => e,
        Ok(_) => Seq::empty(),
    }
}

/// Whether the compiled pattern matches somewhere in `text`
/// (`regex::Regex::is_match`).
pub uninterp spec fn regex_is_match(pattern: Seq<char>, text: Seq<char>) -> bool;

/// A pattern together with the expression compiled from it.
pub struct CompiledPattern {
    source: String,
    regex: regex::Regex,
}

impl CompiledPattern {
    /// The pattern text this expression was compiled from.
    pub closed spec fn source_text(&self) -> Seq<char> {
        self.source@
    }
}

/// Compiles `source` with `regex::Regex::new`. The contract names the
/// outcome (`regex_new_outcome` of the pattern text): success, or the error's
/// display text; which patterns the crate accepts is not stated.
#[verifier::external_body]
pub(crate) fn compile_pattern(source: &str) -> (r: Result<CompiledPattern, String>)
    ensures
        match r {
            Ok(c) => regex_new_outcome(source@) is Ok && c.source_text() == source@,
            Err(e) => regex_new_outcome(source@) == Err::<(), Seq<char>>(e@),
        },
{
    match regex::Regex::new(source) {
        Ok(regex) => Ok(CompiledPattern { source: source.to_string(), regex }),
        Err(e) => Err(e.to_string()),
    }
}

/// Runs `regex::Regex::is_match` of the compiled pattern on `text`. The
/// contract names the result `regex_is_match` of the pattern text and the
/// text; the matching semantics themselves are not stated.
#[verifier::external_body]
pub(crate) fn pattern_is_match(p: &CompiledPattern, text: &str) -> (r: bool)
    ensures
        r == regex_is_match(p.source_text(), text@),
{
    p.regex.is_match(text)
}

/// Checks a pattern: `Ok` when it compiles, else the display text of the
/// error.
pub fn check_pattern(source: &str) -> (r: Result<(), String>)
    ensures
        match r {
            Ok(_) => regex_compiles(source@),
            Err(e) => !regex_compiles(source@) && e@ == regex_error_text(source@),
        },
{
    match compile_pattern(source) {
        Ok(_) => Ok(()),
        Err(e) => Err(e),
    }
}

/// Whether `pattern` compiles and matches somewhere in `text`; `None` when
/// the pattern does not compile.
pub fn pattern_matches(pattern: &str, text: &str) -> (r: Option<bool>)
    ensures
        r == (if regex_compiles(pattern@) {
            Some(regex_is_match(pattern@, text@))
        } else {
            None::<bool>
        }),
{
    match compile_pattern(pattern) {
        Ok(c) => Some(pattern_is_match(&c, text)),
        Err(_) => None,
    }
}

} // verus!
