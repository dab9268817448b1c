//! The validation pipeline: an SDL schema is parsed and compiled, the
//! document (already read) is checked against its root schema, and the
//! outcome is reported with the schema's metadata.
use crate::content::law_validation_reads_content;
use crate::compiler::{
    arg_unquotable, compile, compile_errors, compiled_entries, compiled_root, field_unquotable,
    scalar_unquotable, unquotable,
};
use crate::diagnostics::{
    error_views, lowering_error_text, lowering_views, LoweringError, LoweringErrorView, SdlError,
    ValidationError, ValidationMode, ValidationResult,
};
use crate::ir::{bundle_entries, opt_chars, SchemaBundle};
use crate::sdl::{directive_views, extract_ast, ast_of, reports_messages, SdlAst};
use crate::syntax::{graphql_syntax, graphql_syntax_errors};
use crate::text::{join, join_strings, push_str, str_eq, to_string};
use crate::validator::{validate_spec, Validator};
use crate::value::Value;
use crate::voyager::{parse_messages_text, sdl_errors_report, sdl_errors_text};
use vstd::prelude::*;

verus! {

/// Verbosity of the pipeline's log.
#[derive(Debug, Clone, Copy, PartialEq, Eq, Structural)]
pub enum LogLevel {
    Silent,
    Error,
    Warn,
    Info,
    Debug,
    Trace,
}

/// Options for validation.
#[derive(Debug, Clone)]
pub struct ValidationOptions {
    pub mode: ValidationMode,
    pub root_schema: Option<String>,
    pub max_depth: usize,
    pub log_level: LogLevel,
}

impl Default for ValidationOptions {
    /// Strict mode, the bundle's own root, a reference depth limit of 64 and
    /// warnings logged.
    fn default() -> (r: Self)
        ensures
            r.mode == ValidationMode::Strict,
            r.root_schema is None,
            r.max_depth == 64,
            r.log_level == LogLevel::Warn,
    {
        ValidationOptions {
            mode: ValidationMode::Strict,
            root_schema: None,
            max_depth: 64,
            log_level: LogLevel::Warn,
        }
    }
}

/// Validation result with metadata about the schema.
#[derive(Debug, Clone)]
pub struct EnhancedValidationResult {
    pub valid: bool,
    pub errors: Vec<ValidationError>,
    pub warnings: Vec<ValidationError>,
    pub schema_types_count: usize,
    pub root_schema: Option<String>,
}

impl EnhancedValidationResult {
    /// The result's validity and errors, no warnings, and the metadata given.
    pub fn from_result(result: ValidationResult, types_count: usize, root: Option<String>) -> (r:
        Self)
        ensures
            r.valid == result.valid,
            r.errors == result.errors,
            r.warnings@.len() == 0,
            r.schema_types_count == types_count,
            r.root_schema == root,
    {
        EnhancedValidationResult {
            valid: result.valid,
            errors: result.errors,
            warnings: Vec::new(),
            schema_types_count: types_count,
            root_schema: root,
        }
    }
}

/// The format of the document being validated.
#[derive(Debug, Clone, Copy, PartialEq, Eq, Structural)]
pub enum InputFormat {
    Yaml,
    Json,
}

/// How a document that could not be read is reported.
pub open spec fn document_error_text(format: InputFormat, message: Seq<char>) -> Seq<char> {
    match format {
        InputFormat::Yaml => "YAML parse error: "@ + message,
        InputFormat::Json => "JSON parse error: "@ + message,
    }
}

/// The report of compile errors: their texts joined with `"; "`.
pub open spec fn compile_errors_text(errs: Seq<LoweringError>) -> Seq<char> {
    "Compile errors: "@ + join(errs.map_values(|e: LoweringError| lowering_error_text(e)), "; "@)
}

/// The report for a schema whose directive arguments cannot be unquoted.
pub open spec fn unquotable_text() -> Seq<char> {
    "Internal panic during validation: a quoted directive argument has no closing quote"@
}

/// The root schema name validation uses: the one the options name, else
/// the compiled one.
pub open spec fn chosen_root(ast: crate::sdl::SdlAstView, options: ValidationOptions) -> Option<
    Seq<char>,
> {
    match options.root_schema {
        Some(r) => Some(r@),
        None => compiled_root(ast),
    }
}

/// Whether `r` is what validating a read document against a compiled
/// schema reports: the bundle's validation of the value, with its number of
/// types and its root.
pub open spec fn reports_validation(
    r: EnhancedValidationResult,
    ast: crate::sdl::SdlAstView,
    options: ValidationOptions,
    v: Value,
) -> bool {
    &&& r.valid == (r.errors@.len() == 0)
    &&& r.warnings@.len() == 0
    &&& r.schema_types_count == compiled_entries(ast).len()
    &&& opt_chars(r.root_schema) == chosen_root(ast, options)
    &&& exists|b: SchemaBundle|
        #[trigger] bundle_entries(b.schemas.entries@) == compiled_entries(ast) && opt_chars(
            b.root_name,
        ) == chosen_root(ast, options) && error_views(r.errors@) == validate_spec(
            b,
            options.mode,
            options.max_depth as nat,
            v,
        )
    &&& forall|b: SchemaBundle|
        #[trigger] bundle_entries(b.schemas.entries@) == compiled_entries(ast) && opt_chars(
            b.root_name,
        ) == chosen_root(ast, options) ==> error_views(r.errors@) == validate_spec(
            b,
            options.mode,
            options.max_depth as nat,
            v,
        )
}

/// The report of compile errors.
fn compile_errors_report(errs: &Vec<LoweringError>) -> (r: String)
    ensures
        r@ == compile_errors_text(errs@),
{
    let ghost texts = errs@.map_values(|e: LoweringError| lowering_error_text(e));
    let mut parts: Vec<String> = Vec::new();
    let mut k: usize = 0;
    while k < errs.len()
        invariant
            k <= errs@.len(),
            texts == errs@.map_values(|e: LoweringError| lowering_error_text(e)),
            parts@.map_values(|s: String| s@) == texts.take(k as int),
        decreases errs@.len() - k,
    {
        let ghost before = parts@;
        let t = errs[k].to_string();
        parts.push(t);
        assert(parts@.map_values(|s: String| s@) =~= before.map_values(|s: String| s@).push(t@));
        assert(texts.take(k as int + 1) =~= texts.take(k as int).push(texts[k as int]));
        k = k + 1;
    }
    assert(texts.take(errs@.len() as int) =~= texts);
    let joined = join_strings(&parts, "; ");
    let mut out = to_string("Compile errors: ");
    push_str(&mut out, joined.as_str());
    out
}

/// Validates a read document against a schema's parsed type definitions:
/// SDL errors are reported first, then a schema that cannot be compiled,
/// then a document that could not be read; otherwise the document is
/// validated against the compiled bundle (its root replaced by the one the
/// options name, if any).
pub fn validate_with_ast(
    ast_result: Result<SdlAst, Vec<SdlError>>,
    document: Result<Value, String>,
    options: &ValidationOptions,
    format: InputFormat,
) -> (r: Result<EnhancedValidationResult, String>)
    ensures
        match ast_result {
            Err(errs) => r matches Err(e) && e@ == sdl_errors_text(errs@),
            Ok(ast) => if !unquotable(ast@) {
                r matches Err(e) && e@ == unquotable_text()
            } else if compile_errors(ast@).len() > 0 {
                r matches Err(e) && exists|errs: Seq<LoweringError>|
                    lowering_views(errs) == compile_errors(ast@) && e@ == compile_errors_text(
                        errs,
                    )
            } else {
                match document {
                    Err(m) => r matches Err(e) && e@ == document_error_text(format, m@),
                    Ok(v) => r matches Ok(res) && reports_validation(res, ast@, *options, v),
                }
            },
        },
{
    let ast = match ast_result {
        Ok(ast) => ast,
        Err(errs) => {
            return Err(sdl_errors_report(&errs));
        },
    };
    if !crate::compiler::arguments_unquotable(&ast) {
        return Err(
            to_string(
                "Internal panic during validation: a quoted directive argument has no closing quote",
            ),
        );
    }
    let mut bundle = match compile(&ast) {
        Ok(b) => b,
        Err(errs) => {
            let report = compile_errors_report(&errs);
            assert(lowering_views(errs@) == compile_errors(ast@));
            return Err(report);
        },
    };
    match &options.root_schema {
        Some(root) => bundle.set_root(root.as_str()),
        None => {},
    }
    let types_count = bundle.schemas.len();
    let root_name = match &bundle.root_name {
        Some(n) => Some(to_string(n.as_str())),
        None => None,
    };
    let value = match document {
        Ok(v) => v,
        Err(m) => {
            let mut out = match format {
                InputFormat::Yaml => to_string("YAML parse error: "),
                InputFormat::Json => to_string("JSON parse error: "),
            };
            push_str(&mut out, m.as_str());
            return Err(out);
        },
    };
    let v = Validator::new(&bundle).with_mode(options.mode).with_max_depth(options.max_depth);
    let result = v.validate(&value);
    let res = EnhancedValidationResult::from_result(result, types_count, root_name);
    assert(bundle_entries(bundle.schemas.entries@) == compiled_entries(ast@));
    assert forall|b: SchemaBundle|
        #[trigger] bundle_entries(b.schemas.entries@) == compiled_entries(ast@) && opt_chars(
            b.root_name,
        ) == chosen_root(ast@, *options) implies error_views(res.errors@) == validate_spec(
            b,
            options.mode,
            options.max_depth as nat,
            value,
        ) by {
        law_validation_reads_content(
            bundle,
            b,
            options.mode,
            options.max_depth as nat,
            value,
        );
    }
    Ok(res)
}

/// Validates a read document against an SDL schema: the schema is parsed
/// with apollo-parser, then as `validate_with_ast`.
pub fn validate_from_schema(
    document: Result<Value, String>,
    schema: &str,
    options: &ValidationOptions,
    format: InputFormat,
) -> (r: Result<EnhancedValidationResult, String>)
    ensures
        graphql_syntax_errors(schema@).len() > 0 ==> (r matches Err(e) && e@
            == parse_messages_text(graphql_syntax_errors(schema@))),
        graphql_syntax_errors(schema@).len() == 0 ==> {
            let ast = ast_of(graphql_syntax(schema@));
            if !unquotable(ast) {
                r matches Err(e) && e@ == unquotable_text()
            } else if compile_errors(ast).len() > 0 {
                r matches Err(e) && exists|errs: Seq<LoweringError>|
                    lowering_views(errs) == compile_errors(ast) && e@ == compile_errors_text(errs)
            } else {
                match document {
                    Err(m) => r matches Err(e) && e@ == document_error_text(format, m@),
                    Ok(v) => r matches Ok(res) && reports_validation(res, ast, *options, v),
                }
            }
        },
{
    let ast = extract_ast(schema);
    proof {
        if ast is Err {
            crate::voyager::lemma_parse_report(ast->Err_0@, graphql_syntax_errors(schema@));
        }
    }
    validate_with_ast(ast, document, options, format)
}

/// Whether a document reads as JSON: after leading white space, it opens
/// with `{` or `[`.
pub open spec fn looks_like_json(doc: Seq<char>) -> bool {
    let t = crate::text::strip_front(doc, crate::text::CharClass::WhiteSpace);
    t.len() > 0 && (t[0] == '{' || t[0] == '[')
}

/// The format a document is read in: JSON when it opens with `{` or `[`
/// (after white space), else YAML.
pub fn detect_input_format(doc: &str) -> (r: InputFormat)
    ensures
        r == (if looks_like_json(doc@) {
            InputFormat::Json
        } else {
            InputFormat::Yaml
        }),
{
    let t = crate::text::strip_front_exec(doc, crate::text::CharClass::WhiteSpace);
    let cs = crate::text::chars_of(t.as_str());
    if cs.len() > 0 && (cs[0] == '{' || cs[0] == '[') {
        InputFormat::Json
    } else {
        InputFormat::Yaml
    }
}

/// The log level a name denotes (`silent`, `error`, `warn`, `info`,
/// `debug`, `trace`).
pub open spec fn log_level_named(name: Seq<char>) -> Option<LogLevel> {
    if name == "silent"@ {
        Some(LogLevel::Silent)
    } else if name == "error"@ {
        Some(LogLevel::Error)
    } else if name == "warn"@ {
        Some(LogLevel::Warn)
    } else if name == "info"@ {
        Some(LogLevel::Info)
    } else if name == "debug"@ {
        Some(LogLevel::Debug)
    } else if name == "trace"@ {
        Some(LogLevel::Trace)
    } else {
        None
    }
}

/// The log level a name denotes, if any.
pub fn parse_log_level(name: &str) -> (r: Option<LogLevel>)
    ensures
        r == log_level_named(name@),
{
    if str_eq(name, "silent") {
        Some(LogLevel::Silent)
    } else if str_eq(name, "error") {
        Some(LogLevel::Error)
    } else if str_eq(name, "warn") {
        Some(LogLevel::Warn)
    } else if str_eq(name, "info") {
        Some(LogLevel::Info)
    } else if str_eq(name, "debug") {
        Some(LogLevel::Debug)
    } else if str_eq(name, "trace") {
        Some(LogLevel::Trace)
    } else {
        None
    }
}

/// The filter a log level sets: `off` for silent, else its own name.
pub open spec fn filter_text(level: LogLevel) -> Seq<char> {
    match level {
        LogLevel::Silent => "off"@,
        LogLevel::Error => "error"@,
        LogLevel::Warn => "warn"@,
        LogLevel::Info => "info"@,
        LogLevel::Debug => "debug"@,
        LogLevel::Trace => "trace"@,
    }
}

impl LogLevel {
    /// The log filter this level sets.
    pub fn filter_name(&self) -> (r: &'static str)
        ensures
            r@ == filter_text(*self),
    {
        match self {
            LogLevel::Silent => "off",
            LogLevel::Error => "error",
            LogLevel::Warn => "warn",
            LogLevel::Info => "info",
            LogLevel::Debug => "debug",
            LogLevel::Trace => "trace",
        }
    }
}

/// The lines reporting one validation error: `error[code]: message (at
/// path)`, then `  hint: ...` when it has a hint.
pub open spec fn error_lines(e: crate::diagnostics::ErrorView) -> Seq<Seq<char>> {
    let head = "error["@ + crate::diagnostics::code_text(e.code) + "]: "@ + e.message + " (at "@
        + e.instance_path + ")"@;
    match e.hint {
        Some(h) => seq![head, "  hint: "@ + h],
        None => seq![head],
    }
}

/// The lines reporting the errors, in order.
pub open spec fn report_lines(errs: Seq<crate::diagnostics::ErrorView>) -> Seq<Seq<char>>
    decreases errs.len(),
{
    if errs.len() == 0 {
        Seq::empty()
    } else {
        report_lines(errs.drop_last()) + error_lines(errs.last())
    }
}

/// The lines reporting a list of validation errors.
pub fn error_report_lines(errors: &Vec<ValidationError>) -> (r: Vec<String>)
    ensures
        crate::text::views(r@) == report_lines(error_views(errors@)),
{
    let ghost ev = error_views(errors@);
    let mut out: Vec<String> = Vec::new();
    let mut k: usize = 0;
    while k < errors.len()
        invariant
            k <= errors@.len(),
            ev == error_views(errors@),
            crate::text::views(out@) == report_lines(ev.take(k as int)),
        decreases errors@.len() - k,
    {
        let e = &errors[k];
        let ghost before = crate::text::views(out@);
        let mut head = to_string("error[");
        push_str(&mut head, e.code.as_str());
        push_str(&mut head, "]: ");
        push_str(&mut head, e.message.as_str());
        push_str(&mut head, " (at ");
        push_str(&mut head, e.instance_path.as_str());
        push_str(&mut head, ")");
        out.push(head);
        match &e.hint {
            Some(h) => {
                let mut line = to_string("  hint: ");
                push_str(&mut line, h.as_str());
                out.push(line);
            },
            None => {},
        }
        assert(ev.take(k as int + 1).drop_last() =~= ev.take(k as int));
        assert(ev[k as int] == e@);
        assert(crate::text::views(out@) =~= before + error_lines(e@));
        k = k + 1;
    }
    assert(ev.take(errors@.len() as int) =~= ev);
    out
}

} // verus!
