//! JSON Pointer (RFC 6901) paths, used to locate values in documents and
//! nodes in schemas when reporting errors.
use crate::text::{chars_of, join, push_char, push_str, string_from_chars};
use vstd::prelude::*;

verus! {

/// JSON Pointer (RFC 6901) for stable path representation in error reporting.
#[derive(Debug, Clone, PartialEq, Eq, Hash)]
pub struct JsonPointer {
    segments: Vec<String>,
}

/// The segments of a pointer, as character sequences.
pub open spec fn segment_views(v: Seq<String>) -> Seq<Seq<char>> {
    v.map_values(|s: String| s@)
}

impl View for JsonPointer {
    type V = Seq<Seq<char>>;

    closed spec fn view(&self) -> Seq<Seq<char>> {
        segment_views(self.segments@)
    }
}

/// The escaped form of one character: `~` becomes `~0` and `/` becomes `~1`.
pub open spec fn escape_char(c: char) -> Seq<char> {
    if c == '~' {
        seq!['~', '0']
    } else if c == '/' {
        seq!['~', '1']
    } else {
        seq![c]
    }
}

/// The escaped form of a segment.
pub open spec fn escape(s: Seq<char>) -> Seq<char>
    decreases s.len(),
{
    if s.len() == 0 {
        Seq::empty()
    } else {
        escape_char(s[0]) + escape(s.drop_first())
    }
}

/// The rendering of a pointer: `/` for the root, otherwise each escaped
/// segment preceded by `/`.
pub open spec fn render_spec(segs: Seq<Seq<char>>) -> Seq<char> {
    if segs.len() == 0 {
        seq!['/']
    } else {
        seq!['/'] + join(segs.map_values(|s: Seq<char>| escape(s)), seq!['/'])
    }
}

/// The pieces of `s` between slashes (always at least one piece).
pub open spec fn split_slash(s: Seq<char>) -> Seq<Seq<char>>
    decreases s.len(),
{
    if s.len() == 0 {
        seq![Seq::empty()]
    } else {
        let r = split_slash(s.drop_last());
        if s.last() == '/' {
            r.push(Seq::empty())
        } else {
            r.update(r.len() - 1, r.last().push(s.last()))
        }
    }
}

/// Undoes the escaping of one raw segment; on a bad escape, the error
/// text is `~` followed by the offending character (a space at the end).
pub open spec fn unescape(raw: Seq<char>) -> Result<Seq<char>, Seq<char>>
    decreases raw.len(),
{
    if raw.len() == 0 {
        Ok(Seq::empty())
    } else if raw[0] == '~' {
        if raw.len() == 1 {
            Err(seq!['~', ' '])
        } else if raw[1] == '0' || raw[1] == '1' {
            let c = if raw[1] == '0' { '~' } else { '/' };
            match unescape(raw.skip(2)) {
                Ok(r) => Ok(seq![c] + r),
                Err(e) => Err(e),
            }
        } else {
            Err(seq!['~', raw[1]])
        }
    } else {
        match unescape(raw.drop_first()) {
            Ok(r) => Ok(seq![raw[0]] + r),
            Err(e) => Err(e),
        }
    }
}

/// Unescapes each raw segment, failing with the first bad escape.
pub open spec fn unescape_all(raws: Seq<Seq<char>>) -> Result<Seq<Seq<char>>, Seq<char>>
    decreases raws.len(),
{
    if raws.len() == 0 {
        Ok(Seq::empty())
    } else {
        match unescape(raws[0]) {
            Err(e) => Err(e),
            Ok(x) => match unescape_all(raws.drop_first()) {
                Ok(r) => Ok(seq![x] + r),
                Err(e) => Err(e),
            },
        }
    }
}

/// What parsing a pointer string gives: the empty string is the root; any
/// other string must start with `/`.
pub open spec fn parse_spec(s: Seq<char>) -> Result<Seq<Seq<char>>, PointerErrorView> {
    if s.len() == 0 {
        Ok(Seq::empty())
    } else if s[0] != '/' {
        Err(PointerErrorView::MissingLeadingSlash)
    } else {
        match unescape_all(split_slash(s.drop_first())) {
            Ok(segs) => Ok(segs),
            Err(e) => Err(PointerErrorView::InvalidEscape(e)),
        }
    }
}

/// The mathematical content of a [`JsonPointerParseError`].
pub enum PointerErrorView {
    MissingLeadingSlash,
    InvalidEscape(Seq<char>),
}

/// Error parsing a JSON Pointer string.
#[derive(Debug, Clone, PartialEq, Eq)]
pub enum JsonPointerParseError {
    MissingLeadingSlash,
    InvalidEscape(String),
}

impl View for JsonPointerParseError {
    type V = PointerErrorView;

    open spec fn view(&self) -> PointerErrorView {
        match self {
            JsonPointerParseError::MissingLeadingSlash => PointerErrorView::MissingLeadingSlash,
            JsonPointerParseError::InvalidEscape(s) => PointerErrorView::InvalidEscape(s@),
        }
    }
}

/// The report text of a pointer parse error.
pub open spec fn pointer_error_text(e: PointerErrorView) -> Seq<char> {
    match e {
        PointerErrorView::MissingLeadingSlash => "JSON Pointer must start with '/'"@,
        PointerErrorView::InvalidEscape(s) => "invalid escape sequence: "@ + s,
    }
}

impl JsonPointerParseError {
    /// The report text of this error.
    pub fn to_string(&self) -> (r: String)
        ensures
            r@ == pointer_error_text(self@),
    {
        match self {
            JsonPointerParseError::MissingLeadingSlash => crate::text::to_string(
                "JSON Pointer must start with '/'",
            ),
            JsonPointerParseError::InvalidEscape(s) => {
                let mut out = crate::text::to_string("invalid escape sequence: ");
                push_str(&mut out, s.as_str());
                out
            },
        }
    }
}

proof fn lemma_escape_push(a: Seq<char>, c: char)
    ensures
        escape(a.push(c)) == escape(a) + escape_char(c),
    decreases a.len(),
{
    if a.len() == 0 {
        assert(a.push(c).drop_first() == Seq::<char>::empty());
        assert(escape(Seq::<char>::empty()) == Seq::<char>::empty());
    } else {
        assert(a.push(c).drop_first() == a.drop_first().push(c));
        lemma_escape_push(a.drop_first(), c);
    }
}

/// Appends the escaped form of `seg` to `out`.
fn push_escaped(out: &mut String, seg: &str)
    ensures
        final(out)@ == old(out)@ + escape(seg@),
{
    let cs = chars_of(seg);
    let mut i: usize = 0;
    assert(cs@.take(0) == Seq::<char>::empty());
    while i < cs.len()
        invariant
            i <= cs@.len(),
            cs@ == seg@,
            out@ == old(out)@ + escape(cs@.take(i as int)),
        decreases cs@.len() - i,
    {
        let c = cs[i];
        if c == '~' {
            push_char(out, '~');
            push_char(out, '0');
        } else if c == '/' {
            push_char(out, '~');
            push_char(out, '1');
        } else {
            push_char(out, c);
        }
        proof {
            assert(cs@.take(i + 1) == cs@.take(i as int).push(c));
            lemma_escape_push(cs@.take(i as int), c);
        }
        i = i + 1;
    }
    assert(cs@.take(cs@.len() as int) == cs@);
}

/// One raw segment unescaped.
fn unescape_segment(raw: &[char]) -> (r: Result<String, String>)
    ensures
        match r {
            Ok(s) => unescape(raw@) == Ok::<Seq<char>, Seq<char>>(s@),
            Err(e) => unescape(raw@) == Err::<Seq<char>, Seq<char>>(e@),
        },
{
    let mut out = String::new();
    let mut i: usize = 0;
    assert(raw@.skip(0) == raw@);
    while i < raw.len()
        invariant
            i <= raw@.len(),
            unescape(raw@) == match unescape(raw@.skip(i as int)) {
                Ok(r) => Ok(out@ + r),
                Err(e) => Err::<Seq<char>, Seq<char>>(e),
            },
        decreases raw@.len() - i,
    {
        let c = raw[i];
        let ghost rest = raw@.skip(i as int);
        let ghost old_out = out@;
        let ghost ch: char;
        let ghost next: int;
        if c == '~' {
            if i + 1 >= raw.len() {
                let mut e = String::new();
                push_char(&mut e, '~');
                push_char(&mut e, ' ');
                assert(e@ == seq!['~', ' ']);
                return Err(e);
            }
            let d = raw[i + 1];
            if d == '0' {
                push_char(&mut out, '~');
                proof { ch = '~'; }
            } else if d == '1' {
                push_char(&mut out, '/');
                proof { ch = '/'; }
            } else {
                let mut e = String::new();
                push_char(&mut e, '~');
                push_char(&mut e, d);
                assert(e@ == seq!['~', d]);
                return Err(e);
            }
            assert(rest.skip(2) == raw@.skip(i + 2));
            proof { next = i + 2; }
            i = i + 2;
        } else {
            push_char(&mut out, c);
            proof { ch = c; next = i + 1; }
            assert(rest.drop_first() == raw@.skip(i + 1));
            i = i + 1;
        }
        proof {
            assert(out@ == old_out.push(ch));
            assert(unescape(rest) == match unescape(raw@.skip(next)) {
                Ok(r) => Ok(seq![ch] + r),
                Err(e) => Err::<Seq<char>, Seq<char>>(e),
            });
            match unescape(raw@.skip(next)) {
                Ok(r) => {
                    assert(old_out + (seq![ch] + r) =~= out@ + r);
                },
                Err(e) => {},
            }
        }
    }
    assert(raw@.skip(raw@.len() as int) == Seq::<char>::empty());
    assert(out@ + Seq::<char>::empty() == out@);
    Ok(out)
}

/// The views of a sequence of character vectors.
pub open spec fn char_vec_views(v: Seq<Vec<char>>) -> Seq<Seq<char>> {
    v.map_values(|x: Vec<char>| x@)
}

/// The pieces of `s` (from position 1 on) between slashes.
fn split_after_first(s: &Vec<char>) -> (r: Vec<Vec<char>>)
    requires
        s@.len() >= 1,
    ensures
        char_vec_views(r@) == split_slash(s@.drop_first()),
{
    let mut parts: Vec<Vec<char>> = Vec::new();
    let mut cur: Vec<char> = Vec::new();
    let mut i: usize = 1;
    assert(s@.subrange(1, 1) == Seq::<char>::empty());
    while i < s.len()
        invariant
            1 <= i <= s@.len(),
            char_vec_views(parts@).push(cur@) == split_slash(s@.subrange(1, i as int)),
        decreases s@.len() - i,
    {
        let c = s[i];
        let ghost prev = s@.subrange(1, i as int);
        assert(s@.subrange(1, i + 1).drop_last() == prev);
        if c == '/' {
            let done = cur;
            parts.push(done);
            cur = Vec::new();
            assert(char_vec_views(parts@) == char_vec_views(parts@).drop_last().push(done@));
        } else {
            cur.push(c);
            assert(char_vec_views(parts@).push(cur@) == split_slash(prev).update(
                split_slash(prev).len() - 1,
                split_slash(prev).last().push(c),
            ));
        }
        i = i + 1;
    }
    let ghost before = char_vec_views(parts@);
    parts.push(cur);
    assert(char_vec_views(parts@) == before.push(cur@));
    assert(s@.subrange(1, s@.len() as int) == s@.drop_first());
    parts
}


proof fn lemma_unescape_escape(x: Seq<char>)
    ensures
        unescape(escape(x)) == Ok::<Seq<char>, Seq<char>>(x),
    decreases x.len(),
{
    if x.len() > 0 {
        let rest = x.drop_first();
        lemma_unescape_escape(rest);
        let e = escape(x);
        assert(e == escape_char(x[0]) + escape(rest));
        if x[0] == '~' || x[0] == '/' {
            assert(e.skip(2) == escape(rest));
        } else {
            assert(e.drop_first() == escape(rest));
        }
        assert(seq![x[0]] + rest == x);
    } else {
        assert(escape(x) == Seq::<char>::empty());
        assert(x == Seq::<char>::empty());
    }
}

proof fn lemma_escape_unescape(r: Seq<char>, x: Seq<char>)
    requires
        unescape(r) == Ok::<Seq<char>, Seq<char>>(x),
        forall|i: int| 0 <= i < r.len() ==> r[i] != '/',
    ensures
        escape(x) == r,
    decreases r.len(),
{
    if r.len() == 0 {
        assert(x == Seq::<char>::empty());
        assert(r =~= Seq::<char>::empty());
        assert(escape(x) == Seq::<char>::empty());
    } else if r[0] == '~' {
        let c = if r[1] == '0' { '~' } else { '/' };
        let y = unescape(r.skip(2))->Ok_0;
        lemma_escape_unescape(r.skip(2), y);
        assert(x == seq![c] + y);
        assert(x.drop_first() == y);
        assert(x[0] == c);
        assert(escape_char(c) =~= seq![r[0], r[1]]);
        assert(escape(x) == escape_char(x[0]) + escape(x.drop_first()));
        assert(r =~= seq![r[0], r[1]] + r.skip(2));
        assert(escape(x) =~= r);
    } else {
        let y = unescape(r.drop_first())->Ok_0;
        lemma_escape_unescape(r.drop_first(), y);
        assert(x == seq![r[0]] + y);
        assert(x.drop_first() == y);
        assert(x[0] == r[0]);
        assert(escape(x) == escape_char(x[0]) + escape(x.drop_first()));
        assert(r =~= seq![r[0]] + r.drop_first());
        assert(escape_char(r[0]) =~= seq![r[0]]);
        assert(escape(x) =~= r);
    }
}

/// No escaped text holds a slash.
proof fn lemma_escape_no_slash(x: Seq<char>)
    ensures
        forall|i: int| 0 <= i < escape(x).len() ==> escape(x)[i] != '/',
    decreases x.len(),
{
    if x.len() > 0 {
        lemma_escape_no_slash(x.drop_first());
        let a = escape_char(x[0]);
        let b = escape(x.drop_first());
        assert forall|i: int| 0 <= i < (a + b).len() implies (a + b)[i] != '/' by {
            if i >= a.len() {
                assert((a + b)[i] == b[i - a.len()]);
            }
        }
    }
}

proof fn lemma_split_no_slash(b: Seq<char>)
    requires
        forall|i: int| 0 <= i < b.len() ==> b[i] != '/',
    ensures
        split_slash(b) == seq![b],
    decreases b.len(),
{
    if b.len() > 0 {
        lemma_split_no_slash(b.drop_last());
        assert(b.last() != '/');
        assert(b.drop_last().push(b.last()) =~= b);
        let r = split_slash(b.drop_last());
        assert(r == seq![b.drop_last()]);
        assert(split_slash(b) == r.update(r.len() - 1, r.last().push(b.last())));
        assert(seq![b.drop_last()].update(0, b.drop_last().push(b.last())) =~= seq![b]);
    } else {
        assert(b =~= Seq::<char>::empty());
    }
}

proof fn lemma_split_append(a: Seq<char>, b: Seq<char>)
    requires
        forall|i: int| 0 <= i < b.len() ==> b[i] != '/',
    ensures
        split_slash(a + seq!['/'] + b) == split_slash(a).push(b),
    decreases b.len(),
{
    if b.len() == 0 {
        assert((a + seq!['/'] + b).drop_last() == a);
        assert((a + seq!['/'] + b).last() == '/');
        assert(split_slash(a + seq!['/'] + b) == split_slash(a).push(Seq::<char>::empty()));
        assert(b =~= Seq::<char>::empty());
    } else {
        let b0 = b.drop_last();
        lemma_split_append(a, b0);
        let t = a + seq!['/'] + b;
        assert(t.drop_last() == a + seq!['/'] + b0);
        assert(t.last() == b.last());
        let r = split_slash(a).push(b0);
        assert(b.last() != '/');
        assert(b0.push(b.last()) =~= b);
        assert(r.last() == b0);
        assert(split_slash(t) == split_slash(t.drop_last()).update(
            split_slash(t.drop_last()).len() - 1,
            split_slash(t.drop_last()).last().push(t.last()),
        ));
        assert(r.update(r.len() - 1, r.last().push(b.last())) =~= split_slash(a).push(b));
    }
}

proof fn lemma_split_join(parts: Seq<Seq<char>>)
    requires
        parts.len() > 0,
        forall|k: int, i: int|
            0 <= k < parts.len() && 0 <= i < parts[k].len() ==> #[trigger] parts[k][i] != '/',
    ensures
        split_slash(join(parts, seq!['/'])) == parts,
    decreases parts.len(),
{
    if parts.len() == 1 {
        assert(forall|i: int| 0 <= i < parts[0].len() ==> parts[0][i] != '/');
        lemma_split_no_slash(parts[0]);
        assert(seq![parts[0]] =~= parts);
    } else {
        let init = parts.drop_last();
        assert forall|k: int, i: int| 0 <= k < init.len() && 0 <= i < init[k].len() implies #[trigger] init[k][i] != '/' by {
            assert(init[k] == parts[k]);
        }
        lemma_split_join(init);
        let last = parts.last();
        assert(forall|i: int| 0 <= i < last.len() ==> last[i] != '/');
        lemma_split_append(join(init, seq!['/']), last);
        assert(init.push(last) =~= parts);
    }
}

proof fn lemma_join_split(t: Seq<char>)
    ensures
        join(split_slash(t), seq!['/']) == t,
        split_slash(t).len() >= 1,
    decreases t.len(),
{
    if t.len() > 0 {
        let t0 = t.drop_last();
        lemma_join_split(t0);
        let r = split_slash(t0);
        if t.last() == '/' {
            let r2 = r.push(Seq::<char>::empty());
            assert(r2.drop_last() == r);
            assert(join(r2, seq!['/']) =~= t0 + seq!['/']);
            assert(t0.push('/') == t);
        } else {
            let r2 = r.update(r.len() - 1, r.last().push(t.last()));
            if r.len() == 1 {
                assert(join(r2, seq!['/']) == r2[0]);
                assert(r2[0] =~= t0.push(t.last()));
            } else {
                assert(r2.drop_last() == r.drop_last());
                assert(join(r2, seq!['/']) =~= join(r, seq!['/']).push(t.last()));
            }
            assert(t0.push(t.last()) == t);
        }
    } else {
        assert(split_slash(t) == seq![Seq::<char>::empty()]);
        assert(join(split_slash(t), seq!['/']) == Seq::<char>::empty());
    }
}

proof fn lemma_unescape_all_escaped(segs: Seq<Seq<char>>)
    ensures
        unescape_all(segs.map_values(|s: Seq<char>| escape(s))) == Ok::<
            Seq<Seq<char>>,
            Seq<char>,
        >(segs),
    decreases segs.len(),
{
    let e = segs.map_values(|s: Seq<char>| escape(s));
    if segs.len() > 0 {
        lemma_unescape_escape(segs[0]);
        let rest = segs.drop_first();
        lemma_unescape_all_escaped(rest);
        assert(e.drop_first() =~= rest.map_values(|s: Seq<char>| escape(s)));
        assert(seq![segs[0]] + rest =~= segs);
    } else {
        assert(segs =~= Seq::<Seq<char>>::empty());
    }
}

proof fn lemma_unescape_all_inverse(raws: Seq<Seq<char>>, segs: Seq<Seq<char>>)
    requires
        unescape_all(raws) == Ok::<Seq<Seq<char>>, Seq<char>>(segs),
        forall|k: int, i: int|
            0 <= k < raws.len() && 0 <= i < raws[k].len() ==> #[trigger] raws[k][i] != '/',
    ensures
        raws == segs.map_values(|s: Seq<char>| escape(s)),
    decreases raws.len(),
{
    if raws.len() > 0 {
        let x = unescape(raws[0])->Ok_0;
        assert(forall|i: int| 0 <= i < raws[0].len() ==> raws[0][i] != '/');
        lemma_escape_unescape(raws[0], x);
        let tail = raws.drop_first();
        assert forall|k: int, i: int| 0 <= k < tail.len() && 0 <= i < tail[k].len() implies #[trigger] tail[k][i] != '/' by {
            assert(tail[k] == raws[k + 1]);
        }
        let r = unescape_all(raws.drop_first())->Ok_0;
        lemma_unescape_all_inverse(raws.drop_first(), r);
        assert(segs == seq![x] + r);
        assert(segs.map_values(|s: Seq<char>| escape(s)) =~= seq![escape(x)] + r.map_values(
            |s: Seq<char>| escape(s),
        ));
        assert(raws =~= seq![raws[0]] + raws.drop_first());
    } else {
        assert(segs == Seq::<Seq<char>>::empty());
        assert(raws =~= segs.map_values(|s: Seq<char>| escape(s)));
    }
}

proof fn lemma_split_no_slash_pieces(t: Seq<char>)
    ensures
        forall|k: int, i: int|
            0 <= k < split_slash(t).len() && 0 <= i < split_slash(t)[k].len() ==> #[trigger] split_slash(t)[k][i] != '/',
    decreases t.len(),
{
    if t.len() > 0 {
        lemma_split_no_slash_pieces(t.drop_last());
        lemma_join_split(t.drop_last());
        let r = split_slash(t.drop_last());
        let st = split_slash(t);
        assert forall|k: int, i: int| 0 <= k < st.len() && 0 <= i < st[k].len() implies #[trigger] st[k][i] != '/' by {
            if t.last() == '/' {
                if k < r.len() {
                    assert(st[k] == r[k]);
                }
            } else {
                if k < r.len() - 1 {
                    assert(st[k] == r[k]);
                } else {
                    assert(k == r.len() - 1);
                    assert(st[k] == r[k].push(t.last()));
                    if i < r[k].len() {
                        assert(st[k][i] == r[k][i]);
                    }
                }
            }
        }
    } else {
        assert(split_slash(t) == seq![Seq::<char>::empty()]);
    }
}

/// Parsing the rendering of a pointer with at least one segment gives the
/// pointer back. (The root renders as `/`, which parses to one empty
/// segment, so the root is left out.)
pub proof fn law_parse_render(segs: Seq<Seq<char>>)
    requires
        segs.len() > 0,
    ensures
        parse_spec(render_spec(segs)) == Ok::<Seq<Seq<char>>, PointerErrorView>(segs),
{
    let e = segs.map_values(|s: Seq<char>| escape(s));
    assert forall|k: int, i: int| 0 <= k < e.len() && 0 <= i < e[k].len() implies #[trigger] e[k][i]
        != '/' by {
        lemma_escape_no_slash(segs[k]);
    }
    lemma_split_join(e);
    lemma_unescape_all_escaped(segs);
    let r = render_spec(segs);
    assert(r.drop_first() == join(e, seq!['/']));
}

/// Rendering a parsed pointer gives back the non-empty string it was
/// parsed from.
pub proof fn law_render_parse(s: Seq<char>)
    requires
        s.len() > 0,
        parse_spec(s) is Ok,
    ensures
        render_spec(parse_spec(s)->Ok_0) == s,
{
    let segs = parse_spec(s)->Ok_0;
    let raws = split_slash(s.drop_first());
    lemma_split_no_slash_pieces(s.drop_first());
    lemma_unescape_all_inverse(raws, segs);
    lemma_join_split(s.drop_first());
    assert(seq!['/'] + s.drop_first() == s);
}

impl JsonPointer {
    /// Create an empty pointer (root).
    pub fn root() -> (r: Self)
        ensures
            r@ == Seq::<Seq<char>>::empty(),
    {
        let r = JsonPointer { segments: Vec::new() };
        assert(r@ =~= Seq::<Seq<char>>::empty());
        r
    }

    /// Push an object key segment.
    pub fn push(&mut self, segment: &str)
        ensures
            final(self)@ == old(self)@.push(segment@),
    {
        let s = crate::text::to_string(segment);
        self.segments.push(s);
        assert(self@ =~= old(self)@.push(segment@));
    }

    /// Pop the last segment.
    pub fn pop(&mut self) -> (r: Option<String>)
        ensures
            old(self)@.len() == 0 ==> r.is_none() && final(self)@ == old(self)@,
            old(self)@.len() > 0 ==> r.is_some() && r.unwrap()@ == old(self)@.last()
                && final(self)@ == old(self)@.drop_last(),
    {
        let r = self.segments.pop();
        assert(self@ =~= if old(self)@.len() == 0 {
            old(self)@
        } else {
            old(self)@.drop_last()
        });
        r
    }

    /// A copy of this pointer.
    pub fn duplicate(&self) -> (r: Self)
        ensures
            r@ == self@,
    {
        let mut segs: Vec<String> = Vec::new();
        let mut i: usize = 0;
        while i < self.segments.len()
            invariant
                i <= self.segments@.len(),
                segs@.len() == i,
                forall|j: int| 0 <= j < i ==> #[trigger] segs@[j]@ == self.segments@[j]@,
            decreases self.segments@.len() - i,
        {
            let s = self.segments[i].clone();
            segs.push(s);
            i = i + 1;
        }
        let r = JsonPointer { segments: segs };
        assert(r@ =~= self@);
        r
    }

    /// Clone and push (immutable operation).
    pub fn with(&self, segment: &str) -> (r: Self)
        ensures
            r@ == self@.push(segment@),
    {
        let mut cloned = self.duplicate();
        cloned.push(segment);
        cloned
    }

    /// Render as JSON Pointer string (RFC 6901).
    pub fn render(&self) -> (r: String)
        ensures
            r@ == render_spec(self@),
    {
        let mut out = String::new();
        if self.segments.len() == 0 {
            push_char(&mut out, '/');
            return out;
        }
        let ghost escaped = self@.map_values(|s: Seq<char>| escape(s));
        let mut i: usize = 0;
        while i < self.segments.len()
            invariant
                i <= self.segments@.len(),
                escaped == self@.map_values(|s: Seq<char>| escape(s)),
                self@.len() == self.segments@.len(),
                i == 0 ==> out@ == Seq::<char>::empty(),
                i > 0 ==> out@ == seq!['/'] + join(escaped.take(i as int), seq!['/']),
            decreases self.segments@.len() - i,
        {
            let ghost before = out@;
            push_char(&mut out, '/');
            push_escaped(&mut out, self.segments[i].as_str());
            proof {
                assert(self.segments@[i as int]@ == self@[i as int]);
                assert(escaped.take(i + 1).drop_last() == escaped.take(i as int));
                assert(escaped.take(i + 1).last() == escape(self@[i as int]));
                if i == 0 {
                    assert(escaped.take(1) == seq![escape(self@[0])]);
                    assert(out@ == seq!['/'] + join(escaped.take(1), seq!['/']));
                } else {
                    assert(out@ == seq!['/'] + join(escaped.take(i + 1), seq!['/']));
                }
            }
            i = i + 1;
        }
        assert(escaped.take(self@.len() as int) == escaped);
        out
    }

    /// Parse from JSON Pointer string.
    pub fn parse(s: &str) -> (r: Result<Self, JsonPointerParseError>)
        ensures
            match r {
                Ok(p) => parse_spec(s@) == Ok::<Seq<Seq<char>>, PointerErrorView>(p@),
                Err(e) => parse_spec(s@) == Err::<Seq<Seq<char>>, PointerErrorView>(e@),
            },
    {
        let cs = chars_of(s);
        if cs.len() == 0 {
            return Ok(Self::root());
        }
        if cs[0] != '/' {
            return Err(JsonPointerParseError::MissingLeadingSlash);
        }
        let raws = split_after_first(&cs);
        let ghost rv = char_vec_views(raws@);
        let mut segments: Vec<String> = Vec::new();
        let mut i: usize = 0;
        assert(rv.skip(0) == rv);
        while i < raws.len()
            invariant
                i <= raws@.len(),
                rv == char_vec_views(raws@),
                cs@ == s@,
                cs@.len() >= 1,
                cs@[0] == '/',
                rv == split_slash(cs@.drop_first()),
                unescape_all(rv) == match unescape_all(rv.skip(i as int)) {
                    Ok(r) => Ok(segment_views(segments@) + r),
                    Err(e) => Err::<Seq<Seq<char>>, Seq<char>>(e),
                },
            decreases raws@.len() - i,
        {
            let ghost rest = rv.skip(i as int);
            assert(rest[0] == raws@[i as int]@);
            assert(rest.drop_first() == rv.skip(i + 1));
            match unescape_segment(raws[i].as_slice()) {
                Ok(seg) => {
                    let ghost before = segment_views(segments@);
                    segments.push(seg);
                    assert(segment_views(segments@) == before.push(seg@));
                    assert forall|r: Seq<Seq<char>>| #[trigger] (before + (seq![seg@] + r)) == (
                    before.push(seg@) + r) by {
                        assert((before + (seq![seg@] + r)) =~= (before.push(seg@) + r));
                    }
                },
                Err(e) => {
                    assert(unescape_all(rest) == Err::<Seq<Seq<char>>, Seq<char>>(e@));
                    assert(cs@.drop_first() == s@.drop_first());
                    return Err(JsonPointerParseError::InvalidEscape(e));
                },
            }
            i = i + 1;
        }
        assert(rv.skip(raws@.len() as int) == Seq::<Seq<char>>::empty());
        let p = JsonPointer { segments };
        assert(segment_views(p.segments@) + Seq::<Seq<char>>::empty() == p@);
        Ok(p)
    }

    /// Check if pointer is root.
    pub fn is_root(&self) -> (r: bool)
        ensures
            r == (self@.len() == 0),
    {
        self.segments.len() == 0
    }

    /// Get number of segments.
    pub fn len(&self) -> (r: usize)
        ensures
            r == self@.len(),
    {
        self.segments.len()
    }

    /// Check if pointer is empty (root).
    pub fn is_empty(&self) -> (r: bool)
        ensures
            r == (self@.len() == 0),
    {
        self.segments.len() == 0
    }
}

impl Default for JsonPointer {
    fn default() -> (r: Self)
        ensures
            r@ == Seq::<Seq<char>>::empty(),
    {
        Self::root()
    }
}

/// Popping a pointer just pushed gives back the segment pushed and the
/// pointer as it was (the contracts of `push` and `pop` together).
pub proof fn law_pop_undoes_push(p: Seq<Seq<char>>, segment: Seq<char>)
    ensures
        p.push(segment).len() > 0,
        p.push(segment).last() == segment,
        p.push(segment).drop_last() == p,
{
    assert(p.push(segment).drop_last() =~= p);
}

} // verus!
