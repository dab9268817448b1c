//! Character-level string helpers shared by the rest of the library:
//! building strings, decimal rendering of integers, joining and trimming.
use vstd::prelude::*;

verus! {

/// Appends one character to a string (std's `String::push`).
#[verifier::external_body]
pub(crate) fn push_char(s: &mut String, c: char)
    ensures
        final(s)@ == old(s)@.push(c),
{
    s.push(c);
}

/// The characters of a string slice, in order.
pub fn chars_of(s: &str) -> (r: Vec<char>)
    ensures
        r@ == s@,
{
    let mut out: Vec<char> = Vec::new();
    broadcast use vstd::string::group_string_axioms;
    for c in it: s.chars()
        invariant
            it.seq() == s@,
            out@ == it.seq().take(it.index() as int),
    {
        out.push(c);
        assert(out@ == it.seq().take(it.index() as int + 1));
    }
    assert(out@ == s@);
    out
}

/// Builds a string from a slice of characters.
pub fn string_from_chars(v: &[char]) -> (r: String)
    ensures
        r@ == v@,
{
    let mut s = String::new();
    let mut i: usize = 0;
    while i < v.len()
        invariant
            i <= v@.len(),
            s@ == v@.take(i as int),
        decreases v@.len() - i,
    {
        push_char(&mut s, v[i]);
        i = i + 1;
        assert(s@ == v@.take(i as int));
    }
    assert(v@.take(v@.len() as int) == v@);
    s
}

/// Appends the characters of `t` to `s`.
pub fn push_str(s: &mut String, t: &str)
    ensures
        final(s)@ == old(s)@ + t@,
{
    s.append(t);
}

/// A string holding a copy of a string slice.
pub fn to_string(t: &str) -> (r: String)
    ensures
        r@ == t@,
{
    let mut s = String::new();
    s.append(t);
    assert(s@ == t@);
    s
}

/// The decimal digits of a natural number, most significant first.
pub open spec fn decimal(n: nat) -> Seq<char>
    decreases n,
{
    if n < 10 {
        seq![digit_char(n)]
    } else {
        decimal(n / 10).push(digit_char(n % 10))
    }
}

/// The ASCII digit for a value below ten.
pub open spec fn digit_char(d: nat) -> char {
    if d == 0 { '0' }
    else if d == 1 { '1' }
    else if d == 2 { '2' }
    else if d == 3 { '3' }
    else if d == 4 { '4' }
    else if d == 5 { '5' }
    else if d == 6 { '6' }
    else if d == 7 { '7' }
    else if d == 8 { '8' }
    else { '9' }
}

/// The decimal text of an integer, with a leading `-` when negative.
pub open spec fn int_text(i: int) -> Seq<char> {
    if i < 0 {
        seq!['-'] + decimal((-i) as nat)
    } else {
        decimal(i as nat)
    }
}

fn digit(d: u64) -> (c: char)
    requires
        d < 10,
    ensures
        c == digit_char(d as nat),
{
    if d == 0 { '0' }
    else if d == 1 { '1' }
    else if d == 2 { '2' }
    else if d == 3 { '3' }
    else if d == 4 { '4' }
    else if d == 5 { '5' }
    else if d == 6 { '6' }
    else if d == 7 { '7' }
    else if d == 8 { '8' }
    else { '9' }
}

/// The decimal digits of `n` appended to `s`.
pub fn push_decimal(s: &mut String, n: u64)
    ensures
        final(s)@ == old(s)@ + decimal(n as nat),
    decreases n,
{
    if n < 10 {
        push_char(s, digit(n));
        assert(decimal(n as nat) == seq![digit_char(n as nat)]);
    } else {
        push_decimal(s, n / 10);
        push_char(s, digit(n % 10));
        assert(decimal(n as nat) == decimal((n / 10) as nat).push(digit_char((n % 10) as nat)));
    }
}

/// Decimal text of an unsigned size.
pub fn usize_text(n: usize) -> (r: String)
    ensures
        r@ == decimal(n as nat),
{
    let mut s = String::new();
    push_decimal(&mut s, n as u64);
    s
}

/// Decimal text of a signed 64-bit integer.
pub fn i64_text(i: i64) -> (r: String)
    ensures
        r@ == int_text(i as int),
{
    let mut s = String::new();
    if i < 0 {
        push_char(&mut s, '-');
        let m: u64 = if i == i64::MIN {
            9223372036854775808u64
        } else {
            (-i) as u64
        };
        push_decimal(&mut s, m);
    } else {
        push_decimal(&mut s, i as u64);
    }
    s
}

/// The parts joined, with `sep` between neighbours.
pub open spec fn join(parts: Seq<Seq<char>>, sep: Seq<char>) -> Seq<char>
    decreases parts.len(),
{
    if parts.len() == 0 {
        Seq::empty()
    } else if parts.len() == 1 {
        parts[0]
    } else {
        join(parts.drop_last(), sep) + sep + parts.last()
    }
}

/// The views of a sequence of strings.
pub open spec fn views(v: Seq<String>) -> Seq<Seq<char>> {
    v.map_values(|s: String| s@)
}

/// Joins strings with a separator.
pub fn join_strings(parts: &Vec<String>, sep: &str) -> (r: String)
    ensures
        r@ == join(views(parts@), sep@),
{
    let mut out = String::new();
    let mut i: usize = 0;
    while i < parts.len()
        invariant
            i <= parts@.len(),
            out@ == join(views(parts@).take(i as int), sep@),
        decreases parts@.len() - i,
    {
        let ghost before = views(parts@).take(i as int);
        if i > 0 {
            out.append(sep);
        }
        out.append(parts[i].as_str());
        i = i + 1;
        assert(views(parts@).take(i as int).drop_last() == before);
        if i == 1 {
            assert(views(parts@).take(1) == seq![parts@[0]@]);
        }
    }
    assert(views(parts@).take(parts@.len() as int) == views(parts@));
    out
}

/// Whether the two character sequences are equal.
pub fn chars_eq(a: &[char], b: &[char]) -> (r: bool)
    ensures
        r == (a@ == b@),
{
    if a.len() != b.len() {
        return false;
    }
    let mut i: usize = 0;
    while i < a.len()
        invariant
            a@.len() == b@.len(),
            i <= a@.len(),
            forall|j: int| 0 <= j < i ==> a@[j] == b@[j],
        decreases a@.len() - i,
    {
        if a[i] != b[i] {
            return false;
        }
        i = i + 1;
    }
    assert(a@ == b@);
    true
}

/// Whether two strings hold the same characters.
pub fn str_eq(a: &str, b: &str) -> (r: bool)
    ensures
        r == (a@ == b@),
{
    let x = chars_of(a);
    let y = chars_of(b);
    chars_eq(x.as_slice(), y.as_slice())
}

/// Whether `c` has the Unicode White_Space property (what `char::is_whitespace`
/// tests).
pub open spec fn is_white_space(c: char) -> bool {
    let u = c as u32;
    (0x9 <= u <= 0xd) || u == 0x20 || u == 0x85 || u == 0xa0 || u == 0x1680 || (0x2000 <= u
        <= 0x200a) || u == 0x2028 || u == 0x2029 || u == 0x202f || u == 0x205f || u == 0x3000
}

/// Whether `c` has the Unicode White_Space property.
pub fn is_white_space_exec(c: char) -> (r: bool)
    ensures
        r == is_white_space(c),
{
    let u = c as u32;
    (0x9 <= u && u <= 0xd) || u == 0x20 || u == 0x85 || u == 0xa0 || u == 0x1680 || (0x2000 <= u
        && u <= 0x200a) || u == 0x2028 || u == 0x2029 || u == 0x202f || u == 0x205f || u == 0x3000
}

/// The characters that a trim removes: one given character, or white space.
#[derive(Clone, Copy)]
pub enum CharClass {
    Is(char),
    WhiteSpace,
}

/// Whether `c` belongs to the class.
pub open spec fn in_class(cls: CharClass, c: char) -> bool {
    match cls {
        CharClass::Is(x) => c == x,
        CharClass::WhiteSpace => is_white_space(c),
    }
}

fn in_class_exec(cls: CharClass, c: char) -> (r: bool)
    ensures
        r == in_class(cls, c),
{
    match cls {
        CharClass::Is(x) => c == x,
        CharClass::WhiteSpace => is_white_space_exec(c),
    }
}

/// `t` without its leading characters of the class.
pub open spec fn strip_front(t: Seq<char>, cls: CharClass) -> Seq<char>
    decreases t.len(),
{
    if t.len() > 0 && in_class(cls, t[0]) {
        strip_front(t.drop_first(), cls)
    } else {
        t
    }
}

/// `t` without its trailing characters of the class.
pub open spec fn strip_back(t: Seq<char>, cls: CharClass) -> Seq<char>
    decreases t.len(),
{
    if t.len() > 0 && in_class(cls, t.last()) {
        strip_back(t.drop_last(), cls)
    } else {
        t
    }
}

/// `t` without its leading and trailing characters of the class.
pub open spec fn trim_class(t: Seq<char>, cls: CharClass) -> Seq<char> {
    strip_back(strip_front(t, cls), cls)
}

proof fn lemma_strip_front(t: Seq<char>, cls: CharClass, a: int)
    requires
        0 <= a <= t.len(),
        forall|k: int| 0 <= k < a ==> in_class(cls, #[trigger] t[k]),
        a == t.len() || !in_class(cls, t[a]),
    ensures
        strip_front(t, cls) == t.subrange(a, t.len() as int),
    decreases a,
{
    if a > 0 {
        let d = t.drop_first();
        assert forall|k: int| 0 <= k < a - 1 implies in_class(cls, #[trigger] d[k]) by {
            assert(d[k] == t[k + 1]);
        }
        if a < t.len() {
            assert(d[a - 1] == t[a]);
        }
        lemma_strip_front(d, cls, a - 1);
        assert(d.subrange(a - 1, d.len() as int) =~= t.subrange(a, t.len() as int));
    } else {
        assert(t.subrange(0, t.len() as int) =~= t);
    }
}

proof fn lemma_strip_back(t: Seq<char>, cls: CharClass, b: int)
    requires
        0 <= b <= t.len(),
        forall|k: int| b <= k < t.len() ==> in_class(cls, #[trigger] t[k]),
        b == 0 || !in_class(cls, t[b - 1]),
    ensures
        strip_back(t, cls) == t.subrange(0, b),
    decreases t.len() - b,
{
    if b < t.len() {
        let d = t.drop_last();
        assert forall|k: int| b <= k < d.len() implies in_class(cls, #[trigger] d[k]) by {
            assert(d[k] == t[k]);
        }
        if b > 0 {
            assert(d[b - 1] == t[b - 1]);
        }
        lemma_strip_back(d, cls, b);
        assert(d.subrange(0, b) =~= t.subrange(0, b));
    } else {
        assert(t.subrange(0, b) =~= t);
    }
}

/// The characters of `v[a .. b]` as a string.
pub fn string_from_range(v: &Vec<char>, a: usize, b: usize) -> (r: String)
    requires
        a <= b <= v@.len(),
    ensures
        r@ == v@.subrange(a as int, b as int),
{
    let mut s = String::new();
    let mut i = a;
    while i < b
        invariant
            a <= i <= b,
            b <= v@.len(),
            s@ == v@.subrange(a as int, i as int),
        decreases b - i,
    {
        push_char(&mut s, v[i]);
        i = i + 1;
        assert(s@ =~= v@.subrange(a as int, i as int));
    }
    s
}

/// `t` with the leading characters of the class removed.
pub fn strip_front_exec(t: &str, cls: CharClass) -> (r: String)
    ensures
        r@ == strip_front(t@, cls),
{
    let v = chars_of(t);
    let mut a: usize = 0;
    while a < v.len() && in_class_exec(cls, v[a])
        invariant
            a <= v@.len(),
            v@ == t@,
            forall|k: int| 0 <= k < a ==> in_class(cls, #[trigger] t@[k]),
        decreases v@.len() - a,
    {
        a = a + 1;
    }
    proof {
        lemma_strip_front(t@, cls, a as int);
    }
    string_from_range(&v, a, v.len())
}

/// `t` with the trailing characters of the class removed.
pub fn strip_back_exec(t: &str, cls: CharClass) -> (r: String)
    ensures
        r@ == strip_back(t@, cls),
{
    let v = chars_of(t);
    let mut b: usize = v.len();
    while b > 0 && in_class_exec(cls, v[b - 1])
        invariant
            b <= v@.len(),
            v@ == t@,
            forall|k: int| b <= k < t@.len() ==> in_class(cls, #[trigger] t@[k]),
        decreases b,
    {
        b = b - 1;
    }
    proof {
        lemma_strip_back(t@, cls, b as int);
    }
    string_from_range(&v, 0, b)
}

/// `t` with the leading and trailing characters of the class removed.
pub fn trim_class_exec(t: &str, cls: CharClass) -> (r: String)
    ensures
        r@ == trim_class(t@, cls),
{
    let f = strip_front_exec(t, cls);
    strip_back_exec(f.as_str(), cls)
}

/// Lexicographic order on character sequences (by code point), the order of
/// `String`'s `Ord` on UTF-8 text.
pub open spec fn chars_lt(a: Seq<char>, b: Seq<char>) -> bool
    decreases a.len(),
{
    if a.len() == 0 {
        b.len() > 0
    } else if b.len() == 0 {
        false
    } else if a[0] != b[0] {
        (a[0] as int) < (b[0] as int)
    } else {
        chars_lt(a.drop_first(), b.drop_first())
    }
}

/// Whether `a` comes before `b` in lexicographic order.
pub fn chars_lt_exec(a: &str, b: &str) -> (r: bool)
    ensures
        r == chars_lt(a@, b@),
{
    let x = chars_of(a);
    let y = chars_of(b);
    let mut i: usize = 0;
    assert(a@.skip(0) =~= a@);
    assert(b@.skip(0) =~= b@);
    while i < x.len() && i < y.len() && x[i] == y[i]
        invariant
            i <= x@.len(),
            i <= y@.len(),
            x@ == a@,
            y@ == b@,
            chars_lt(a@, b@) == chars_lt(a@.skip(i as int), b@.skip(i as int)),
        decreases x@.len() - i,
    {
        assert(a@.skip(i as int).drop_first() =~= a@.skip(i as int + 1));
        assert(b@.skip(i as int).drop_first() =~= b@.skip(i as int + 1));
        i = i + 1;
    }
    if i == x.len() {
        i < y.len()
    } else if i == y.len() {
        false
    } else {
        x[i] < y[i]
    }
}

/// No sequence comes before itself.
pub proof fn lemma_chars_lt_irreflexive(a: Seq<char>)
    ensures
        !chars_lt(a, a),
    decreases a.len(),
{
    if a.len() > 0 {
        lemma_chars_lt_irreflexive(a.drop_first());
    }
}

/// The order is transitive.
pub proof fn lemma_chars_lt_transitive(a: Seq<char>, b: Seq<char>, c: Seq<char>)
    requires
        chars_lt(a, b),
        chars_lt(b, c),
    ensures
        chars_lt(a, c),
    decreases a.len(),
{
    if a.len() > 0 && b.len() > 0 && c.len() > 0 && a[0] == b[0] && b[0] == c[0] {
        lemma_chars_lt_transitive(a.drop_first(), b.drop_first(), c.drop_first());
    }
}

/// Of two different sequences, one comes first.
pub proof fn lemma_chars_lt_total(a: Seq<char>, b: Seq<char>)
    requires
        a != b,
    ensures
        chars_lt(a, b) || chars_lt(b, a),
    decreases a.len(),
{
    if a.len() > 0 && b.len() > 0 && a[0] == b[0] {
        if a.drop_first() == b.drop_first() {
            assert(a =~= seq![a[0]] + a.drop_first());
            assert(b =~= seq![b[0]] + b.drop_first());
        }
        lemma_chars_lt_total(a.drop_first(), b.drop_first());
    } else if a.len() == 0 && b.len() == 0 {
        assert(a =~= b);
    } else if a.len() > 0 && b.len() > 0 {
        assert((a[0] as int) != (b[0] as int));
    }
}

/// At most one of two sequences comes first.
pub proof fn lemma_chars_lt_asymmetric(a: Seq<char>, b: Seq<char>)
    requires
        chars_lt(a, b),
    ensures
        !chars_lt(b, a),
    decreases a.len(),
{
    if a.len() > 0 && b.len() > 0 && a[0] == b[0] {
        lemma_chars_lt_asymmetric(a.drop_first(), b.drop_first());
    }
}

/// The sequences in strictly increasing order.
pub open spec fn strictly_sorted(v: Seq<Seq<char>>) -> bool {
    forall|i: int, j: int| 0 <= i < j < v.len() ==> chars_lt(#[trigger] v[i], #[trigger] v[j])
}

/// Inserts `x` into a strictly sorted vector of strings, unless present.
pub fn insert_sorted(v: &mut Vec<String>, x: String)
    requires
        strictly_sorted(views(old(v)@)),
    ensures
        strictly_sorted(views(final(v)@)),
        forall|y: Seq<char>|
            #[trigger] views(final(v)@).contains(y) <==> (views(old(v)@).contains(y) || y == x@),
{
    let ghost old_views = views(v@);
    let mut p: usize = 0;
    while p < v.len() && chars_lt_exec(v[p].as_str(), x.as_str())
        invariant
            p <= v@.len(),
            views(v@) == old_views,
            forall|q: int| 0 <= q < p ==> chars_lt(#[trigger] old_views[q], x@),
        decreases v@.len() - p,
    {
        p = p + 1;
    }
    if p < v.len() && str_eq(v[p].as_str(), x.as_str()) {
        assert(old_views[p as int] == x@);
        return;
    }
    proof {
        if p < old_views.len() {
            lemma_chars_lt_total(old_views[p as int], x@);
        }
    }
    let ghost xv = x@;
    v.insert(p, x);
    let ghost nv = views(v@);
    assert(nv =~= old_views.insert(p as int, xv));
    assert forall|i: int, j: int| 0 <= i < j < nv.len() implies chars_lt(
        #[trigger] nv[i],
        #[trigger] nv[j],
    ) by {
        if j < p {
            assert(nv[i] == old_views[i] && nv[j] == old_views[j]);
        } else if j == p {
            assert(nv[i] == old_views[i]);
        } else if i == p {
            assert(nv[j] == old_views[j - 1]);
            if j - 1 > p {
                lemma_chars_lt_transitive(xv, old_views[p as int], old_views[j - 1]);
            }
        } else if i < p {
            assert(nv[i] == old_views[i] && nv[j] == old_views[j - 1]);
        } else {
            assert(nv[i] == old_views[i - 1] && nv[j] == old_views[j - 1]);
        }
    }
    assert forall|y: Seq<char>| nv.contains(y) <==> (old_views.contains(y) || y == xv) by {
        if nv.contains(y) {
            let k = choose|k: int| 0 <= k < nv.len() && nv[k] == y;
            if k < p {
                assert(old_views[k] == y);
            } else if k > p {
                assert(old_views[k - 1] == y);
            }
        }
        if old_views.contains(y) {
            let k = choose|k: int| 0 <= k < old_views.len() && old_views[k] == y;
            if k < p {
                assert(nv[k] == y);
            } else {
                assert(nv[k + 1] == y);
            }
        }
        if y == xv {
            assert(nv[p as int] == y);
        }
    }
}

/// A copy of a vector of strings.
pub fn clone_strings(v: &Vec<String>) -> (r: Vec<String>)
    ensures
        views(r@) == views(v@),
{
    let mut out: Vec<String> = Vec::new();
    let mut k: usize = 0;
    while k < v.len()
        invariant
            k <= v@.len(),
            views(out@) == views(v@).take(k as int),
        decreases v@.len() - k,
    {
        let ghost before = out@;
        out.push(to_string(v[k].as_str()));
        assert(views(out@) =~= views(before).push(v@[k as int]@));
        assert(views(v@).take(k as int + 1) =~= views(v@).take(k as int).push(v@[k as int]@));
        k = k + 1;
    }
    assert(views(v@).take(v@.len() as int) =~= views(v@));
    out
}

} // verus!
