//! Numeric literals in directive arguments: decimal integers (read with
//! `str::parse::<i64>`), hexadecimal code points, and characters from code
//! points.
use vstd::prelude::*;

verus! {

/// Whether `c` is an ASCII decimal digit.
pub open spec fn is_digit(c: char) -> bool {
    '0' as int <= c as int <= '9' as int
}

/// The value of a string of decimal digits.
pub open spec fn digits_value(d: Seq<char>) -> int
    decreases d.len(),
{
    if d.len() == 0 {
        0
    } else {
        digits_value(d.drop_last()) * 10 + (d.last() as int - '0' as int)
    }
}

/// Whether every character is an ASCII decimal digit.
pub open spec fn all_digits(d: Seq<char>) -> bool {
    forall|i: int| 0 <= i < d.len() ==> is_digit(#[trigger] d[i])
}

/// Whether every character is a hexadecimal digit.
pub open spec fn all_hex_digits(d: Seq<char>) -> bool {
    forall|i: int| 0 <= i < d.len() ==> (#[trigger] hex_digit_value(d[i])) is Some
}

/// The integer a decimal literal denotes: an optional `+` or `-` sign
/// followed by one or more ASCII digits, and nothing else.
pub open spec fn decimal_int_value(s: Seq<char>) -> Option<int> {
    let signed = s.len() > 0 && (s[0] == '+' || s[0] == '-');
    let body = if signed {
        s.drop_first()
    } else {
        s
    };
    if body.len() > 0 && all_digits(body) {
        Some(
            if signed && s[0] == '-' {
                -digits_value(body)
            } else {
                digits_value(body)
            },
        )
    } else {
        None
    }
}

/// The display text of the error `str::parse::<i64>` gives for a text it
/// refuses.
pub uninterp spec fn int_parse_error_text(s: Seq<char>) -> Seq<char>;

/// Reads a decimal integer with `str::parse::<i64>`. As std documents, it
/// accepts exactly an optional sign followed by digits whose value fits in
/// an `i64`; the contract names the text of the error otherwise
/// (`int_parse_error_text`), which is not stated.
#[verifier::external_body]
pub(crate) fn parse_i64(s: &str) -> (r: Result<i64, String>)
    ensures
        match r {
            Ok(v) => decimal_int_value(s@) == Some(v as int),
            Err(e) => !(decimal_int_value(s@) matches Some(x) && i64::MIN <= x <= i64::MAX) && e@
                == int_parse_error_text(s@),
        },
{
    match s.parse::<i64>() {
        Ok(v) => Ok(v),
        Err(e) => Err(e.to_string()),
    }
}

/// Whether `code` is a Unicode scalar value (what `char::from_u32` accepts).
pub open spec fn is_scalar_value(code: int) -> bool {
    (0 <= code < 0xd800) || (0xe000 <= code <= 0x10ffff)
}

/// `char::from_u32`: the character with the code point, when it is a
/// Unicode scalar value, as std documents.
#[verifier::external_body]
pub(crate) fn char_from_u32(code: u32) -> (r: Option<char>)
    ensures
        r is Some <==> is_scalar_value(code as int),
        r matches Some(c) ==> c as int == code as int,
{
    char::from_u32(code)
}

/// The value of a hexadecimal digit.
pub open spec fn hex_digit_value(c: char) -> Option<int> {
    let u = c as int;
    if '0' as int <= u <= '9' as int {
        Some(u - '0' as int)
    } else if 'a' as int <= u <= 'f' as int {
        Some(u - 'a' as int + 10)
    } else if 'A' as int <= u <= 'F' as int {
        Some(u - 'A' as int + 10)
    } else {
        None
    }
}

/// The value of a string of hexadecimal digits.
pub open spec fn hex_digits_value(d: Seq<char>) -> int
    decreases d.len(),
{
    if d.len() == 0 {
        0
    } else {
        hex_digits_value(d.drop_last()) * 16 + match hex_digit_value(d.last()) {
            Some(v) => v,
            None => 0,
        }
    }
}

/// What `u32::from_str_radix(s, 16)` reads, as std documents it: an
/// optional `+` followed by one or more hexadecimal digits.
pub open spec fn hex_value(s: Seq<char>) -> Option<int> {
    let body = if s.len() > 0 && s[0] == '+' {
        s.drop_first()
    } else {
        s
    };
    if body.len() > 0 && all_hex_digits(body) {
        Some(hex_digits_value(body))
    } else {
        None
    }
}

fn hex_digit_exec(c: char) -> (r: Option<u32>)
    ensures
        match r {
            Some(v) => hex_digit_value(c) == Some(v as int),
            None => hex_digit_value(c) is None,
        },
{
    let u = c as u32;
    if '0' as u32 <= u && u <= '9' as u32 {
        Some(u - '0' as u32)
    } else if 'a' as u32 <= u && u <= 'f' as u32 {
        Some(u - 'a' as u32 + 10)
    } else if 'A' as u32 <= u && u <= 'F' as u32 {
        Some(u - 'A' as u32 + 10)
    } else {
        None
    }
}

/// Sixteen to the power `n`.
pub open spec fn pow16(n: nat) -> int
    decreases n,
{
    if n == 0 {
        1
    } else {
        16 * pow16((n - 1) as nat)
    }
}

proof fn lemma_pow16_small(n: nat)
    requires
        n <= 4,
    ensures
        pow16(n) <= 65536,
{
    reveal_with_fuel(pow16, 5);
}

/// Reads up to four characters as `u32::from_str_radix(s, 16)` does.
pub(crate) fn hex_value_exec(s: &[char]) -> (r: Option<u32>)
    requires
        s@.len() <= 4,
    ensures
        match r {
            Some(v) => hex_value(s@) == Some(v as int),
            None => hex_value(s@) is None,
        },
{
    let start: usize = if s.len() > 0 && s[0] == '+' {
        1
    } else {
        0
    };
    let ghost body = if s@.len() > 0 && s@[0] == '+' {
        s@.drop_first()
    } else {
        s@
    };
    assert(body =~= s@.subrange(start as int, s@.len() as int));
    if start >= s.len() {
        return None;
    }
    let mut value: u32 = 0;
    let mut i = start;
    while i < s.len()
        invariant
            start <= i <= s@.len(),
            s@.len() <= 4,
            body == s@.subrange(start as int, s@.len() as int),
            body == (if s@.len() > 0 && s@[0] == '+' {
                s@.drop_first()
            } else {
                s@
            }),
            forall|k: int| start <= k < i ==> (#[trigger] hex_digit_value(s@[k])) is Some,
            value as int == hex_digits_value(s@.subrange(start as int, i as int)),
            value < pow16((i - start) as nat),
        decreases s@.len() - i,
    {
        match hex_digit_exec(s[i]) {
            Some(d) => {
                assert(s@.subrange(start as int, i as int + 1).drop_last() =~= s@.subrange(
                    start as int,
                    i as int,
                ));
                assert(pow16((i + 1 - start) as nat) == 16 * pow16((i - start) as nat));
                proof {
                    lemma_pow16_small((i - start) as nat);
                }
                value = value * 16 + d;
            },
            None => {
                assert(body[i - start] == s@[i as int]);
                assert(hex_digit_value(body[i - start]) is None);
                assert(!all_hex_digits(body));
                return None;
            },
        }
        i = i + 1;
    }
    assert(s@.subrange(start as int, i as int) == body);
    assert forall|k: int| 0 <= k < body.len() implies (#[trigger] hex_digit_value(
        body[k],
    )) is Some by {
        assert(body[k] == s@[k + start]);
    }
    assert(all_hex_digits(body));
    Some(value)
}

} // verus!
