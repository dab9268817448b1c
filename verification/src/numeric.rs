//! Exact integer models of the double-precision arithmetic the validator
//! relies on: decoding IEEE 754 bit patterns, comparing a double with an
//! integer bound, converting a 64-bit integer to the nearest double, and
//! the shortest decimal text of such a converted integer.
use crate::text::{decimal, push_char, push_decimal};
use vstd::arithmetic::power2::{lemma2_to64, lemma2_to64_rest, lemma_pow2_adds, lemma_pow2_pos, lemma_pow2_unfold, pow2};
use vstd::prelude::*;

verus! {

/// The class of a double-precision bit pattern. A finite value is
/// `(-1)^negative * mantissa * 2^exponent`.
#[derive(Debug, Clone, Copy, PartialEq, Eq, Structural)]
pub enum DoubleClass {
    Finite { negative: bool, mantissa: u64, exponent: i32 },
    Infinite { negative: bool },
    NotANumber,
}

/// 2^52, the implicit leading bit of a normal double.
pub open spec fn hidden_bit() -> int {
    4503599627370496
}

/// How IEEE 754 binary64 reads a bit pattern.
pub open spec fn classify(bits: u64) -> DoubleClass {
    let negative = bits / 9223372036854775808u64 == 1;
    let expf = (bits / 4503599627370496u64) % 2048;
    let frac = bits % 4503599627370496u64;
    if expf == 2047 {
        if frac == 0 {
            DoubleClass::Infinite { negative }
        } else {
            DoubleClass::NotANumber
        }
    } else if expf == 0 {
        DoubleClass::Finite { negative, mantissa: frac as u64, exponent: -1074i32 }
    } else {
        DoubleClass::Finite {
            negative,
            mantissa: (frac + 4503599627370496u64) as u64,
            exponent: (expf - 1075) as i32,
        }
    }
}

/// Decodes a double-precision bit pattern.
pub fn decode(bits: u64) -> (r: DoubleClass)
    ensures
        r == classify(bits),
        r matches DoubleClass::Finite { mantissa, exponent, .. } ==> mantissa < 2 * hidden_bit()
            && -1074 <= exponent <= 971 && (exponent > -1074 ==> mantissa >= hidden_bit()),
{
    let negative = bits / 9223372036854775808u64 == 1;
    let expf = (bits / 4503599627370496u64) % 2048;
    let frac = bits % 4503599627370496u64;
    if expf == 2047 {
        if frac == 0 {
            DoubleClass::Infinite { negative }
        } else {
            DoubleClass::NotANumber
        }
    } else if expf == 0 {
        DoubleClass::Finite { negative, mantissa: frac, exponent: -1074 }
    } else {
        DoubleClass::Finite {
            negative,
            mantissa: frac + 4503599627370496u64,
            exponent: (expf as i32) - 1075,
        }
    }
}

/// The integer a double equals, when it is finite and has no fractional
/// part.
pub open spec fn integral_value(c: DoubleClass) -> Option<int> {
    match c {
        DoubleClass::Finite { negative, mantissa, exponent } => {
            let mag: int = if exponent >= 0 {
                mantissa * pow2(exponent as nat)
            } else {
                (mantissa as int) / (pow2((-exponent) as nat) as int)
            };
            if exponent >= 0 || (mantissa as int) % (pow2((-exponent) as nat) as int) == 0 {
                Some(if negative { -mag } else { mag })
            } else {
                None
            }
        },
        _ => None,
    }
}

/// An integer clamped to the range of `i64` (the saturating conversion).
pub open spec fn saturate(v: int) -> int {
    if v > i64::MAX {
        i64::MAX as int
    } else if v < i64::MIN {
        i64::MIN as int
    } else {
        v
    }
}

/// Whether the double is below the integer `x`.
pub open spec fn double_lt(c: DoubleClass, x: int) -> bool {
    match c {
        DoubleClass::Finite { negative, mantissa, exponent } => {
            let s: int = if negative { -1 } else { 1 };
            if exponent >= 0 {
                s * (mantissa * pow2(exponent as nat)) < x
            } else {
                s * mantissa < x * pow2((-exponent) as nat)
            }
        },
        DoubleClass::Infinite { negative } => negative,
        DoubleClass::NotANumber => false,
    }
}

/// Whether the double is above the integer `x`.
pub open spec fn double_gt(c: DoubleClass, x: int) -> bool {
    match c {
        DoubleClass::Finite { negative, mantissa, exponent } => {
            let s: int = if negative { -1 } else { 1 };
            if exponent >= 0 {
                s * (mantissa * pow2(exponent as nat)) > x
            } else {
                s * mantissa > x * pow2((-exponent) as nat)
            }
        },
        DoubleClass::Infinite { negative } => !negative,
        DoubleClass::NotANumber => false,
    }
}

/// 2 to the power `e`, for small `e`.
fn pow2_u128(e: u32) -> (r: u128)
    requires
        e < 127,
    ensures
        r == pow2(e as nat),
{
    let mut r: u128 = 1;
    let mut i: u32 = 0;
    proof {
        lemma2_to64();
    }
    while i < e
        invariant
            i <= e < 127,
            r == pow2(i as nat),
        decreases e - i,
    {
        proof {
            lemma2_to64();
            lemma2_to64_rest();
            lemma_pow2_unfold((i + 1) as nat);
            vstd::arithmetic::power2::lemma_pow2_strictly_increases((i + 1) as nat, 127);
            assert(pow2(127) == pow2(63) * pow2(64)) by {
                lemma_pow2_adds(63, 64);
            }
            assert(pow2(63) * pow2(64) <= u128::MAX) by (nonlinear_arith)
                requires
                    pow2(63) == 0x8000000000000000,
                    pow2(64) == 0x10000000000000000,
            ;
        }
        r = r * 2;
        i = i + 1;
    }
    r
}

/// Sign of `a - b`: -1, 0 or 1.
pub open spec fn diff_sign(a: int, b: int) -> int {
    if a < b {
        -1
    } else if a == b {
        0
    } else {
        1
    }
}

/// Compares the magnitude `m * 2^e` with `mx`.
pub open spec fn mag_order(m: int, e: int, mx: int) -> int {
    if e >= 0 {
        diff_sign(m * pow2(e as nat), mx)
    } else {
        diff_sign(m, mx * pow2((-e) as nat))
    }
}

fn mag_compare(m: u64, e: i32, mx: u128) -> (r: i8)
    requires
        0 < m < 2 * hidden_bit(),
        mx <= 0x8000000000000000,
    ensures
        r == mag_order(m as int, e as int, mx as int),
{
    proof {
        lemma2_to64();
        lemma2_to64_rest();
    }
    if e >= 0 {
        if e >= 65 {
            proof {
                vstd::arithmetic::power2::lemma_pow2_strictly_increases(64, e as nat);
                assert(m * pow2(e as nat) >= pow2(e as nat)) by (nonlinear_arith)
                    requires
                        m >= 1,
                ;
            }
            return 1;
        }
        let p = pow2_u128(e as u32);
        proof {
            assert(pow2(e as nat) <= pow2(64)) by {
                if e < 64 {
                    vstd::arithmetic::power2::lemma_pow2_strictly_increases(e as nat, 64);
                }
            }
            assert(m * pow2(e as nat) <= 2 * hidden_bit() * pow2(64)) by (nonlinear_arith)
                requires
                    m < 2 * hidden_bit(),
                    pow2(e as nat) <= pow2(64),
            ;
        }
        let v: u128 = (m as u128) * p;
        if v < mx {
            -1
        } else if v == mx {
            0
        } else {
            1
        }
    } else {
        let s: i64 = -(e as i64);
        if s >= 65 {
            if mx == 0 {
                return 1;
            }
            proof {
                vstd::arithmetic::power2::lemma_pow2_strictly_increases(64, s as nat);
                assert(mx * pow2(s as nat) >= pow2(s as nat)) by (nonlinear_arith)
                    requires
                        mx >= 1,
                ;
            }
            return -1;
        }
        let p = pow2_u128(s as u32);
        proof {
            assert(pow2(s as nat) <= pow2(64)) by {
                if s < 64 {
                    vstd::arithmetic::power2::lemma_pow2_strictly_increases(s as nat, 64);
                }
            }
            assert(mx * pow2(s as nat) <= pow2(63) * pow2(64)) by (nonlinear_arith)
                requires
                    mx <= pow2(63),
                    pow2(s as nat) <= pow2(64),
            ;
            assert(pow2(63) * pow2(64) < u128::MAX) by (nonlinear_arith)
                requires
                    pow2(63) == 0x8000000000000000,
                    pow2(64) == 0x10000000000000000,
            ;
        }
        let w: u128 = mx * p;
        let mm: u128 = m as u128;
        if mm < w {
            -1
        } else if mm == w {
            0
        } else {
            1
        }
    }
}


/// The magnitude of an integer bound.
fn magnitude(x: i128) -> (r: u128)
    requires
        -0x8000000000000000 <= x <= 0x8000000000000000,
    ensures
        r as int == (if x < 0 { -x } else { x as int }),
        r <= 0x8000000000000000,
{
    if x < 0 {
        (-x) as u128
    } else {
        x as u128
    }
}

/// Whether the double with bit pattern `bits` is below `x`.
pub fn float_lt(bits: u64, x: i128) -> (r: bool)
    requires
        -0x8000000000000000 <= x <= 0x8000000000000000,
    ensures
        r == double_lt(classify(bits), x as int),
{
    let c = decode(bits);
    match c {
        DoubleClass::Finite { negative, mantissa, exponent } => {
            proof {
                lemma_pow2_pos(exponent as nat);
                lemma_pow2_pos((-exponent) as nat);
            }
            if mantissa == 0 {
                proof {
                    if exponent < 0 {
                        let p = pow2((-exponent) as nat) as int;
                        assert(x * p > 0 <==> x > 0) by (nonlinear_arith)
                            requires
                                p > 0,
                        ;
                    }
                }
                return x > 0;
            }
            let mx = magnitude(x);
            let o = mag_compare(mantissa, exponent, mx);
            proof {
                let m = mantissa as int;
                let sg: int = if negative { -1 } else { 1 };
                if exponent >= 0 {
                    let p = pow2(exponent as nat) as int;
                    assert(m * p > 0) by (nonlinear_arith)
                        requires
                            m > 0,
                            p > 0,
                    ;
                    assert(sg * (m * p) == if negative { -(m * p) } else { m * p });
                } else {
                    assert(sg * m == if negative { -m } else { m });
                    let p = pow2((-exponent) as nat) as int;
                    assert(x * p == -((-x) * p)) by (nonlinear_arith);
                    assert(x <= 0 ==> x * p <= 0) by (nonlinear_arith)
                        requires
                            p > 0,
                    ;
                    assert(x >= 0 ==> x * p >= 0) by (nonlinear_arith)
                        requires
                            p > 0,
                    ;
                }
            }
            if negative {
                x >= 0 || o > 0
            } else {
                x > 0 && o < 0
            }
        },
        DoubleClass::Infinite { negative } => negative,
        DoubleClass::NotANumber => false,
    }
}

/// Whether the double with bit pattern `bits` is above `x`.
pub fn float_gt(bits: u64, x: i128) -> (r: bool)
    requires
        -0x8000000000000000 <= x <= 0x8000000000000000,
    ensures
        r == double_gt(classify(bits), x as int),
{
    let c = decode(bits);
    match c {
        DoubleClass::Finite { negative, mantissa, exponent } => {
            proof {
                lemma_pow2_pos(exponent as nat);
                lemma_pow2_pos((-exponent) as nat);
            }
            if mantissa == 0 {
                proof {
                    if exponent < 0 {
                        let p = pow2((-exponent) as nat) as int;
                        assert(x * p < 0 <==> x < 0) by (nonlinear_arith)
                            requires
                                p > 0,
                        ;
                    }
                }
                return x < 0;
            }
            let mx = magnitude(x);
            let o = mag_compare(mantissa, exponent, mx);
            proof {
                let m = mantissa as int;
                let sg: int = if negative { -1 } else { 1 };
                if exponent >= 0 {
                    let p = pow2(exponent as nat) as int;
                    assert(m * p > 0) by (nonlinear_arith)
                        requires
                            m > 0,
                            p > 0,
                    ;
                    assert(sg * (m * p) == if negative { -(m * p) } else { m * p });
                } else {
                    assert(sg * m == if negative { -m } else { m });
                    let p = pow2((-exponent) as nat) as int;
                    assert(x * p == -((-x) * p)) by (nonlinear_arith);
                    assert(x <= 0 ==> x * p <= 0) by (nonlinear_arith)
                        requires
                            p > 0,
                    ;
                    assert(x >= 0 ==> x * p >= 0) by (nonlinear_arith)
                        requires
                            p > 0,
                    ;
                }
            }
            if negative {
                x < 0 && o < 0
            } else {
                x < 0 || o > 0
            }
        },
        DoubleClass::Infinite { negative } => !negative,
        DoubleClass::NotANumber => false,
    }
}

/// The saturating `i64` conversion of a double that has no fractional part,
/// or `None` when it has one (or is not finite).
pub fn float_integral(bits: u64) -> (r: Option<i64>)
    ensures
        match integral_value(classify(bits)) {
            Some(v) => r == Some(saturate(v) as i64),
            None => r is None,
        },
{
    let c = decode(bits);
    proof {
        lemma2_to64();
        lemma2_to64_rest();
    }
    match c {
        DoubleClass::Finite { negative, mantissa, exponent } => {
            proof {
                lemma_pow2_pos(exponent as nat);
                lemma_pow2_pos((-exponent) as nat);
            }
            if exponent >= 0 {
                let ghost p = pow2(exponent as nat) as int;
                if exponent >= 11 {
                    proof {
                        if exponent > 11 {
                            vstd::arithmetic::power2::lemma_pow2_strictly_increases(
                                11,
                                exponent as nat,
                            );
                        }
                        assert(mantissa * p >= hidden_bit() * 2048) by (nonlinear_arith)
                            requires
                                mantissa >= hidden_bit(),
                                p >= 2048,
                        ;
                    }
                    return if negative { Some(i64::MIN) } else { Some(i64::MAX) };
                }
                let q = pow2_u128(exponent as u32);
                proof {
                    if exponent < 10 {
                        vstd::arithmetic::power2::lemma_pow2_strictly_increases(exponent as nat, 10);
                    }
                    assert(mantissa * p < 2 * hidden_bit() * 1024) by (nonlinear_arith)
                        requires
                            mantissa < 2 * hidden_bit(),
                            p <= 1024,
                            p > 0,
                    ;
                }
                let v: u128 = (mantissa as u128) * q;
                let w: i64 = v as i64;
                if negative {
                    Some(-w)
                } else {
                    Some(w)
                }
            } else {
                let s: i64 = -(exponent as i64);
                let ghost p = pow2(s as nat) as int;
                if s >= 64 {
                    if mantissa == 0 {
                        return Some(0);
                    }
                    proof {
                        vstd::arithmetic::power2::lemma_pow2_strictly_increases(53, s as nat);
                        assert((mantissa as int) % p == mantissa as int) by (nonlinear_arith)
                            requires
                                0 < mantissa < p,
                        ;
                    }
                    return None;
                }
                let q = pow2_u128(s as u32);
                let mq: u128 = mantissa as u128;
                if mq % q == 0 {
                    proof {
                        assert((mantissa as int) / p <= mantissa as int) by (nonlinear_arith)
                            requires
                                p > 0,
                                mantissa >= 0,
                        ;
                    }
                    let w: i64 = (mq / q) as i64;
                    if negative {
                        Some(-w)
                    } else {
                        Some(w)
                    }
                } else {
                    None
                }
            }
        },
        _ => None,
    }
}


/// How many low bits must be dropped for `n` to fit in 53 bits.
pub open spec fn excess_bits(n: nat) -> nat
    decreases n,
{
    if n < 2 * hidden_bit() {
        0
    } else {
        1 + excess_bits(n / 2)
    }
}

/// `n` rounded to the nearest double (ties to an even mantissa).
pub open spec fn round_nat(n: nat) -> nat {
    let k = excess_bits(n);
    if k == 0 {
        n
    } else {
        let p = pow2(k);
        let q = n / p;
        let r = n % p;
        let h = p / 2;
        if r > h || (r == h && q % 2 == 1) {
            (q + 1) * p
        } else {
            q * p
        }
    }
}

/// The integer value of the double nearest to `x` (what `x as f64` gives).
pub open spec fn round_to_double(x: int) -> int {
    if x < 0 {
        -(round_nat((-x) as nat) as int)
    } else {
        round_nat(x as nat) as int
    }
}

/// Splits `n` into `(k, n / 2^k)` with `k = excess_bits(n)`.
fn split_excess(n: u128) -> (r: (u32, u128))
    requires
        n <= 0x8000000000000000,
    ensures
        r.0 == excess_bits(n as nat),
        r.0 <= 11,
        r.1 as int == (n as int) / (pow2(r.0 as nat) as int),
        r.1 < 2 * hidden_bit(),
        r.0 >= 1 ==> r.1 >= hidden_bit(),
        r.1 * pow2(r.0 as nat) <= n,
{
    let mut k: u32 = 0;
    let mut t: u128 = n;
    proof {
        lemma2_to64();
        lemma2_to64_rest();
    }
    while t >= 9007199254740992u128
        invariant
            t as int == (n as int) / (pow2(k as nat) as int),
            excess_bits(n as nat) == k + excess_bits(t as nat),
            n <= 0x8000000000000000,
            t * pow2(k as nat) <= n,
            k <= 11,
            k >= 1 ==> t >= hidden_bit(),
        decreases t,
    {
        proof {
            lemma2_to64();
            lemma2_to64_rest();
            lemma_pow2_pos(k as nat);
            vstd::arithmetic::div_mod::lemma_div_denominator(n as int, pow2(k as nat) as int, 2);
            lemma_pow2_unfold((k + 1) as nat);
            assert(pow2(k as nat) * 2 == pow2((k + 1) as nat));
            if k >= 11 {
                assert(pow2(k as nat) >= 2048) by {
                    if k > 11 {
                        vstd::arithmetic::power2::lemma_pow2_strictly_increases(11, k as nat);
                    }
                }
                assert(t * pow2(k as nat) >= 9007199254740992 * 2048) by (nonlinear_arith)
                    requires
                        t >= 9007199254740992,
                        pow2(k as nat) >= 2048,
                ;
            }
            assert((t / 2) * pow2((k + 1) as nat) <= t * pow2(k as nat)) by (nonlinear_arith)
                requires
                    pow2((k + 1) as nat) == pow2(k as nat) * 2,
                    t >= 0,
                    pow2(k as nat) > 0,
            ;
        }
        t = t / 2;
        k = k + 1;
    }
    (k, t)
}

/// The double nearest to `x`, as an exact integer.
pub fn i64_to_double(x: i64) -> (r: i128)
    ensures
        r == round_to_double(x as int),
        -0x8000000000000000 <= r <= 0x8000000000000000,
{
    let n: u128 = if x < 0 {
        (-(x as i128)) as u128
    } else {
        x as u128
    };
    let (k, q) = split_excess(n);
    let rounded: u128 = if k == 0 {
        n
    } else {
        let p = pow2_u128(k);
        proof {
            lemma_pow2_pos(k as nat);
            vstd::arithmetic::div_mod::lemma_fundamental_div_mod(n as int, p as int);
            lemma2_to64();
            lemma2_to64_rest();
            if k < 11 {
                vstd::arithmetic::power2::lemma_pow2_strictly_increases(k as nat, 11);
            }
            assert(q * p <= n) by (nonlinear_arith)
                requires
                    n == p * q + n % p,
                    n % p >= 0,
            ;
            assert((q + 1) * p <= 0x8000000000000000 + 2048) by (nonlinear_arith)
                requires
                    q * p <= n,
                    n <= 0x8000000000000000,
                    p <= 2048,
            ;
        }
        let rem = n - q * p;
        proof {
            assert(p * q == q * p) by (nonlinear_arith);
            assert(rem as int == (n as int) % (p as int));
            assert(excess_bits(n as nat) == k);
        }
        let h = p / 2;
        if rem > h || (rem == h && q % 2 == 1) {
            proof {
                if k == 11 {
                    assert(q * p >= hidden_bit() * 2048) by (nonlinear_arith)
                        requires
                            q >= hidden_bit(),
                            p == 2048,
                    ;
                    assert(rem == 0);
                }
                assert(p <= 1024);
                assert((q + 1) * p <= 2 * hidden_bit() * 1024) by (nonlinear_arith)
                    requires
                        q + 1 <= 2 * hidden_bit(),
                        p <= 1024,
                ;
            }
            (q + 1) * p
        } else {
            q * p
        }
    };
    assert(rounded == round_nat(n as nat));
    if x < 0 {
        -(rounded as i128)
    } else {
        rounded as i128
    }
}


/// Ten to the power `t`.
pub open spec fn pow10(t: nat) -> nat
    decreases t,
{
    if t == 0 {
        1
    } else {
        10 * pow10((t - 1) as nat)
    }
}

/// Whether `y` lies in the rounding window `lo..hi` (bounds included when
/// `inclusive`).
pub open spec fn in_window(y: int, lo: int, hi: int, inclusive: bool) -> bool {
    if inclusive {
        lo <= y <= hi
    } else {
        lo < y < hi
    }
}

/// Searching from `10^t` down, the first power of ten with a multiple in the
/// window, and which multiple (the one nearer `n`; halfway goes up).
pub open spec fn shortest_search(n: nat, lo: int, hi: int, inclusive: bool, t: nat) -> (nat, nat)
    decreases t,
{
    let p = pow10(t);
    let d = n / p;
    let a: int = (d * p) as int;
    let b: int = ((d + 1) * p) as int;
    let ina = in_window(a, lo, hi, inclusive);
    let inb = in_window(b, lo, hi, inclusive);
    if ina && inb {
        (if n - a < b - n { d } else { (d + 1) as nat }, t)
    } else if ina {
        (d, t)
    } else if inb {
        ((d + 1) as nat, t)
    } else if t == 0 {
        (n, 0)
    } else {
        shortest_search(n, lo, hi, inclusive, (t - 1) as nat)
    }
}

/// `t` zero digits.
pub open spec fn zeros(t: nat) -> Seq<char> {
    Seq::new(t, |i: int| '0')
}

/// The shortest decimal text that reads back as the double equal to the
/// natural number `n`: the exact digits up to 2^53, otherwise the fewest
/// significant digits inside the double's rounding window, padded with
/// zeros.
pub open spec fn double_text_nat(n: nat) -> Seq<char> {
    if n <= 2 * hidden_bit() {
        decimal(n)
    } else {
        let k = excess_bits(n);
        let p = pow2(k);
        let m = n / p;
        let lo: int = n - (if m == hidden_bit() { p / 4 } else { p / 2 });
        let hi: int = (n + p / 2) as int;
        let (c, t) = shortest_search(n, lo, hi, m % 2 == 0, 19);
        decimal(c) + zeros(t)
    }
}

/// The display text of the double whose value is the integer `v`.
pub open spec fn double_text(v: int) -> Seq<char> {
    if v < 0 {
        seq!['-'] + double_text_nat((-v) as nat)
    } else {
        double_text_nat(v as nat)
    }
}

proof fn lemma_pow10_pos(t: nat)
    ensures
        pow10(t) >= 1,
    decreases t,
{
    if t > 0 {
        lemma_pow10_pos((t - 1) as nat);
    }
}

proof fn lemma_pow10_mono(t: nat, u: nat)
    requires
        t <= u,
    ensures
        1 <= pow10(t) <= pow10(u),
    decreases u,
{
    if u > t {
        lemma_pow10_mono(t, (u - 1) as nat);
    } else {
        lemma_pow10_pos(t);
    }
}

proof fn lemma_pow10_bounds(t: nat)
    requires
        t <= 19,
    ensures
        1 <= pow10(t) <= 10000000000000000000,
        t > 0 ==> pow10(t) == 10 * pow10((t - 1) as nat),
{
    lemma_pow10_mono(t, 19);
    reveal_with_fuel(pow10, 20);
}

/// The display text of the double whose value is the integer `v`.
pub fn double_text_of(v: i128) -> (r: String)
    requires
        -0x8000000000000000 <= v <= 0x8000000000000000,
    ensures
        r@ == double_text(v as int),
{
    let mut out = String::new();
    let n: u128 = if v < 0 {
        push_char(&mut out, '-');
        (-v) as u128
    } else {
        v as u128
    };
    let ghost start = out@;
    if n <= 9007199254740992u128 {
        push_decimal(&mut out, n as u64);
        return out;
    }
    let (k, m) = split_excess(n);
    let p = pow2_u128(k);
    proof {
        lemma_pow2_pos(k as nat);
        lemma2_to64();
        if k < 11 {
            vstd::arithmetic::power2::lemma_pow2_strictly_increases(k as nat, 11);
        }
    }
    let lo: u128 = n - (if m == 4503599627370496u128 { p / 4 } else { p / 2 });
    let hi: u128 = n + p / 2;
    let inclusive = m % 2 == 0;
    let mut t: u32 = 19;
    let mut pt: u128 = 10000000000000000000u128;
    proof {
        reveal_with_fuel(pow10, 20);
    }
    let mut found: Option<(u128, u32)> = None;
    while found.is_none()
        invariant_except_break
            t <= 19,
            pt == pow10(t as nat),
            found is None ==> shortest_search(n as nat, lo as int, hi as int, inclusive, 19)
                == shortest_search(n as nat, lo as int, hi as int, inclusive, t as nat),
            n <= 0x8000000000000000,
            lo <= n <= hi,
            found matches Some((c, tt)) ==> shortest_search(
                n as nat,
                lo as int,
                hi as int,
                inclusive,
                19,
            ) == (c as nat, tt as nat) && c <= n + 1,
        ensures
            found matches Some((c, tt)) ==> shortest_search(
                n as nat,
                lo as int,
                hi as int,
                inclusive,
                19,
            ) == (c as nat, tt as nat) && c <= n + 1,
            found is Some,
        decreases (t as int) * 2 + (if found is None { 1int } else { 0int }),
    {
        proof {
            lemma_pow10_bounds(t as nat);
        }
        let d = n / pt;
        proof {
            assert(d * pt <= n) by (nonlinear_arith)
                requires
                    d == n / pt,
                    pt > 0,
            ;
            assert(d <= n) by (nonlinear_arith)
                requires
                    d == n / pt,
                    pt >= 1,
            ;
            assert((d + 1) * pt == d * pt + pt) by (nonlinear_arith);
            assert(n < (d + 1) * pt) by (nonlinear_arith)
                requires
                    d == n / pt,
                    pt > 0,
            ;
        }
        let a = d * pt;
        let b = a + pt;
        let ina = if inclusive { lo <= a && a <= hi } else { lo < a && a < hi };
        let inb = if inclusive { lo <= b && b <= hi } else { lo < b && b < hi };
        if ina && inb {
            let c = if n - a < b - n { d } else { d + 1 };
            found = Some((c, t));
        } else if ina {
            found = Some((d, t));
        } else if inb {
            found = Some((d + 1, t));
        } else if t == 0 {
            found = Some((n, 0));
        } else {
            t = t - 1;
            pt = pt / 10;
        }
    }
    match found {
        Some((c, tt)) => {
            push_decimal(&mut out, c as u64);
            let mut j: u32 = 0;
            let ghost digits = out@;
            while j < tt
                invariant
                    j <= tt,
                    out@ == digits + zeros(j as nat),
                decreases tt - j,
            {
                push_char(&mut out, '0');
                j = j + 1;
                assert(out@ =~= digits + zeros(j as nat));
            }
            assert(double_text_nat(n as nat) == decimal(c as nat) + zeros(tt as nat));
        },
        None => {},
    }
    out
}

} // verus!
