//! Arithmetic on binary floating-point numbers, by integers alone.
//!
//! Every operation gives the correctly rounded result of the exact one. A
//! result that is not a number is always the same quiet one, [`nan`].

use crate::binary;
use crate::rounding;
use crate::rounding::Width;
use vstd::arithmetic::div_mod::*;
use vstd::arithmetic::mul::*;
use vstd::arithmetic::power2::*;
use vstd::prelude::*;

verus! {

/// A number of some width: its sign, and the bits below the sign.
#[derive(Clone, Copy, PartialEq, Eq, Debug, Structural)]
pub struct Number {
    pub negative: bool,
    pub code: u64,
}

/// The code fits the width.
pub open spec fn fits(w: Width, x: Number) -> bool {
    x.code < rounding::code_limit(w)
}

pub open spec fn is_nan(w: Width, x: Number) -> bool {
    x.code > rounding::infinity(w)
}

pub open spec fn is_infinite(w: Width, x: Number) -> bool {
    x.code == rounding::infinity(w)
}

pub open spec fn is_finite(w: Width, x: Number) -> bool {
    x.code < rounding::infinity(w)
}

/// How many units a finite number lies from zero.
pub open spec fn magnitude(w: Width, x: Number) -> nat {
    rounding::units(w, x.code as nat)
}

/// A finite number in units, with its sign.
pub open spec fn value(w: Width, x: Number) -> int {
    if x.negative {
        -(magnitude(w, x) as int)
    } else {
        magnitude(w, x) as int
    }
}

/// The quiet number that stands for no value.
pub open spec fn nan(w: Width) -> Number {
    Number {
        negative: false,
        code: match w {
            Width::Single => 0x7fc0_0000,
            Width::Double => 0x7ff8_0000_0000_0000,
        },
    }
}

pub open spec fn infinite(w: Width, negative: bool) -> Number {
    Number { negative, code: rounding::infinity(w) as u64 }
}

pub open spec fn zero(negative: bool) -> Number {
    Number { negative, code: 0 }
}

/// The number nearest to `a / b` units from zero.
pub open spec fn rounded(w: Width, negative: bool, a: nat, b: nat) -> Number {
    Number { negative, code: rounding::nearest(w, a, b) as u64 }
}

/// `x * y`.
pub open spec fn product(w: Width, x: Number, y: Number) -> Number {
    let negative = x.negative != y.negative;
    if is_nan(w, x) || is_nan(w, y) {
        nan(w)
    } else if is_infinite(w, x) || is_infinite(w, y) {
        if x.code == 0 || y.code == 0 {
            nan(w)
        } else {
            infinite(w, negative)
        }
    } else {
        rounded(w, negative, magnitude(w, x) * magnitude(w, y), pow2(rounding::depth(w)))
    }
}

/// `x / y`.
pub open spec fn quotient(w: Width, x: Number, y: Number) -> Number {
    let negative = x.negative != y.negative;
    if is_nan(w, x) || is_nan(w, y) {
        nan(w)
    } else if is_infinite(w, x) {
        if is_infinite(w, y) {
            nan(w)
        } else {
            infinite(w, negative)
        }
    } else if is_infinite(w, y) {
        zero(negative)
    } else if y.code == 0 {
        if x.code == 0 {
            nan(w)
        } else {
            infinite(w, negative)
        }
    } else {
        rounded(w, negative, magnitude(w, x) * pow2(rounding::depth(w)), magnitude(w, y))
    }
}

/// `x + y`. A sum of nothing is a negative zero only if both sides are
/// negative.
pub open spec fn sum(w: Width, x: Number, y: Number) -> Number {
    if is_nan(w, x) || is_nan(w, y) {
        nan(w)
    } else if is_infinite(w, x) {
        if is_infinite(w, y) && x.negative != y.negative {
            nan(w)
        } else {
            x
        }
    } else if is_infinite(w, y) {
        y
    } else {
        let s = value(w, x) + value(w, y);
        if s == 0 {
            zero(x.negative && y.negative)
        } else if s < 0 {
            rounded(w, true, (-s) as nat, 1)
        } else {
            rounded(w, false, s as nat, 1)
        }
    }
}

/// `-x`.
pub open spec fn opposite(x: Number) -> Number {
    Number { negative: !x.negative, code: x.code }
}

/// `x - y`.
pub open spec fn difference(w: Width, x: Number, y: Number) -> Number {
    sum(w, x, opposite(y))
}

/// The number nearest to the whole number `n`.
pub open spec fn whole(w: Width, negative: bool, n: nat) -> Number {
    rounded(w, negative, n * pow2(rounding::depth(w)), 1)
}

/// The whole part of a finite number, without its sign.
pub open spec fn whole_part(w: Width, x: Number) -> nat {
    magnitude(w, x) / pow2(rounding::depth(w))
}

/// A number of single width as one of double width.
pub open spec fn widened(x: Number) -> Number {
    if is_nan(Width::Single, x) {
        nan(Width::Double)
    } else if is_infinite(Width::Single, x) {
        infinite(Width::Double, x.negative)
    } else {
        rounded(Width::Double, x.negative, magnitude(Width::Single, x) * pow2(925), 1)
    }
}

/// The number of single width nearest to one of double width.
pub open spec fn narrowed(x: Number) -> Number {
    if is_nan(Width::Double, x) {
        nan(Width::Single)
    } else if is_infinite(Width::Double, x) {
        infinite(Width::Single, x.negative)
    } else {
        rounded(Width::Single, x.negative, magnitude(Width::Double, x), pow2(925))
    }
}

/// A multiple of a power of two, over another power of two, is a multiple of
/// their ratio.
proof fn lemma_bracket_shifted(m: nat, up: nat, down: nat)
    ensures
        rounding::brackets(m * pow2(up), pow2(down), m, up - down, false),
{
    let e = up - down;
    let (num, den) = if e >= 0 {
        (m * pow2(up), pow2(down) * pow2(e as nat))
    } else {
        (m * pow2(up) * pow2((-e) as nat), pow2(down))
    };
    lemma_pow2_pos(down);
    if e >= 0 {
        lemma_pow2_adds(down, e as nat);
        lemma_pow2_pos(up);
    } else {
        lemma_pow2_adds(up, (-e) as nat);
        lemma_mul_is_associative(m as int, pow2(up) as int, pow2((-e) as nat) as int);
    }
    assert(den > 0);
    assert(num == m * den);
    assert((m + 1) * den == m * den + den) by (nonlinear_arith);
}

/// The quotient of two scaled numbers is bracketed by the quotient of the
/// numbers.
proof fn lemma_bracket_divided(t: nat, d: nat, k: nat, a: nat, b: nat, e: int)
    requires
        d > 0,
        k > 0,
        b > 0,
        e >= 0 ==> a == t * k && b * pow2(e as nat) == d * k,
        e < 0 ==> a * pow2((-e) as nat) == t * k && b == d * k,
    ensures
        rounding::brackets(a, b, t / d, e, t % d != 0),
{
    let m = t as int / d as int;
    let r = t as int % d as int;
    lemma_fundamental_div_mod(t as int, d as int);
    assert(m >= 0) by {
        lemma_div_pos_is_pos(t as int, d as int);
    }
    let num = t * k;
    let den = d * k;
    assert(m * den <= num < (m + 1) * den && (r != 0 <==> num != m * den)) by (nonlinear_arith)
        requires
            t == d * m + r,
            0 <= r < d,
            k > 0,
            num == t * k,
            den == d * k,
    ;
}

/// Adding to a multiple less than one step stays within the step.
proof fn lemma_bracket_nudged(m: nat, e: nat, small: int)
    requires
        -(pow2(e) as int) < small < pow2(e),
        small < 0 ==> m > 0,
    ensures
        small > 0 ==> rounding::brackets((m * pow2(e) + small) as nat, 1, m, e as int, true),
        small == 0 ==> rounding::brackets((m * pow2(e) + small) as nat, 1, m, e as int, false),
        small < 0 ==> rounding::brackets(
            (m * pow2(e) + small) as nat,
            1,
            (m - 1) as nat,
            e as int,
            true,
        ),
{
    let s = pow2(e) as int;
    assert((m + 1) * s == m * s + s) by (nonlinear_arith);
    assert((m - 1) * s == m * s - s) by (nonlinear_arith);
    assert(1 * pow2(e) == pow2(e));
    assert(m * s >= 0) by (nonlinear_arith)
        requires
            m >= 0,
            s >= 0,
    ;
    if small < 0 {
        assert(m * s >= s) by (nonlinear_arith)
            requires
                m >= 1,
                s > 0,
        ;
    }
}

/// Takes a finite code apart into a significand and the power of two that
/// scales it to units.
fn split(w: Width, code: u64) -> (r: (u64, u32))
    requires
        code < rounding::infinity(w),
    ensures
        rounding::units(w, code as nat) == r.0 * pow2(r.1 as nat),
        r.0 < pow2(rounding::precision(w)),
        r.1 <= 2045,
        w is Single ==> r.1 <= 253,
        r.1 > 0 ==> r.0 >= pow2((rounding::precision(w) - 1) as nat),
        r.0 == 0 <==> code == 0,
{
    let p = rounding::precision_of(w);
    let lead = binary::two_to(p - 1) as u64;
    proof {
        lemma2_to64();
        lemma2_to64_rest();
    }
    if code < lead {
        assert(code * pow2(0) == code);
        (code, 0)
    } else {
        proof {
            lemma_fundamental_div_mod(code as int, lead as int);
            let q = code as int / lead as int;
            assert(q >= 1) by (nonlinear_arith)
                requires
                    code == lead * q + code as int % lead as int,
                    (code as int % lead as int) < lead,
                    code >= lead,
                    lead > 0,
            ;
            let most = match w {
                Width::Single => 254int,
                Width::Double => 2046int,
            };
            assert(rounding::infinity(w) == (most + 1) * lead);
            assert(q <= most) by (nonlinear_arith)
                requires
                    code == lead * q + code as int % lead as int,
                    code as int % lead as int >= 0,
                    code < (most + 1) * lead,
                    lead > 0,
            ;
        }
        (lead + code % lead, (code / lead - 1) as u32)
    }
}

/// A significand times a power of two is nothing only if the significand is.
proof fn lemma_units_zero(s: nat, e: nat)
    ensures
        s * pow2(e) == 0 <==> s == 0,
{
    lemma_pow2_pos(e);
    assert(s * pow2(e) == 0 <==> s == 0) by (nonlinear_arith)
        requires
            pow2(e) > 0,
    ;
}

fn nan_of(w: Width) -> (r: Number)
    ensures
        r == nan(w),
{
    match w {
        Width::Single => Number { negative: false, code: 0x7fc0_0000 },
        Width::Double => Number { negative: false, code: 0x7ff8_0000_0000_0000 },
    }
}

/// Both bounds on a product of significands that the rounding needs.
proof fn lemma_significands(w: Width, s: nat, t: nat)
    requires
        s < pow2(rounding::precision(w)),
        t < pow2(rounding::precision(w)),
    ensures
        s * t < pow2(106),
        pow2(106) < pow2(127),
        pow2(127) <= u128::MAX,
        s < pow2(53),
        pow2(53) == 0x20_0000_0000_0000,
{
    lemma2_to64();
    lemma2_to64_rest();
    lemma_pow2_adds(53, 53);
    lemma_pow2_strictly_increases(106, 127);
    lemma_pow2_adds(63, 64);
    assert(s * t < pow2(53) * pow2(53)) by (nonlinear_arith)
        requires
            s < pow2(53),
            t < pow2(53),
    ;
}

/// `x * y`.
pub fn multiply(w: Width, x: Number, y: Number) -> (r: Number)
    requires
        fits(w, x),
        fits(w, y),
    ensures
        r == product(w, x, y),
        fits(w, r),
{
    let top = rounding::infinity_of(w);
    let negative = x.negative != y.negative;
    if x.code > top || y.code > top {
        return nan_of(w);
    }
    if x.code == top || y.code == top {
        if x.code == 0 || y.code == 0 {
            return nan_of(w);
        }
        return Number { negative, code: top };
    }
    let (s, e) = split(w, x.code);
    let (t, f) = split(w, y.code);
    proof {
        lemma_significands(w, s as nat, t as nat);
    }
    let m = s as u128 * t as u128;
    let d = rounding::depth_of(w);
    let ghost a = magnitude(w, x) * magnitude(w, y);
    let ghost b = pow2(d as nat);
    proof {
        lemma_pow2_adds(e as nat, f as nat);
        assert(a == m * pow2((e + f) as nat)) by (nonlinear_arith)
            requires
                a == (s * pow2(e as nat)) * (t * pow2(f as nat)),
                pow2((e + f) as nat) == pow2(e as nat) * pow2(f as nat),
                m == s * t,
        ;
        lemma_bracket_shifted(m as nat, (e + f) as nat, d as nat);
    }
    let code = rounding::round_code(w, m, e as i32 + f as i32 - d as i32, false, Ghost(a), Ghost(b));
    Number { negative, code }
}

/// `x / y`.
pub fn divide(w: Width, x: Number, y: Number) -> (r: Number)
    requires
        fits(w, x),
        fits(w, y),
    ensures
        r == quotient(w, x, y),
        fits(w, r),
{
    let top = rounding::infinity_of(w);
    let negative = x.negative != y.negative;
    if x.code > top || y.code > top {
        return nan_of(w);
    }
    if x.code == top {
        if y.code == top {
            return nan_of(w);
        }
        return Number { negative, code: top };
    }
    if y.code == top {
        return Number { negative, code: 0 };
    }
    if y.code == 0 {
        if x.code == 0 {
            return nan_of(w);
        }
        return Number { negative, code: top };
    }
    let (s, e) = split(w, x.code);
    let (t, f) = split(w, y.code);
    let d = rounding::depth_of(w);
    let ghost a = magnitude(w, x) * pow2(d as nat);
    let ghost b = magnitude(w, y);
    proof {
        lemma_significands(w, s as nat, t as nat);
        lemma_significands(w, t as nat, s as nat);
        lemma_units_zero(t as nat, f as nat);
        lemma_units_zero(s as nat, e as nat);
    }
    if s == 0 {
        proof {
            assert(a == 0) by (nonlinear_arith)
                requires
                    a == magnitude(w, x) * pow2(d as nat),
                    magnitude(w, x) == 0,
            ;
            assert(0 * (b * pow2(0)) == 0);
            lemma2_to64();
            assert(b > 0);
            assert((0 + 1) * (b * pow2(0)) == b) by (nonlinear_arith)
                requires
                    pow2(0) == 1,
            ;
        }
        let code = rounding::round_code(w, 0, 0, false, Ghost(a), Ghost(b));
        return Number { negative, code };
    }
    let len = binary::length_of(s as u128);
    proof {
        binary::lemma_bit_length_bounds(s as nat);
        if len > 53 {
            if len > 54 {
                lemma_pow2_strictly_increases(53, (len - 1) as nat);
            }
        }
        binary::lemma_bit_length_scaled(s as nat, (123 - len) as nat);
        binary::lemma_bit_length_bounds(s as nat * pow2((123 - len) as nat));
        lemma_pow2_strictly_increases(123, 127);
    }
    let lift: u32 = 123 - len;
    let scale = binary::two_to(lift);
    let n = s as u128 * scale;
    let m = n / (t as u128);
    let rest = n % (t as u128) != 0;
    let up: i32 = e as i32 + d as i32 - f as i32 - lift as i32;
    proof {
        // the bracket
        let (e, f, d, l) = (e as nat, f as nat, d as nat, lift as nat);
        lemma_pow2_adds(e, d);
        assert(a == s * pow2(e + d)) by (nonlinear_arith)
            requires
                a == (s * pow2(e)) * pow2(d),
                pow2(e + d) == pow2(e) * pow2(d),
        ;
        if up >= 0 {
            let k = (e + d - l) as nat;
            lemma_pow2_adds(l, k);
            assert(a == n * pow2(k)) by (nonlinear_arith)
                requires
                    a == s * pow2(e + d),
                    pow2(e + d) == scale * pow2(k),
                    n == s * scale,
            ;
            lemma_pow2_adds(f, up as nat);
            assert(f + up as nat == k);
            assert(b * pow2(up as nat) == t * pow2(k)) by (nonlinear_arith)
                requires
                    b == t * pow2(f),
                    pow2(k) == pow2(f) * pow2(up as nat),
            ;
            lemma_pow2_pos(k);
            lemma_bracket_divided(n as nat, t as nat, pow2(k), a, b, up as int);
        } else {
            let g = (-up) as nat;
            lemma_pow2_adds(e + d, g);
            lemma_pow2_adds(l, f);
            assert(e + d + g == l + f);
            assert(a * pow2(g) == n * pow2(f)) by (nonlinear_arith)
                requires
                    a == s * pow2(e + d),
                    pow2(e + d) * pow2(g) == scale * pow2(f),
                    n == s * scale,
            ;
            lemma_pow2_pos(f);
            lemma_bracket_divided(n as nat, t as nat, pow2(f), a, b, up as int);
        }
        // the bounds
        lemma_div_nonincreasing(n as int, t as int);
        lemma_pow2_adds(69, 53);
        lemma_fundamental_div_mod(n as int, t as int);
        let m_int = m as int;
        assert(m_int >= pow2(69)) by (nonlinear_arith)
            requires
                n == t * m_int + n as int % t as int,
                (n as int % t as int) < t,
                n >= pow2(69) * pow2(53),
                0 < t < pow2(53),
        ;
        lemma_pow2_strictly_increases(53, 69);
        lemma2_to64();
    }
    let code = rounding::round_code(w, m, up, rest, Ghost(a), Ghost(b));
    Number { negative, code }
}

/// The sum of two finite magnitudes of which the first has the larger scale.
fn add_scaled(w: Width, x: Number, s: u64, e: u32, y: Number, t: u64, f: u32) -> (r: Number)
    requires
        is_finite(w, x),
        is_finite(w, y),
        magnitude(w, x) == s * pow2(e as nat),
        magnitude(w, y) == t * pow2(f as nat),
        s < pow2(rounding::precision(w)),
        t < pow2(rounding::precision(w)),
        f <= e <= 2045,
        e > 0 ==> s >= pow2((rounding::precision(w) - 1) as nat),
    ensures
        r == sum(w, x, y),
        r.code <= rounding::infinity(w),
{
    let gap = e - f;
    let ghost v = value(w, x) + value(w, y);
    let ghost n = if v < 0 {
        (-v) as nat
    } else {
        v as nat
    };
    proof {
        lemma_significands(w, s as nat, t as nat);
        lemma_significands(w, t as nat, s as nat);
        lemma2_to64();
        lemma2_to64_rest();
    }
    if gap <= 70 {
        let scale = binary::two_to(gap);
        proof {
            lemma_pow2_adds(53, 70);
            lemma_pow2_pos(gap as nat);
            if gap < 70 {
                lemma_pow2_strictly_increases(gap as nat, 70);
            }
            assert(s * scale < pow2(123) && s * scale >= 0) by (nonlinear_arith)
                requires
                    s < pow2(53),
                    0 < scale <= pow2(70),
                    pow2(123) == pow2(53) * pow2(70),
            ;
            lemma_pow2_unfold(124);
            lemma_pow2_strictly_increases(124, 127);
            lemma_pow2_strictly_increases(53, 123);
            lemma_pow2_adds(f as nat, gap as nat);
        }
        let long = s as u128 * scale;
        let short = t as u128;
        let (m, negative) = if x.negative == y.negative {
            (long + short, x.negative)
        } else if long >= short {
            (long - short, x.negative)
        } else {
            (short - long, y.negative)
        };
        proof {
            let unit = pow2(f as nat) as int;
            lemma_pow2_pos(f as nat);
            assert(magnitude(w, x) == long * unit) by (nonlinear_arith)
                requires
                    magnitude(w, x) == s * pow2(e as nat),
                    pow2(e as nat) == unit * scale,
                    long == s * scale,
            ;
            assert((long + short) * unit == long * unit + short * unit) by (nonlinear_arith);
            assert((long - short) * unit == long * unit - short * unit) by (nonlinear_arith);
            assert((short - long) * unit == short * unit - long * unit) by (nonlinear_arith);
            lemma_units_zero(m as nat, f as nat);
            assert(v == if negative {
                -(m * unit)
            } else {
                m * unit
            });
            assert(m * unit >= 0) by (nonlinear_arith)
                requires
                    m >= 0,
                    unit >= 0,
            ;
            assert(n == m * unit);
            lemma_bracket_shifted(m as nat, f as nat, 0);
            lemma_units_zero(s as nat, e as nat);
            lemma_units_zero(t as nat, f as nat);
        }
        if m == 0 {
            return Number { negative: x.negative && y.negative, code: 0 };
        }
        let code = rounding::round_code(w, m, f as i32, false, Ghost(n), Ghost(1));
        Number { negative, code }
    } else {
        let high = s as u128 * 1024;
        let ghost small = if x.negative == y.negative {
            magnitude(w, y) as int
        } else {
            -(magnitude(w, y) as int)
        };
        let step = e - 10;
        proof {
            let unit = pow2(step as nat);
            lemma_pow2_adds(10, step as nat);
            assert(magnitude(w, x) == high * unit) by (nonlinear_arith)
                requires
                    magnitude(w, x) == s * pow2(e as nat),
                    pow2(e as nat) == 1024 * unit,
                    high == s * 1024,
            ;
            // what the other side adds is below one step
            lemma_pow2_adds(53, f as nat);
            lemma_pow2_strictly_increases((53 + f) as nat, step as nat);
            lemma_pow2_pos(f as nat);
            assert(magnitude(w, y) < pow2((53 + f) as nat)) by (nonlinear_arith)
                requires
                    magnitude(w, y) == t * pow2(f as nat),
                    pow2((53 + f) as nat) == pow2(53) * pow2(f as nat),
                    t < pow2(53),
                    pow2(f as nat) > 0,
            ;
            lemma_bracket_nudged(high as nat, step as nat, small);
            assert(high * unit >= unit) by (nonlinear_arith)
                requires
                    high >= 1,
                    unit > 0,
            ;
            assert(n == high * unit + small);
            assert(v != 0);
            assert(x.negative == (v < 0));
            // the bounds
            lemma_pow2_unfold(53);
            lemma_pow2_unfold(24);
            lemma_pow2_strictly_increases(106, 127);
            lemma_pow2_strictly_increases(64, 106);
            lemma_units_zero(t as nat, f as nat);
        }
        if t == 0 {
            let code = rounding::round_code(w, high, step as i32, false, Ghost(n), Ghost(1));
            Number { negative: x.negative, code }
        } else if x.negative == y.negative {
            let code = rounding::round_code(w, high, step as i32, true, Ghost(n), Ghost(1));
            Number { negative: x.negative, code }
        } else {
            let code = rounding::round_code(w, high - 1, step as i32, true, Ghost(n), Ghost(1));
            Number { negative: x.negative, code }
        }
    }
}

/// `x + y`.
pub fn add_numbers(w: Width, x: Number, y: Number) -> (r: Number)
    requires
        fits(w, x),
        fits(w, y),
    ensures
        r == sum(w, x, y),
        fits(w, r),
{
    let top = rounding::infinity_of(w);
    if x.code > top || y.code > top {
        return nan_of(w);
    }
    if x.code == top {
        if y.code == top && x.negative != y.negative {
            return nan_of(w);
        }
        return x;
    }
    if y.code == top {
        return y;
    }
    let (s, e) = split(w, x.code);
    let (t, f) = split(w, y.code);
    if e >= f {
        add_scaled(w, x, s, e, y, t, f)
    } else {
        add_scaled(w, y, t, f, x, s, e)
    }
}

/// `x - y`.
pub fn subtract(w: Width, x: Number, y: Number) -> (r: Number)
    requires
        fits(w, x),
        fits(w, y),
    ensures
        r == difference(w, x, y),
        fits(w, r),
{
    add_numbers(w, x, Number { negative: !y.negative, code: y.code })
}

/// The number nearest to the whole number `n`, with the given sign.
pub fn from_whole(w: Width, negative: bool, n: u64) -> (r: Number)
    ensures
        r == whole(w, negative, n as nat),
        fits(w, r),
{
    let d = rounding::depth_of(w);
    proof {
        lemma_bracket_shifted(n as nat, d as nat, 0);
        lemma2_to64();
        lemma_pow2_strictly_increases(64, 127);
    }
    let code = rounding::round_code(
        w,
        n as u128,
        d as i32,
        false,
        Ghost((n * pow2(d as nat)) as nat),
        Ghost(1),
    );
    Number { negative, code }
}

/// A number of single width as one of double width.
pub fn widen(x: Number) -> (r: Number)
    requires
        fits(Width::Single, x),
    ensures
        r == widened(x),
        fits(Width::Double, r),
{
    let top = rounding::infinity_of(Width::Single);
    if x.code > top {
        return nan_of(Width::Double);
    }
    if x.code == top {
        return Number { negative: x.negative, code: rounding::infinity_of(Width::Double) };
    }
    let (s, e) = split(Width::Single, x.code);
    let ghost a = magnitude(Width::Single, x) * pow2(925);
    proof {
        lemma_significands(Width::Single, s as nat, s as nat);
        lemma_pow2_adds(e as nat, 925);
        lemma_mul_is_associative(s as int, pow2(e as nat) as int, pow2(925) as int);
        lemma_bracket_shifted(s as nat, (e + 925) as nat, 0);
        lemma2_to64();
        lemma_pow2_strictly_increases(53, 127);
    }
    let code = rounding::round_code(
        Width::Double,
        s as u128,
        e as i32 + 925,
        false,
        Ghost(a),
        Ghost(1),
    );
    Number { negative: x.negative, code }
}

/// The number of single width nearest to one of double width.
pub fn narrow(x: Number) -> (r: Number)
    requires
        fits(Width::Double, x),
    ensures
        r == narrowed(x),
        fits(Width::Single, r),
{
    let top = rounding::infinity_of(Width::Double);
    if x.code > top {
        return nan_of(Width::Single);
    }
    if x.code == top {
        return Number { negative: x.negative, code: rounding::infinity_of(Width::Single) };
    }
    let (s, e) = split(Width::Double, x.code);
    let ghost a = magnitude(Width::Double, x);
    proof {
        lemma_significands(Width::Double, s as nat, s as nat);
        lemma_bracket_shifted(s as nat, e as nat, 925);
        lemma_pow2_strictly_increases(53, 127);
    }
    let code = rounding::round_code(
        Width::Single,
        s as u128,
        e as i32 - 925,
        false,
        Ghost(a),
        Ghost(pow2(925)),
    );
    Number { negative: x.negative, code }
}

/// The whole part of a finite number without its sign, or `most` if that is
/// less.
pub fn truncate_to(w: Width, x: Number, most: u64) -> (r: u64)
    requires
        is_finite(w, x),
    ensures
        r == if whole_part(w, x) < most {
            whole_part(w, x)
        } else {
            most as nat
        },
{
    let (s, e) = split(w, x.code);
    let d = rounding::depth_of(w);
    let ghost whole = whole_part(w, x);
    proof {
        lemma_significands(w, s as nat, s as nat);
        lemma2_to64();
        lemma_pow2_pos(d as nat);
    }
    if e >= d {
        let up = e - d;
        proof {
            lemma_pow2_adds(d as nat, up as nat);
            let one = pow2(d as nat) as int;
            let scale = pow2(up as nat) as int;
            lemma_pow2_pos(up as nat);
            assert(magnitude(w, x) == (s * scale) * one) by (nonlinear_arith)
                requires
                    magnitude(w, x) == s * pow2(e as nat),
                    pow2(e as nat) == one * scale,
            ;
            lemma_div_by_multiple(s * scale, one);
            assert(whole == s * scale);
        }
        if up >= 64 {
            proof {
                if s > 0 {
                    if up > 64 {
                        lemma_pow2_strictly_increases(64, up as nat);
                    }
                    assert(s * pow2(up as nat) >= pow2(up as nat)) by (nonlinear_arith)
                        requires
                            s >= 1,
                            pow2(up as nat) > 0,
                    ;
                } else {
                    assert(0 * pow2(up as nat) == 0);
                }
            }
            return if s > 0 {
                most
            } else {
                0
            };
        }
        let scale = binary::two_to(up);
        proof {
            lemma_pow2_strictly_increases(up as nat, 64);
            lemma_pow2_adds(53, 64);
            lemma_pow2_strictly_increases(117, 127);
            assert(s * scale < pow2(117)) by (nonlinear_arith)
                requires
                    s < pow2(53),
                    0 < scale < pow2(64),
                    pow2(117) == pow2(53) * pow2(64),
            ;
        }
        let n = s as u128 * scale;
        if n < most as u128 {
            n as u64
        } else {
            most
        }
    } else {
        let down = d - e;
        proof {
            lemma_pow2_adds(e as nat, down as nat);
            lemma_pow2_pos(e as nat);
            lemma_pow2_pos(down as nat);
            let unit = pow2(e as nat) as int;
            let scale = pow2(down as nat) as int;
            lemma_div_multiples_vanish_quotient(unit, s as int, scale);
            lemma_mul_is_commutative(unit, s as int);
            assert(whole == s as int / scale);
        }
        if down >= 64 {
            proof {
                if down > 64 {
                    lemma_pow2_strictly_increases(64, down as nat);
                }
                lemma_basic_div(s as int, pow2(down as nat) as int);
            }
            return 0;
        }
        let n = s as u128 / binary::two_to(down);
        if n < most as u128 {
            n as u64
        } else {
            most
        }
    }
}

} // verus!
