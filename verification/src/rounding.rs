//! Rounding of exact magnitudes to binary floating-point codes.
//!
//! A finite value of a binary format is a whole number of the format's
//! smallest positive value, its *unit*. A magnitude is therefore written as a
//! fraction `a / b` of units. The *code* of a magnitude is the bit pattern
//! below the sign bit; codes of growing magnitudes grow.

use crate::binary;
use vstd::arithmetic::div_mod::*;
use vstd::arithmetic::mul::*;
use vstd::arithmetic::power2::*;
use vstd::prelude::*;

verus! {

/// The two binary interchange formats that audio arithmetic uses.
#[derive(Clone, Copy, PartialEq, Eq, Debug, Structural)]
pub enum Width {
    /// 32 bits, 24 of them significant.
    Single,
    /// 64 bits, 53 of them significant.
    Double,
}

/// The number of significant bits.
pub open spec fn precision(w: Width) -> nat {
    match w {
        Width::Single => 24,
        Width::Double => 53,
    }
}

/// One is `2^depth` units.
pub open spec fn depth(w: Width) -> nat {
    match w {
        Width::Single => 149,
        Width::Double => 1074,
    }
}

/// The code of infinity.
pub open spec fn infinity(w: Width) -> nat {
    match w {
        Width::Single => 0x7f80_0000,
        Width::Double => 0x7ff0_0000_0000_0000,
    }
}

/// One past the largest code.
pub open spec fn code_limit(w: Width) -> nat {
    match w {
        Width::Single => 0x8000_0000,
        Width::Double => 0x8000_0000_0000_0000,
    }
}

/// How many units a finite code stands for.
pub open spec fn units(w: Width, code: nat) -> nat {
    let lead = pow2((precision(w) - 1) as nat);
    if code < lead {
        code
    } else {
        (lead + code % lead) * pow2((code / lead - 1) as nat)
    }
}

/// The whole number nearest to `a / b`, the even one of two that are equally
/// near.
pub open spec fn nearest_whole(a: int, b: int) -> int {
    let q = a / b;
    let twice = 2 * (a % b);
    if twice < b {
        q
    } else if twice > b {
        q + 1
    } else {
        q + q % 2
    }
}

/// How many low bits a magnitude of `n` whole units has too many for the
/// format.
pub open spec fn excess(w: Width, n: nat) -> nat {
    if binary::bit_length(n) > precision(w) {
        (binary::bit_length(n) - precision(w)) as nat
    } else {
        0
    }
}

/// The code of the format's value nearest to `a / b` units: ties go to the
/// value with an even significand, and what is too large becomes infinity.
pub open spec fn nearest(w: Width, a: nat, b: nat) -> nat {
    let u = excess(w, a / b);
    let code = u * pow2((precision(w) - 1) as nat) + nearest_whole(a as int, (b * pow2(u)) as int);
    if code < infinity(w) {
        code as nat
    } else {
        infinity(w)
    }
}

/// `a / b` lies in `[m, m + 1)` steps of `2^e` units, at the lower end exactly
/// if `rest` is false.
pub open spec fn brackets(a: nat, b: nat, m: nat, e: int, rest: bool) -> bool {
    let num = if e >= 0 {
        a as int
    } else {
        (a * pow2((-e) as nat)) as int
    };
    let den = if e >= 0 {
        (b * pow2(e as nat)) as int
    } else {
        b as int
    };
    &&& b > 0
    &&& m * den <= num < (m + 1) * den
    &&& rest <==> num != m * den
}

/// `m` without its lowest `s` bits, rounded to nearest, where `rest` tells
/// that the true value lies above `m`.
spec fn dropped(m: int, s: nat, rest: bool) -> int {
    let scale = pow2(s) as int;
    let q = m / scale;
    let low = m % scale;
    if 2 * low < scale {
        q
    } else if 2 * low > scale || rest {
        q + 1
    } else {
        q + q % 2
    }
}

/// Rounding a fraction whose whole part is `m`, dropping `s` bits of it, looks
/// only at those bits and at whether anything was left over below `m`.
proof fn lemma_nearest_whole_dropped(num: int, den: int, m: int, s: nat, rest: bool)
    requires
        den > 0,
        0 <= m,
        m * den <= num < (m + 1) * den,
        rest <==> num != m * den,
        rest ==> s >= 1,
    ensures
        nearest_whole(num, den * pow2(s)) == dropped(m, s, rest),
{
    let scale = pow2(s) as int;
    lemma_pow2_pos(s);
    let q = m / scale;
    let low = m % scale;
    let r = num - m * den;
    let d = den * scale;
    lemma_fundamental_div_mod(m, scale);
    assert(m == scale * q + low);
    let rem = low * den + r;
    assert(0 <= r < den) by (nonlinear_arith)
        requires
            r == num - m * den,
            m * den <= num < (m + 1) * den,
    ;
    assert(d > 0) by (nonlinear_arith)
        requires
            den > 0,
            scale > 0,
            d == den * scale,
    ;
    assert(num == q * d + rem) by (nonlinear_arith)
        requires
            m == scale * q + low,
            r == num - m * den,
            d == den * scale,
            rem == low * den + r,
    ;
    assert(0 <= rem < d) by (nonlinear_arith)
        requires
            0 <= low < scale,
            0 <= r < den,
            d == den * scale,
            rem == low * den + r,
    ;
    lemma_fundamental_div_mod_converse(num, d, q, rem);
    assert(num / d == q && num % d == rem);
    if s >= 1 {
        lemma_pow2_unfold(s);
        let half = pow2((s - 1) as nat) as int;
        assert(scale == 2 * half);
        if 2 * low < scale {
            assert(2 * rem < d) by (nonlinear_arith)
                requires
                    low + 1 <= half,
                    scale == 2 * half,
                    0 <= r < den,
                    d == den * scale,
                    rem == low * den + r,
            ;
        } else if 2 * low > scale {
            assert(2 * rem > d) by (nonlinear_arith)
                requires
                    low >= half + 1,
                    scale == 2 * half,
                    0 <= r < den,
                    d == den * scale,
                    rem == low * den + r,
            ;
        } else {
            assert(2 * rem == d + 2 * r) by (nonlinear_arith)
                requires
                    low == half,
                    scale == 2 * half,
                    d == den * scale,
                    rem == low * den + r,
            ;
        }
    } else {
        lemma2_to64();
        assert(scale == 1 && low == 0 && r == 0);
        assert(rem == 0) by (nonlinear_arith)
            requires
                low == 0,
                r == 0,
                rem == low * den + r,
        ;
    }
}

/// A fraction that divides out is rounded to its quotient.
proof fn lemma_nearest_whole_exact(b: int, q: int)
    requires
        b > 0,
    ensures
        nearest_whole(q * b, b) == q,
{
    lemma_fundamental_div_mod_converse(q * b, b, q, 0);
}

/// Scaling both sides of a fraction changes nothing.
proof fn lemma_nearest_whole_scaled(a: int, b: int, k: int)
    requires
        b > 0,
        k > 0,
    ensures
        nearest_whole(a * k, b * k) == nearest_whole(a, b),
{
    let q = a / b;
    let r = a % b;
    lemma_fundamental_div_mod(a, b);
    assert(a * k == q * (b * k) + r * k) by (nonlinear_arith)
        requires
            a == b * q + r,
    ;
    assert(0 <= r * k < b * k) by (nonlinear_arith)
        requires
            0 <= r < b,
            k > 0,
    ;
    lemma_fundamental_div_mod_converse(a * k, b * k, q, r * k);
    if 2 * r < b {
        assert(2 * (r * k) < b * k) by (nonlinear_arith)
            requires
                2 * r < b,
                k > 0,
        ;
    } else if 2 * r > b {
        assert(2 * (r * k) > b * k) by (nonlinear_arith)
            requires
                2 * r > b,
                k > 0,
        ;
    } else {
        assert(2 * (r * k) == b * k) by (nonlinear_arith)
            requires
                2 * r == b,
        ;
    }
}

/// The bit length of the whole part of a bracketed fraction.
proof fn lemma_bracket_length(a: nat, b: nat, m: nat, e: int, rest: bool)
    requires
        brackets(a, b, m, e, rest),
        m > 0,
    ensures
        binary::bit_length(a / b) == if binary::bit_length(m) + e > 0 {
            (binary::bit_length(m) + e) as nat
        } else {
            0
        },
{
    let bm = binary::bit_length(m);
    binary::lemma_bit_length_bounds(m);
    lemma_fundamental_div_mod(a as int, b as int);
    lemma_div_pos_is_pos(a as int, b as int);
    if e >= 0 {
        let s = pow2(e as nat) as int;
        lemma_pow2_pos(e as nat);
        let w = a as int / b as int;
        // m * s <= w < (m + 1) * s
        assert(m * s <= w) by (nonlinear_arith)
            requires
                m * (b * s) <= a,
                a == b * w + a as int % b as int,
                (a as int % b as int) < b,
                b > 0,
        ;
        assert(w < (m + 1) * s) by (nonlinear_arith)
            requires
                a < (m + 1) * (b * s),
                a == b * w + a as int % b as int,
                a as int % b as int >= 0,
                b > 0,
        ;
        lemma_pow2_adds(bm, e as nat);
        lemma_pow2_adds((bm - 1) as nat, e as nat);
        let top = pow2(bm) as int;
        let low = pow2((bm - 1) as nat) as int;
        assert(low * s <= m * s && (m + 1) * s <= top * s) by (nonlinear_arith)
            requires
                low <= m < top,
                s > 0,
        ;
        assert((bm - 1) as nat + e as nat == (bm + e - 1) as nat);
        binary::lemma_bit_length_unique(a / b, (bm + e) as nat);
    } else {
        let k = (-e) as nat;
        let s = pow2(k) as int;
        lemma_pow2_pos(k);
        // a * s lies in [m * b, (m + 1) * b), so a / b == m / s
        let q = m as int / s;
        let low = m as int % s;
        lemma_fundamental_div_mod(m as int, s);
        let r = a - q * b;
        assert(0 <= r < b) by (nonlinear_arith)
            requires
                m == s * q + low,
                0 <= low < s,
                m * b <= a * s < (m + 1) * b,
                r == a - q * b,
                s > 0,
                b > 0,
        ;
        lemma_fundamental_div_mod_converse(a as int, b as int, q, r);
        binary::lemma_bit_length_dropped(m, k);
    }
}

/// The number of significant bits.
pub fn precision_of(w: Width) -> (r: u32)
    ensures
        r == precision(w),
{
    match w {
        Width::Single => 24,
        Width::Double => 53,
    }
}

/// One is two to this power units.
pub fn depth_of(w: Width) -> (r: u32)
    ensures
        r == depth(w),
{
    match w {
        Width::Single => 149,
        Width::Double => 1074,
    }
}

/// The code of infinity.
pub fn infinity_of(w: Width) -> (r: u64)
    ensures
        r == infinity(w),
{
    match w {
        Width::Single => 0x7f80_0000,
        Width::Double => 0x7ff0_0000_0000_0000,
    }
}

/// Rounding a bracketed magnitude at a step no coarser than the bracket's is
/// exact.
proof fn lemma_round_finer(a: nat, b: nat, m: nat, e: int, u: nat)
    requires
        brackets(a, b, m, e, false),
        u <= e,
    ensures
        nearest_whole(a as int, (b * pow2(u)) as int) == m * pow2((e - u) as nat),
{
    let k = (e - u) as nat;
    let scale = pow2(k);
    lemma_pow2_adds(u, k);
    assert(e as nat == u + k);
    let bu = b * pow2(u);
    lemma_pow2_pos(u);
    lemma_mul_strictly_positive(b as int, pow2(u) as int);
    assert(a == (m * scale) * bu) by (nonlinear_arith)
        requires
            a == m * (b * pow2(e as nat)),
            pow2(e as nat) == pow2(u) * scale,
            bu == b * pow2(u),
    ;
    lemma_nearest_whole_exact(bu as int, (m * scale) as int);
}

/// Rounding a bracketed magnitude at a coarser step drops bits of the
/// bracket's multiple.
proof fn lemma_round_coarser(a: nat, b: nat, m: nat, e: int, rest: bool, u: nat)
    requires
        brackets(a, b, m, e, rest),
        u > e,
    ensures
        nearest_whole(a as int, (b * pow2(u)) as int) == dropped(m as int, (u - e) as nat, rest),
{
    let s = (u - e) as nat;
    let scale = pow2(s) as int;
    lemma_pow2_pos(s);
    lemma_pow2_pos(u);
    lemma_mul_strictly_positive(b as int, pow2(u) as int);
    if e >= 0 {
        let den = (b * pow2(e as nat)) as int;
        lemma_pow2_pos(e as nat);
        lemma_mul_strictly_positive(b as int, pow2(e as nat) as int);
        lemma_nearest_whole_dropped(a as int, den, m as int, s, rest);
        lemma_pow2_adds(e as nat, s);
        assert(e as nat + s == u);
        assert(den * scale == b * pow2(u)) by (nonlinear_arith)
            requires
                den == b * pow2(e as nat),
                pow2(u) == pow2(e as nat) * scale,
        ;
    } else {
        let k = (-e) as nat;
        let f = pow2(k) as int;
        lemma_pow2_pos(k);
        lemma_nearest_whole_dropped((a * pow2(k)) as int, b as int, m as int, s, rest);
        lemma_pow2_adds(u, k);
        assert(u + k == s);
        assert(b * scale == (b * pow2(u)) * f) by (nonlinear_arith)
            requires
                scale == pow2(u) * f,
        ;
        lemma_nearest_whole_scaled(a as int, (b * pow2(u)) as int, f);
    }
}

/// Nothing rounds to zero units.
proof fn lemma_round_zero(w: Width, a: nat, b: nat, e: int)
    requires
        brackets(a, b, 0, e, false),
    ensures
        nearest(w, a, b) == 0,
{
    if e < 0 && a > 0 {
        lemma_pow2_pos((-e) as nat);
        lemma_mul_strictly_positive(a as int, pow2((-e) as nat) as int);
    }
    assert(a == 0);
    assert(a / b == 0) by {
        lemma_div_of0(b as int);
    }
    assert(binary::bit_length(0) == 0);
    lemma2_to64();
    assert(b * pow2(0) == b);
    lemma_nearest_whole_exact(b as int, 0);
    assert(0 * (b as int) == 0);
    assert(0 * pow2((precision(w) - 1) as nat) == 0);
}

/// A number of at most `p` bits is below `2^p`.
proof fn lemma_short(n: nat, p: nat)
    requires
        binary::bit_length(n) <= p,
    ensures
        n < pow2(p),
{
    binary::lemma_bit_length_bounds(n);
    if binary::bit_length(n) < p {
        lemma_pow2_strictly_increases(binary::bit_length(n), p);
    }
}

/// A number of at least `2^p` has more than `p` bits.
proof fn lemma_long(n: nat, p: nat)
    requires
        pow2(p) <= n,
    ensures
        binary::bit_length(n) > p,
{
    if binary::bit_length(n) <= p {
        lemma_short(n, p);
    }
}

/// `m` without its lowest `s` bits, rounded to nearest.
fn drop_bits(m: u128, s: u32, rest: bool) -> (r: u128)
    requires
        m < pow2(127),
        s >= 1,
    ensures
        r == dropped(m as int, s as nat, rest),
        r <= m as nat / pow2(s as nat) + 1,
{
    proof {
        lemma_pow2_pos(s as nat);
        lemma_pow2_unfold(128);
        lemma2_to64();
        lemma_pow2_adds(64, 64);
    }
    if s >= 128 {
        proof {
            lemma_pow2_unfold(s as nat);
            if 127 < s - 1 {
                lemma_pow2_strictly_increases(127, (s - 1) as nat);
            }
            lemma_basic_div(m as int, pow2(s as nat) as int);
            lemma_small_mod(m as nat, pow2(s as nat));
        }
        return 0;
    }
    let scale = binary::two_to(s);
    let q = m / scale;
    let low = m % scale;
    let up = scale - low;
    proof {
        lemma_div_nonincreasing(m as int, scale as int);
    }
    if low < up {
        q
    } else if low > up || rest {
        q + 1
    } else {
        q + q % 2
    }
}

/// Rounds the magnitude that lies `m` steps of `2^e` units up, or between that
/// and the next step if `rest` is set, to the nearest code.
pub fn round_code(
    w: Width,
    m: u128,
    e: i32,
    rest: bool,
    Ghost(a): Ghost<nat>,
    Ghost(b): Ghost<nat>,
) -> (code: u64)
    requires
        brackets(a, b, m as nat, e as int, rest),
        m < pow2(127),
        rest ==> m >= pow2(precision(w)),
        -10000 <= e <= 10000,
    ensures
        code == nearest(w, a, b),
        code <= infinity(w),
{
    let p = precision_of(w);
    if m == 0 {
        proof {
            lemma_pow2_pos(precision(w));
            lemma_round_zero(w, a, b, e as int);
        }
        return 0;
    }
    let len = binary::length_of(m);
    proof {
        if len > 127 {
            binary::lemma_bit_length_bounds(m as nat);
            if len > 128 {
                lemma_pow2_strictly_increases(127, (len - 1) as nat);
            }
        }
        if rest {
            lemma_long(m as nat, p as nat);
        }
        lemma_bracket_length(a, b, m as nat, e as int, rest);
    }
    let over: i32 = len as i32 + e - p as i32;
    let u: i32 = if over > 0 {
        over
    } else {
        0
    };
    assert(u == excess(w, a / b));
    let s: i32 = u - e;
    let ghost whole = nearest_whole(a as int, (b * pow2(u as nat)) as int);
    let significand: u128;
    if s <= 0 {
        let scale = binary::two_to((-s) as u32);
        proof {
            lemma_round_finer(a, b, m as nat, e as int, u as nat);
            binary::lemma_bit_length_scaled(m as nat, (-s) as nat);
            lemma_short((m * scale) as nat, p as nat);
            lemma2_to64();
            lemma2_to64_rest();
        }
        significand = m * scale;
    } else {
        proof {
            lemma_round_coarser(a, b, m as nat, e as int, rest, u as nat);
            binary::lemma_bit_length_dropped(m as nat, s as nat);
            lemma_short(m as nat / pow2(s as nat), p as nat);
        }
        significand = drop_bits(m, s as u32, rest);
    }
    let lead = binary::two_to(p - 1);
    proof {
        lemma2_to64();
        lemma2_to64_rest();
        assert(u * lead + significand <= 0xffff_ffff_ffff_ffff_ffff && 0 <= u * lead) by (nonlinear_arith)
            requires
                0 <= u <= 20000,
                0 <= lead <= 0x10_0000_0000_0000,
                significand <= 0x20_0000_0000_0000,
        ;
    }
    let code = u as u128 * lead + significand;
    let top = infinity_of(w);
    if code < top as u128 {
        code as u64
    } else {
        top
    }
}

} // verus!
