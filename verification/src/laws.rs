//! Laws of the rounding: it keeps order, and it changes nothing that the
//! format can hold.

use crate::binary;
use crate::rounding;
use crate::rounding::Width;
use vstd::arithmetic::div_mod::*;
use vstd::arithmetic::mul::*;
use vstd::arithmetic::power2::*;
use vstd::prelude::*;

verus! {

/// The power of two at which significands start.
proof fn lemma_lead(w: Width)
    ensures
        pow2((rounding::precision(w) - 1) as nat) > 0,
        pow2(rounding::precision(w)) == 2 * pow2((rounding::precision(w) - 1) as nat),
        rounding::infinity(w) % pow2((rounding::precision(w) - 1) as nat) == 0,
        rounding::infinity(w) / pow2((rounding::precision(w) - 1) as nat) >= 2,
{
    lemma_pow2_pos((rounding::precision(w) - 1) as nat);
    lemma_pow2_unfold(rounding::precision(w));
    lemma2_to64();
    lemma2_to64_rest();
}

/// The units of a code, by its exponent part and its fraction part.
proof fn lemma_units_parts(w: Width, k: nat, r: nat)
    requires
        r < pow2((rounding::precision(w) - 1) as nat),
    ensures
        rounding::units(w, (k + 1) * pow2((rounding::precision(w) - 1) as nat) + r) == (pow2((rounding::precision(w) - 1) as nat)
            + r) * pow2(k),
{
    lemma_lead(w);
    let lead = pow2((rounding::precision(w) - 1) as nat) as int;
    let c = (k + 1) * lead + r;
    assert(c >= lead) by (nonlinear_arith)
        requires
            c == (k + 1) * lead + r,
            k >= 0,
            lead > 0,
            r >= 0,
    ;
    lemma_fundamental_div_mod_converse(c, lead, (k + 1) as int, r as int);
}

/// The next code up has more units.
proof fn lemma_units_step(w: Width, c: nat)
    ensures
        rounding::units(w, c) < rounding::units(w, c + 1),
{
    lemma_lead(w);
    let lead = pow2((rounding::precision(w) - 1) as nat);
    if c + 1 < lead {
    } else if c + 1 == lead {
        lemma_units_parts(w, 0, 0);
        lemma2_to64();
        assert((0 + 1) * lead + 0 == lead) by (nonlinear_arith);
        assert((lead + 0) * pow2(0) == lead);
    } else {
        let q = c as int / lead as int;
        let r = (c as int % lead as int) as nat;
        lemma_fundamental_div_mod(c as int, lead as int);
        assert(q >= 1) by (nonlinear_arith)
            requires
                c == lead * q + r,
                r < lead,
                c >= lead,
        ;
        let k = (q - 1) as nat;
        let s = pow2(k);
        lemma_pow2_pos(k);
        lemma_mul_is_commutative(lead as int, q);
        lemma_units_parts(w, k, r);
        if r + 1 < lead {
            lemma_units_parts(w, k, r + 1);
            assert((lead + r) * s < (lead + r + 1) * s) by (nonlinear_arith)
                requires
                    s > 0,
            ;
        } else {
            lemma_units_parts(w, k + 1, 0);
            lemma_pow2_unfold(k + 1);
            assert((k + 2) * lead + 0 == (k + 1) * lead + r + 1) by (nonlinear_arith)
                requires
                    r + 1 == lead,
            ;
            assert((lead + r) * s < (lead + 0) * (2 * s)) by (nonlinear_arith)
                requires
                    r + 1 == lead,
                    s > 0,
            ;
        }
    }
}

/// Codes grow with the magnitudes they stand for.
pub proof fn law_codes_keep_order(w: Width, c: nat, d: nat)
    ensures
        c < d <==> rounding::units(w, c) < rounding::units(w, d),
        c == d <==> rounding::units(w, c) == rounding::units(w, d),
    decreases c + d,
{
    if c < d {
        if c + 1 < d {
            law_codes_keep_order(w, c, (d - 1) as nat);
        }
        lemma_units_step(w, (d - 1) as nat);
    } else if d < c {
        if d + 1 < c {
            law_codes_keep_order(w, (c - 1) as nat, d);
        }
        lemma_units_step(w, (c - 1) as nat);
    }
}

/// A value of the format is rounded to itself.
pub proof fn law_rounding_keeps_values(w: Width, c: nat)
    requires
        c < rounding::infinity(w),
    ensures
        rounding::nearest(w, rounding::units(w, c), 1) == c,
{
    lemma_lead(w);
    lemma2_to64();
    let p = rounding::precision(w);
    let lead = pow2((p - 1) as nat);
    let n = rounding::units(w, c);
    assert(n / 1 == n);
    if c < lead {
        binary::lemma_bit_length_bounds(n);
        if binary::bit_length(n) > p {
            lemma_pow2_strictly_increases((p - 1) as nat, (binary::bit_length(n) - 1) as nat);
        }
        assert(1 * pow2(0) == 1);
        assert(0 * lead == 0);
    } else {
        let q = c as int / lead as int;
        let r = c as int % lead as int;
        lemma_fundamental_div_mod(c as int, lead as int);
        assert(q >= 1) by (nonlinear_arith)
            requires
                c == lead * q + r,
                r < lead,
                c >= lead,
        ;
        let k = (q - 1) as nat;
        let m = (lead + r) as nat;
        binary::lemma_bit_length_unique(m, p);
        binary::lemma_bit_length_scaled(m, k);
        lemma_pow2_pos(k);
        assert(1 * pow2(k) == pow2(k));
        lemma_fundamental_div_mod_converse((m * pow2(k)) as int, pow2(k) as int, m as int, 0);
        assert(k * lead + m == c) by (nonlinear_arith)
            requires
                k == q - 1,
                m == lead + r,
                c == lead * q + r,
        ;
    }
}

/// Rounding to a whole number keeps order.
proof fn lemma_nearest_whole_monotone(a: int, b: int, c: int, d: int)
    requires
        b > 0,
        d > 0,
        a * d <= c * b,
    ensures
        a / b <= c / d,
        rounding::nearest_whole(a, b) <= rounding::nearest_whole(c, d),
{
    let (q, r) = (a / b, a % b);
    let (s, t) = (c / d, c % d);
    lemma_fundamental_div_mod(a, b);
    lemma_fundamental_div_mod(c, d);
    assert(q <= s) by (nonlinear_arith)
        requires
            a == b * q + r,
            c == d * s + t,
            0 <= r < b,
            0 <= t < d,
            a * d <= c * b,
    ;
    if q == s {
        assert(r * d <= t * b) by (nonlinear_arith)
            requires
                a == b * q + r,
                c == d * q + t,
                a * d <= c * b,
        ;
        if 2 * r > b {
            assert(2 * t > d) by (nonlinear_arith)
                requires
                    2 * r > b,
                    r * d <= t * b,
                    b > 0,
                    d > 0,
            ;
        } else if 2 * r == b {
            assert(2 * t >= d) by (nonlinear_arith)
                requires
                    2 * r == b,
                    r * d <= t * b,
                    b > 0,
                    d > 0,
            ;
        }
    }
}

/// Bit lengths keep order.
proof fn lemma_bit_length_monotone(m: nat, n: nat)
    requires
        m <= n,
    ensures
        binary::bit_length(m) <= binary::bit_length(n),
{
    binary::lemma_bit_length_bounds(m);
    binary::lemma_bit_length_bounds(n);
    if binary::bit_length(m) > binary::bit_length(n) {
        if binary::bit_length(n) < binary::bit_length(m) - 1 {
            lemma_pow2_strictly_increases(binary::bit_length(n), (binary::bit_length(m) - 1) as nat);
        }
    }
}

/// Where a rounded magnitude lies among the significands.
proof fn lemma_significand_range(w: Width, a: nat, b: nat)
    requires
        b > 0,
    ensures
        ({
            let u = rounding::excess(w, a / b);
            let lead = pow2((rounding::precision(w) - 1) as nat);
            let s = rounding::nearest_whole(a as int, (b * pow2(u)) as int);
            &&& b * pow2(u) > 0
            &&& 0 <= s <= 2 * lead
            &&& u > 0 ==> s >= lead
        }),
{
    lemma_lead(w);
    let u = rounding::excess(w, a / b);
    let lead = pow2((rounding::precision(w) - 1) as nat);
    let g = pow2(u);
    lemma_pow2_pos(u);
    let d = (b * g) as int;
    assert(d > 0) by (nonlinear_arith)
        requires
            b > 0,
            g > 0,
            d == b * g,
    ;
    let n = a / b;
    lemma_div_denominator(a as int, b as int, g as int);
    assert(a as int / d == n as int / g as int);
    binary::lemma_bit_length_dropped(n, u);
    let q = n / g;
    binary::lemma_bit_length_bounds(q);
    let l = binary::bit_length(q);
    assert(l <= rounding::precision(w));
    if l < rounding::precision(w) {
        lemma_pow2_strictly_increases(l, rounding::precision(w));
    }
    assert(q < 2 * lead);
    if u > 0 {
        assert(l == rounding::precision(w));
        assert(q >= lead);
    }
    lemma_fundamental_div_mod(a as int, d);
    assert(a as int / d >= 0);
}

/// A larger magnitude is not rounded to a smaller code.
pub proof fn law_rounding_keeps_order(w: Width, a: nat, b: nat, c: nat, d: nat)
    requires
        b > 0,
        d > 0,
        a * d <= c * b,
    ensures
        rounding::nearest(w, a, b) <= rounding::nearest(w, c, d),
{
    lemma_nearest_whole_monotone(a as int, b as int, c as int, d as int);
    lemma_bit_length_monotone(a / b, c / d);
    let lead = pow2((rounding::precision(w) - 1) as nat) as int;
    let u = rounding::excess(w, a / b);
    let v = rounding::excess(w, c / d);
    lemma_significand_range(w, a, b);
    lemma_significand_range(w, c, d);
    lemma_lead(w);
    let s = rounding::nearest_whole(a as int, (b * pow2(u)) as int);
    let t = rounding::nearest_whole(c as int, (d * pow2(v)) as int);
    if u == v {
        let g = pow2(u) as int;
        lemma_pow2_pos(u);
        assert(a * (d * g) <= c * (b * g)) by (nonlinear_arith)
            requires
                a * d <= c * b,
                g > 0,
        ;
        lemma_nearest_whole_monotone(a as int, b * g, c as int, d * g);
        assert(u * lead + s <= v * lead + t);
    } else {
        assert(u * lead + s <= v * lead + t) by (nonlinear_arith)
            requires
                u + 1 <= v,
                s <= 2 * lead,
                t >= lead,
                lead > 0,
        ;
    }
}

/// A magnitude that does not exceed a value of the format is not rounded above
/// it, and one that is no less is not rounded below it.
pub proof fn law_rounding_respects_values(w: Width, a: nat, b: nat, c: nat)
    requires
        b > 0,
        c < rounding::infinity(w),
    ensures
        a <= rounding::units(w, c) * b ==> rounding::nearest(w, a, b) <= c,
        rounding::units(w, c) * b <= a ==> c <= rounding::nearest(w, a, b),
        rounding::nearest(w, a, b) <= rounding::infinity(w),
{
    lemma_significand_range(w, a, b);
    lemma_lead(w);
    lemma_mul_nonnegative(
        rounding::excess(w, a / b) as int,
        pow2((rounding::precision(w) - 1) as nat) as int,
    );
    law_rounding_keeps_values(w, c);
    if a <= rounding::units(w, c) * b {
        law_rounding_keeps_order(w, a, b, rounding::units(w, c), 1);
    }
    if rounding::units(w, c) * b <= a {
        law_rounding_keeps_order(w, rounding::units(w, c), 1, a, b);
    }
}

/// A short multiple of a power of two is rounded to itself.
pub proof fn law_rounding_keeps_multiples(w: Width, s: nat, k: nat)
    requires
        s < pow2(rounding::precision(w)),
        w is Single ==> k <= 253,
        w is Double ==> k <= 2045,
    ensures
        rounding::nearest(w, s * pow2(k), 1) < rounding::infinity(w),
        rounding::units(w, rounding::nearest(w, s * pow2(k), 1)) == s * pow2(k),
    decreases k,
{
    lemma_lead(w);
    lemma2_to64();
    lemma2_to64_rest();
    let lead = pow2((rounding::precision(w) - 1) as nat);
    if s >= lead {
        let r = (s - lead) as nat;
        let c = (k + 1) * lead + r;
        lemma_units_parts(w, k, r);
        assert(c < rounding::infinity(w)) by {
            let most: nat = match w {
                Width::Single => 255,
                Width::Double => 2047,
            };
            assert(rounding::infinity(w) == most * lead);
            assert((k + 1) * lead + r < most * lead) by (nonlinear_arith)
                requires
                    k + 2 <= most,
                    r < lead,
            ;
        }
        law_rounding_keeps_values(w, c);
    } else if k == 0 {
        assert(s * pow2(0) == s);
        law_rounding_keeps_values(w, s);
    } else {
        lemma_pow2_unfold(k);
        let half = (k - 1) as nat;
        assert(s * pow2(k) == (2 * s) * pow2(half)) by (nonlinear_arith)
            requires
                pow2(k) == 2 * pow2(half),
        ;
        law_rounding_keeps_multiples(w, 2 * s, half);
    }
}

/// How far two whole numbers lie apart.
pub open spec fn distance(x: int, y: int) -> int {
    if x < y {
        y - x
    } else {
        x - y
    }
}

/// No whole number is nearer to `a / d` than the nearest one.
proof fn lemma_nearest_whole_is_nearest(a: int, d: int, t: int)
    requires
        d > 0,
    ensures
        distance(a, rounding::nearest_whole(a, d) * d) <= distance(a, t * d),
{
    let q = a / d;
    let r = a % d;
    lemma_fundamental_div_mod(a, d);
    let s = rounding::nearest_whole(a, d);
    assert((q + 1) * d == q * d + d) by (nonlinear_arith);
    assert(q * d + r == a) by (nonlinear_arith)
        requires
            a == d * q + r,
    ;
    assert(s == q || s == q + 1);
    if t <= q {
        assert(t * d <= q * d) by (nonlinear_arith)
            requires
                t <= q,
                d > 0,
        ;
    } else {
        assert(t * d >= (q + 1) * d) by (nonlinear_arith)
            requires
                t >= q + 1,
                d > 0,
        ;
    }
}

/// The units of a rounded magnitude.
proof fn lemma_rounded_units(w: Width, a: nat, b: nat)
    requires
        b > 0,
        rounding::nearest(w, a, b) < rounding::infinity(w),
    ensures
        ({
            let u = rounding::excess(w, a / b);
            rounding::units(w, rounding::nearest(w, a, b)) == rounding::nearest_whole(
                a as int,
                (b * pow2(u)) as int,
            ) * pow2(u)
        }),
{
    let u = rounding::excess(w, a / b);
    let lead = pow2((rounding::precision(w) - 1) as nat);
    let s = rounding::nearest_whole(a as int, (b * pow2(u)) as int);
    lemma_significand_range(w, a, b);
    lemma_lead(w);
    lemma2_to64();
    let n = rounding::nearest(w, a, b);
    lemma_mul_nonnegative(u as int, lead as int);
    assert(n == u * lead + s);
    if s < lead {
        assert(0 * lead == 0);
        assert(s * pow2(0) == s);
    } else if s < 2 * lead {
        assert(u * lead + s == (u + 1) * lead + (s - lead)) by (nonlinear_arith);
        lemma_units_parts(w, u, (s - lead) as nat);
    } else {
        assert(u * lead + s == (u + 1 + 1) * lead + 0) by (nonlinear_arith)
            requires
                s == 2 * lead,
        ;
        lemma_units_parts(w, u + 1, 0);
        lemma_pow2_unfold(u + 1);
        assert((lead + 0) * (2 * pow2(u)) == (2 * lead) * pow2(u)) by (nonlinear_arith);
    }
}

/// Rounding gives the nearest value: no other lies nearer to `a / b` units.
pub proof fn law_rounding_is_nearest(w: Width, a: nat, b: nat, c: nat)
    requires
        b > 0,
        rounding::nearest(w, a, b) < rounding::infinity(w),
    ensures
        distance(a as int, (rounding::units(w, rounding::nearest(w, a, b)) * b) as int)
            <= distance(a as int, (rounding::units(w, c) * b) as int),
{
    let u = rounding::excess(w, a / b);
    let g = pow2(u) as int;
    let d = (b * pow2(u)) as int;
    let s = rounding::nearest_whole(a as int, d);
    let lead = pow2((rounding::precision(w) - 1) as nat);
    lemma_pow2_pos(u);
    lemma_lead(w);
    lemma_significand_range(w, a, b);
    lemma_rounded_units(w, a, b);
    assert((s * g) * b == s * d) by (nonlinear_arith)
        requires
            d == b * g,
    ;
    let low = ((u + 1) * lead) as nat;
    lemma_units_parts(w, u, 0);
    assert(low + 0 == low);
    if u == 0 || c >= low {
        let t = if c < lead {
            c as int
        } else {
            let q = c as int / lead as int;
            let r = c as int % lead as int;
            lemma_fundamental_div_mod(c as int, lead as int);
            assert(q >= u + 1) by (nonlinear_arith)
                requires
                    c == lead * q + r,
                    r < lead,
                    u == 0 ==> c >= lead,
                    u > 0 ==> c >= (u + 1) * lead,
            ;
            let more = (q - 1 - u) as nat;
            lemma_pow2_adds(more, u);
            assert(more + u == (q - 1) as nat);
            assert((lead + r) * pow2((q - 1) as nat) == ((lead + r) * pow2(more)) * g)
                by (nonlinear_arith)
                requires
                    pow2((q - 1) as nat) == pow2(more) * g,
            ;
            (lead + r) * pow2(more)
        };
        if c < lead {
            assert(u == 0) by {
                if u > 0 {
                    assert((u + 1) * lead >= lead) by (nonlinear_arith)
                        requires
                            u >= 0,
                            lead > 0,
                    ;
                }
            }
            lemma2_to64();
            assert(t * g == t);
        }
        assert(rounding::units(w, c) == t * g);
        assert((t * g) * b == t * d) by (nonlinear_arith)
            requires
                d == b * g,
        ;
        lemma_nearest_whole_is_nearest(a as int, d, t);
    } else {
        law_codes_keep_order(w, c, low);
        let v = rounding::units(w, c) as int;
        assert(v <= lead * g);
        // the magnitude is at least `lead * g` units
        let n = a / b;
        lemma_div_denominator(a as int, b as int, g);
        binary::lemma_bit_length_dropped(n, u);
        binary::lemma_bit_length_bounds(n / pow2(u));
        assert(a as int / d >= lead);
        lemma_fundamental_div_mod(a as int, d);
        let q = a as int / d;
        assert(a >= lead * d) by (nonlinear_arith)
            requires
                a == d * q + a as int % d,
                a as int % d >= 0,
                q >= lead,
                d > 0,
        ;
        assert(v * b <= lead * d) by (nonlinear_arith)
            requires
                v <= lead * g,
                d == b * g,
                b > 0,
        ;
        lemma_nearest_whole_is_nearest(a as int, d, lead as int);
    }
}

/// Rounding moves a magnitude by at most one part in `2^precision` of itself,
/// or by half a unit where that is more.
pub proof fn law_rounding_error(w: Width, a: nat, b: nat)
    requires
        b > 0,
        rounding::nearest(w, a, b) < rounding::infinity(w),
    ensures
        distance(a as int, (rounding::units(w, rounding::nearest(w, a, b)) * b) as int) * pow2(
            rounding::precision(w),
        ) <= a + pow2((rounding::precision(w) - 1) as nat) * b,
{
    let u = rounding::excess(w, a / b);
    let g = pow2(u) as int;
    let d = (b * pow2(u)) as int;
    let s = rounding::nearest_whole(a as int, d);
    let lead = pow2((rounding::precision(w) - 1) as nat) as int;
    lemma_pow2_pos(u);
    lemma_lead(w);
    lemma_significand_range(w, a, b);
    lemma_rounded_units(w, a, b);
    assert((s * g) * b == s * d) by (nonlinear_arith)
        requires
            d == b * g,
    ;
    let off = distance(a as int, s * d);
    let q = a as int / d;
    let r = a as int % d;
    lemma_fundamental_div_mod(a as int, d);
    assert(q * d == d * q && (q + 1) * d == q * d + d) by (nonlinear_arith);
    assert(2 * off <= d) by {
        assert(s == q || s == q + 1);
    }
    if u == 0 {
        lemma2_to64();
        assert(d == b);
        assert(off * (2 * lead) <= lead * b) by (nonlinear_arith)
            requires
                2 * off <= b,
                lead > 0,
        ;
    } else {
        let n = a / b;
        lemma_div_denominator(a as int, b as int, g);
        binary::lemma_bit_length_dropped(n, u);
        binary::lemma_bit_length_bounds(n / pow2(u));
        assert(q >= lead);
        assert(off * (2 * lead) <= a) by (nonlinear_arith)
            requires
                2 * off <= d,
                a == d * q + r,
                r >= 0,
                q >= lead,
                lead > 0,
                d > 0,
        ;
        assert(lead * b >= 0) by (nonlinear_arith)
            requires
                lead > 0,
                b > 0,
        ;
    }
}

/// Zero has the code zero, and the step from a code to the next one up is one
/// unit, doubled with each exponent above the lowest two.
pub proof fn law_units_by_steps(w: Width, c: nat)
    ensures
        rounding::units(w, 0) == 0,
        ({
            let lead = pow2((rounding::precision(w) - 1) as nat);
            rounding::units(w, c + 1) == rounding::units(w, c) + if c < lead {
                1
            } else {
                pow2((c / lead - 1) as nat)
            }
        }),
{
    lemma_lead(w);
    lemma2_to64();
    let lead = pow2((rounding::precision(w) - 1) as nat);
    if c + 1 < lead {
    } else if c + 1 == lead {
        lemma_units_parts(w, 0, 0);
        assert((0 + 1) * lead + 0 == lead) by (nonlinear_arith);
        assert((lead + 0) * pow2(0) == lead);
    } else {
        let q = c as int / lead as int;
        let r = (c as int % lead as int) as nat;
        lemma_fundamental_div_mod(c as int, lead as int);
        assert(q >= 1) by (nonlinear_arith)
            requires
                c == lead * q + r,
                r < lead,
                c >= lead,
        ;
        let k = (q - 1) as nat;
        let s = pow2(k);
        lemma_mul_is_commutative(lead as int, q);
        lemma_units_parts(w, k, r);
        if r + 1 < lead {
            lemma_units_parts(w, k, r + 1);
            assert((lead + r) * s + s == (lead + r + 1) * s) by (nonlinear_arith);
        } else {
            lemma_units_parts(w, k + 1, 0);
            lemma_pow2_unfold(k + 1);
            assert((k + 2) * lead + 0 == (k + 1) * lead + r + 1) by (nonlinear_arith)
                requires
                    r + 1 == lead,
            ;
            assert((lead + r) * s + s == (lead + 0) * (2 * s)) by (nonlinear_arith)
                requires
                    r + 1 == lead,
            ;
        }
    }
}

/// Below the upper of two neighbouring values, a magnitude goes to the nearer.
proof fn lemma_rounding_between(w: Width, a: nat, b: nat, c: nat)
    requires
        b > 0,
        c < rounding::infinity(w),
        rounding::units(w, c) * b <= a < rounding::units(w, c + 1) * b,
    ensures
        ({
            let middle = (rounding::units(w, c) + rounding::units(w, c + 1)) * b;
            rounding::nearest(w, a, b) == if 2 * a < middle {
                c
            } else if 2 * a > middle {
                c + 1
            } else {
                c + c % 2
            }
        }),
{
    lemma_lead(w);
    lemma2_to64();
    lemma2_to64_rest();
    let p = rounding::precision(w);
    let lead = pow2((p - 1) as nat) as int;
    let q = c as int / lead;
    let r = c as int % lead;
    lemma_fundamental_div_mod(c as int, lead);
    assert(c >= lead ==> q >= 1) by (nonlinear_arith)
        requires
            c == lead * q + r,
            r < lead,
            lead > 0,
    ;
    let (k, sig) = if c < lead {
        (0nat, c as int)
    } else {
        ((q - 1) as nat, lead + r)
    };
    let g = pow2(k) as int;
    lemma_pow2_pos(k);
    law_units_by_steps(w, c);
    assert(sig * 1 == sig);
    assert((sig + 1) * g == sig * g + g) by (nonlinear_arith);
    assert(rounding::units(w, c) == sig * g);
    assert(rounding::units(w, c + 1) == (sig + 1) * g);
    assert(sig < 2 * lead);
    // the exponent of the magnitude
    let n = a as int / b as int;
    lemma_fundamental_div_mod(a as int, b as int);
    assert(sig * g <= n < (sig + 1) * g) by (nonlinear_arith)
        requires
            a == b * n + a as int % b as int,
            0 <= a as int % b as int,
            (a as int % b as int) < b,
            (sig * g) * b <= a,
            a < ((sig + 1) * g) * b,
            b > 0,
    ;
    assert(n < (2 * lead) * g) by (nonlinear_arith)
        requires
            n < (sig + 1) * g,
            sig + 1 <= 2 * lead,
            g > 0,
    ;
    lemma_pow2_adds(p, k);
    assert(n < pow2(p + k));
    assert(n >= 0) by (nonlinear_arith)
        requires
            sig * g <= n,
            sig >= 0,
            g > 0,
    ;
    if k > 0 {
        lemma_pow2_adds((p - 1) as nat, k);
        assert(n >= lead * g) by (nonlinear_arith)
            requires
                sig * g <= n,
                sig >= lead,
                g > 0,
        ;
        binary::lemma_bit_length_unique(n as nat, p + k);
    } else {
        binary::lemma_bit_length_bounds(n as nat);
        let l = binary::bit_length(n as nat);
        if l > p {
            if p < l - 1 {
                lemma_pow2_strictly_increases(p, (l - 1) as nat);
            }
        }
    }
    assert(rounding::excess(w, a / b) == k);
    // the significand
    let d = b * g;
    assert(d > 0 && sig * d <= a < (sig + 1) * d) by (nonlinear_arith)
        requires
            (sig * g) * b <= a,
            a < ((sig + 1) * g) * b,
            d == b * g,
            b > 0,
            g > 0,
    ;
    let rest = a - sig * d;
    assert((sig + 1) * d == sig * d + d) by (nonlinear_arith);
    lemma_fundamental_div_mod_converse(a as int, d, sig, rest);
    let middle = (rounding::units(w, c) + rounding::units(w, c + 1)) * b;
    assert(middle == 2 * (sig * d) + d) by (nonlinear_arith)
        requires
            middle == (sig * g + (sig + 1) * g) * b,
            d == b * g,
    ;
    assert(k * lead + sig == c) by (nonlinear_arith)
        requires
            c == lead * q + r,
            k == 0 && sig == c || k == q - 1 && sig == lead + r,
    ;
    let half = lead / 2;
    assert(lead == 2 * half);
    assert(k * lead == 2 * (k * half)) by (nonlinear_arith)
        requires
            lead == 2 * half,
    ;
    assert(sig % 2 == c % 2);
}

/// What lies at or past the value one step above the largest one becomes
/// infinity.
pub proof fn law_rounding_overflows(w: Width, a: nat, b: nat)
    requires
        b > 0,
        rounding::units(w, rounding::infinity(w)) * b <= a,
    ensures
        rounding::nearest(w, a, b) == rounding::infinity(w),
{
    let top = rounding::infinity(w);
    let last = (top - 1) as nat;
    let m = rounding::units(w, last) + rounding::units(w, top);
    law_codes_keep_order(w, last, top);
    lemma_rounding_between(w, m, 2, last);
    assert(rounding::nearest(w, m, 2) == top);
    assert(m * b <= a * 2) by (nonlinear_arith)
        requires
            m <= 2 * rounding::units(w, top),
            rounding::units(w, top) * b <= a,
            b > 0,
    ;
    law_rounding_keeps_order(w, m, 2, a, b);
    law_rounding_respects_values(w, a, b, 0);
}

/// Between two neighbouring values a magnitude goes to the nearer, and from the
/// middle to the one with the even code.
pub proof fn law_rounding_between(w: Width, a: nat, b: nat, c: nat)
    requires
        b > 0,
        c < rounding::infinity(w),
        rounding::units(w, c) * b <= a <= rounding::units(w, c + 1) * b,
    ensures
        ({
            let middle = (rounding::units(w, c) + rounding::units(w, c + 1)) * b;
            rounding::nearest(w, a, b) == if 2 * a < middle {
                c
            } else if 2 * a > middle {
                c + 1
            } else {
                c + c % 2
            }
        }),
{
    if a < rounding::units(w, c + 1) * b {
        lemma_rounding_between(w, a, b, c);
    } else {
        law_codes_keep_order(w, c, c + 1);
        let (x, y) = (rounding::units(w, c), rounding::units(w, c + 1));
        assert((x + y) * b < 2 * (y * b)) by (nonlinear_arith)
            requires
                x < y,
                b > 0,
        ;
        if c + 1 < rounding::infinity(w) {
            law_rounding_respects_values(w, a, b, c + 1);
        } else {
            law_rounding_overflows(w, a, b);
        }
    }
}

} // verus!
