//! Laws of the interpolation: what is read at a position lies on the straight
//! line between the two samples about it, up to the rounding of the arithmetic.

use crate::laws;
use crate::number;
use crate::number::Number;
use crate::range;
use crate::rounding;
use crate::rounding::Width;
use crate::sample;
use crate::sample::Sample;
use crate::stretch;
use vstd::arithmetic::div_mod::*;
use vstd::arithmetic::power2::*;
use vstd::prelude::*;

verus! {

/// The value of the `j`th sample, in units; past the end, that of the last.
pub open spec fn level(samples: Seq<Sample>, j: int) -> int {
    let k = if j < samples.len() {
        j
    } else {
        samples.len() - 1
    };
    number::value(Width::Single, samples[k].number())
}

/// `den` times the value at the position `num / den` of the line that joins the
/// samples.
pub open spec fn line(samples: Seq<Sample>, num: int, den: int) -> int {
    let j = num / den;
    let part = num % den;
    level(samples, j) * (den - part) + level(samples, j + 1) * part
}

/// No sample lies further from silence than this many units.
pub open spec fn bounded(samples: Seq<Sample>, bound: nat) -> bool {
    forall|j: int|
        0 <= j < samples.len() ==> number::is_finite(
            Width::Single,
            (#[trigger] samples[j]).number(),
        ) && number::magnitude(Width::Single, samples[j].number()) <= bound
}

/// The absolute value.
pub open spec fn size(x: int) -> int {
    if x < 0 {
        -x
    } else {
        x
    }
}

/// A value at the position `num / den` is that of the line, up to one part in
/// `2^20` of the bound, two units, and what a shift of the position by one part
/// in `2^50` makes.
pub open spec fn on_line(
    value: int,
    samples: Seq<Sample>,
    num: int,
    den: int,
    bound: nat,
) -> bool {
    size(value * den - line(samples, num, den)) * 0x2_0000_0000_0000 <= bound * (0x2000_0000 * den
        + num) + 0x4_0000_0000_0000 * den
}

/// The size of a product.
pub(crate) proof fn lemma_size_product(x: int, y: int, p: int, q: int)
    requires
        size(x) <= p,
        size(y) <= q,
    ensures
        size(x * y) <= p * q,
        size(x * y) == size(x) * size(y),
{
    let (a, b) = (size(x), size(y));
    assert(size(x * y) == a * b) by (nonlinear_arith)
        requires
            a == if x < 0 {
                -x
            } else {
                x
            },
            b == if y < 0 {
                -y
            } else {
                y
            },
            size(x * y) == if x * y < 0 {
                -(x * y)
            } else {
                x * y
            },
    ;
    assert(a * b <= p * q) by (nonlinear_arith)
        requires
            0 <= a <= p,
            0 <= b <= q,
    ;
}

/// Every level is within the bound.
proof fn lemma_level(samples: Seq<Sample>, j: int, bound: nat)
    requires
        samples.len() > 0,
        bounded(samples, bound),
        0 <= j,
    ensures
        size(level(samples, j)) <= bound,
{
    let k = if j < samples.len() {
        j
    } else {
        samples.len() - 1
    };
    assert(number::magnitude(Width::Single, samples[k].number()) <= bound);
}

/// A position may be written with any denominator.
proof fn lemma_line_scaled(samples: Seq<Sample>, num: int, den: int, k: int)
    requires
        0 <= num,
        0 < den,
        0 < k,
    ensures
        line(samples, num * k, den * k) == k * line(samples, num, den),
{
    let j = num / den;
    let part = num % den;
    lemma_fundamental_div_mod(num, den);
    assert(num * k == j * (den * k) + part * k && 0 <= part * k < den * k) by (nonlinear_arith)
        requires
            num == den * j + part,
            0 <= part < den,
            k > 0,
    ;
    lemma_fundamental_div_mod_converse(num * k, den * k, j, part * k);
    let (a, b) = (level(samples, j), level(samples, j + 1));
    assert(a * (den * k - part * k) + b * (part * k) == k * (a * (den - part) + b * part))
        by (nonlinear_arith);
}

/// The line stays within the bound.
proof fn lemma_line_bound(samples: Seq<Sample>, num: int, den: int, bound: nat)
    requires
        samples.len() > 0,
        bounded(samples, bound),
        0 <= num,
        0 < den,
    ensures
        size(line(samples, num, den)) <= bound * den,
{
    let j = num / den;
    let part = num % den;
    lemma_fundamental_div_mod(num, den);
    lemma_div_pos_is_pos(num, den);
    let (a, b) = (level(samples, j), level(samples, j + 1));
    lemma_level(samples, j, bound);
    lemma_level(samples, j + 1, bound);
    lemma_size_product(a, den - part, bound as int, den - part);
    lemma_size_product(b, part, bound as int, part);
    assert(bound * (den - part) + bound * part == bound * den) by (nonlinear_arith);
}

/// The line moves by at most twice the bound from one sample to the next.
proof fn lemma_line_moves(samples: Seq<Sample>, u: int, w: int, den: int, bound: nat)
    requires
        samples.len() > 0,
        bounded(samples, bound),
        0 <= u <= w,
        0 < den,
    ensures
        size(line(samples, w, den) - line(samples, u, den)) <= 2 * bound * (w - u),
{
    let step = 2 * bound as int;
    if w - u >= den {
        lemma_line_bound(samples, u, den, bound);
        lemma_line_bound(samples, w, den, bound);
        assert(step * (w - u) >= step * den && step * den == 2 * (bound * den)) by (nonlinear_arith)
            requires
                w - u >= den,
                step == 2 * bound,
                step >= 0,
        ;
    } else {
        let (i, p) = (u / den, u % den);
        let (j, q) = (w / den, w % den);
        lemma_fundamental_div_mod(u, den);
        lemma_fundamental_div_mod(w, den);
        lemma_div_pos_is_pos(u, den);
        let (a, b, c) = (level(samples, i), level(samples, i + 1), level(samples, i + 2));
        lemma_level(samples, i, bound);
        lemma_level(samples, i + 1, bound);
        lemma_level(samples, i + 2, bound);
        assert(j == i || j == i + 1) by (nonlinear_arith)
            requires
                u == den * i + p,
                w == den * j + q,
                0 <= p < den,
                0 <= q < den,
                0 <= w - u < den,
                den > 0,
        ;
        if j == i {
            assert(w - u == q - p) by (nonlinear_arith)
                requires
                    u == den * i + p,
                    w == den * j + q,
                    j == i,
            ;
            assert((a * (den - q) + b * q) - (a * (den - p) + b * p) == (b - a) * (q - p))
                by (nonlinear_arith);
            lemma_size_product(b - a, w - u, step, w - u);
        } else {
            assert(w - u == (den - p) + q) by (nonlinear_arith)
                requires
                    u == den * i + p,
                    w == den * j + q,
                    j == i + 1,
            ;
            assert((b * (den - q) + c * q) - (a * (den - p) + b * p) == (b - a) * (den - p) + (c
                - b) * q) by (nonlinear_arith);
            lemma_size_product(b - a, den - p, step, den - p);
            lemma_size_product(c - b, q, step, q);
            assert(step * (den - p) + step * q == step * ((den - p) + q)) by (nonlinear_arith);
        }
    }
}

/// A product with a number between zero and one is close to the exact one.
proof fn lemma_product_error(x: Number, y: Number, bound: nat)
    requires
        number::is_finite(Width::Single, x),
        number::magnitude(Width::Single, x) <= bound,
        range::within_one(y),
        !y.negative,
    ensures
        ({
            let p = number::product(Width::Single, x, y);
            &&& number::is_finite(Width::Single, p)
            &&& number::magnitude(Width::Single, p) <= bound
            &&& size(
                number::value(Width::Single, p) * pow2(149) - number::value(Width::Single, x)
                    * number::value(Width::Single, y),
            ) * 0x100_0000 <= (bound + 0x80_0000) * pow2(149)
        }),
{
    let one = pow2(149);
    lemma_pow2_pos(149);
    lemma2_to64();
    let (m, n) = (number::magnitude(Width::Single, x), number::magnitude(Width::Single, y));
    assert(m * n <= m * one && m * one <= bound * one) by (nonlinear_arith)
        requires
            0 <= n <= one,
            0 <= m <= bound,
    ;
    laws::law_rounding_respects_values(Width::Single, m * n, one, x.code as nat);
    let p = number::product(Width::Single, x, y);
    laws::law_codes_keep_order(Width::Single, x.code as nat, p.code as nat);
    laws::law_rounding_error(Width::Single, m * n, one);
    let u = number::magnitude(Width::Single, p);
    let off = laws::distance((m * n) as int, (u * one) as int);
    assert(off * 0x100_0000 <= (bound + 0x80_0000) * one) by {
        assert((bound + 0x80_0000) * one == bound * one + 0x80_0000 * one) by (nonlinear_arith);
    }
    if x.negative {
        assert((-(u as int)) * one == -(u * one) && (-(m as int)) * n == -(m * n))
            by (nonlinear_arith);
    }
}

/// A sum is close to the exact one.
proof fn lemma_sum_error(x: Number, y: Number, bound: nat)
    requires
        number::is_finite(Width::Single, x),
        number::is_finite(Width::Single, y),
        number::magnitude(Width::Single, x) <= bound,
        number::magnitude(Width::Single, y) <= bound,
        bound <= pow2(275),
    ensures
        ({
            let r = number::sum(Width::Single, x, y);
            &&& number::is_finite(Width::Single, r)
            &&& size(
                number::value(Width::Single, r) - (number::value(Width::Single, x) + number::value(
                    Width::Single,
                    y,
                )),
            ) * 0x100_0000 <= 2 * bound + 0x80_0000
        }),
{
    lemma2_to64();
    lemma_pow2_pos(23);
    let s = number::value(Width::Single, x) + number::value(Width::Single, y);
    let n = size(s) as nat;
    lemma_pow2_unfold(276);
    lemma_pow2_adds(23, 253);
    laws::law_rounding_keeps_multiples(Width::Single, 0x80_0000, 253);
    let most = rounding::nearest(Width::Single, pow2(276), 1);
    laws::law_rounding_respects_values(Width::Single, n, 1, most);
    laws::law_rounding_error(Width::Single, n, 1);
    assert(rounding::units(Width::Single, 0) == 0);
}

/// How far a position lies past its index, narrowed to single width, is close to
/// the exact part.
proof fn lemma_fraction_error(position: Number)
    requires
        number::is_finite(Width::Double, position),
        !position.negative,
        stretch::as_index(position) < 0x20_0000_0000_0000,
        stretch::as_index(position) < usize::MAX,
    ensures
        ({
            let m = number::magnitude(Width::Double, position);
            let fraction = stretch::fraction_past(position, stretch::as_index(position));
            &&& stretch::as_index(position) == m / pow2(1074)
            &&& range::within_one(fraction)
            &&& !fraction.negative
            &&& size(
                number::magnitude(Width::Single, fraction) * pow2(925) - m as int % pow2(
                    1074,
                ) as int,
            ) * 0x80_0000 <= pow2(1074)
        }),
{
    range::lemma_fraction(position);
    let index = stretch::as_index(position);
    let d = pow2(1074);
    let w = pow2(925);
    lemma2_to64();
    lemma2_to64_rest();
    lemma_pow2_pos(1074);
    lemma_pow2_pos(925);
    lemma_pow2_pos(52);
    lemma_pow2_adds(149, 925);
    lemma_pow2_adds(52, 1022);
    lemma_pow2_adds(52, 925);
    lemma_pow2_adds(977, 97);
    lemma_pow2_pos(97);
    lemma_pow2_pos(1022);
    let m = number::magnitude(Width::Double, position);
    lemma_fundamental_div_mod(m as int, d as int);
    assert(d * index == index * d) by (nonlinear_arith);
    laws::law_rounding_keeps_multiples(Width::Double, index, 1074);
    let s = (m - index * d) as nat;
    let past = number::difference(Width::Double, position, stretch::index_number(index));
    assert(rounding::units(Width::Double, 0) == 0);
    laws::law_rounding_respects_values(Width::Double, s, 1, 0);
    let p = number::magnitude(Width::Double, past);
    assert(0x3ff0_0000_0000_0000int / 0x10_0000_0000_0000 == 1023);
    assert(0x3ff0_0000_0000_0000int % 0x10_0000_0000_0000 == 0);
    assert(rounding::units(Width::Double, 0x3ff0_0000_0000_0000) == d);
    laws::law_rounding_respects_values(Width::Double, s, 1, 0x3ff0_0000_0000_0000);
    laws::law_codes_keep_order(Width::Double, 0x3ff0_0000_0000_0000, past.code as nat);
    laws::law_rounding_error(Width::Double, s, 1);
    let first = laws::distance(s as int, p as int);
    assert(first * 0x20_0000_0000_0000 <= s + 0x10_0000_0000_0000);
    assert(0x10_0000_0000_0000 <= d) by (nonlinear_arith)
        requires
            d == 0x10_0000_0000_0000 * pow2(1022),
            pow2(1022) > 0,
    ;
    let fraction = number::narrowed(past);
    let f = number::magnitude(Width::Single, fraction);
    laws::law_rounding_respects_values(Width::Single, p, w, 0);
    laws::law_rounding_error(Width::Single, p, w);
    let second = laws::distance(p as int, (f * w) as int);
    assert(second * 0x100_0000 <= p + 0x80_0000 * w);
    assert(0x10_0000_0000_0000 * w <= d) by (nonlinear_arith)
        requires
            pow2(977) == 0x10_0000_0000_0000 * w,
            d == pow2(977) * pow2(97),
            pow2(97) > 0,
            pow2(977) >= 0,
    ;
    assert(size(f * w - s) <= first + second);
}

/// What is read at a position lies close to the line.
#[verifier::rlimit(50)]
proof fn lemma_read_error(samples: Seq<Sample>, position: Number, bound: nat)
    requires
        bounded(samples, bound),
        bound <= pow2(275),
        samples.len() <= 0x20_0000_0000_0000,
        samples.len() <= usize::MAX,
        number::is_finite(Width::Double, position),
        !position.negative,
        stretch::as_index(position) < samples.len(),
    ensures
        ({
            let r = stretch::read_at(samples, position);
            let m = number::magnitude(Width::Double, position) as int;
            &&& r.len() == 1
            &&& number::is_finite(Width::Single, r[0].number())
            &&& size(
                number::value(Width::Single, r[0].number()) * pow2(1074) - line(
                    samples,
                    m,
                    pow2(1074) as int,
                ),
            ) * 0x10_0000 <= pow2(1074) * (bound + 0x20_0000)
        }),
{
    let index = stretch::as_index(position) as int;
    let m = number::magnitude(Width::Double, position) as int;
    let d = pow2(1074) as int;
    let w = pow2(925) as int;
    let one = pow2(149) as int;
    lemma_pow2_pos(1074);
    lemma_pow2_pos(925);
    lemma_pow2_pos(149);
    lemma_pow2_adds(149, 925);
    lemma2_to64();
    lemma_fraction_error(position);
    let s = m % d;
    lemma_fundamental_div_mod(m, d);
    let r = stretch::read_at(samples, position);
    let a = level(samples, index);
    let b = level(samples, index + 1);
    assert(number::is_finite(Width::Single, samples[index].number()));
    if index + 1 < samples.len() {
        assert(number::is_finite(Width::Single, samples[index + 1].number()));
        let fraction = stretch::fraction_past(position, index as nat);
        let f = number::magnitude(Width::Single, fraction) as int;
        let left = number::difference(Width::Single, sample::one(false), fraction);
        lemma_left(fraction);
        let g = number::magnitude(Width::Single, left) as int;
        let x = samples[index].number();
        let y = samples[index + 1].number();
        lemma_product_error(x, left, bound);
        lemma_product_error(y, fraction, bound);
        let p = number::product(Width::Single, x, left);
        let q = number::product(Width::Single, y, fraction);
        lemma_sum_error(p, q, bound);
        let (pa, pb) = (number::value(Width::Single, p), number::value(Width::Single, q));
        let z = stretch::blended(samples[index], samples[index + 1], fraction);
        assert(Sample::of(z).number() == z);
        let v = number::value(Width::Single, z);
        lemma_level(samples, index, bound);
        lemma_level(samples, index + 1, bound);
        lemma_blend_error(a, b, f, g, s, pa, pb, v, bound as int);
    } else {
        assert(a == b);
        assert(a * (d - s) + a * s == a * d) by (nonlinear_arith);
        assert(d * (bound + 0x20_0000) >= 0) by (nonlinear_arith)
            requires
                d > 0,
                bound >= 0,
        ;
    }
}

/// One less a fraction is close to the exact difference.
proof fn lemma_left(fraction: Number)
    requires
        range::within_one(fraction),
        !fraction.negative,
    ensures
        ({
            let left = number::difference(Width::Single, sample::one(false), fraction);
            &&& range::within_one(left)
            &&& !left.negative
            &&& size(
                number::magnitude(Width::Single, left) - (pow2(149) - number::magnitude(
                    Width::Single,
                    fraction,
                )),
            ) * 0x80_0000 <= pow2(149)
        }),
{
    lemma2_to64();
    lemma_pow2_pos(23);
    lemma_pow2_adds(23, 126);
    lemma_pow2_pos(126);
    assert(0x3f80_0000int / 0x80_0000 == 127 && 0x3f80_0000int % 0x80_0000 == 0);
    assert(rounding::units(Width::Single, 0x3f80_0000) == pow2(149));
    assert(rounding::units(Width::Single, 0) == 0);
    let rest = (pow2(149) - number::magnitude(Width::Single, fraction)) as nat;
    laws::law_rounding_respects_values(Width::Single, rest, 1, 0x3f80_0000);
    laws::law_rounding_respects_values(Width::Single, rest, 1, 0);
    laws::law_rounding_error(Width::Single, rest, 1);
    let left = number::difference(Width::Single, sample::one(false), fraction);
    laws::law_codes_keep_order(Width::Single, 0x3f80_0000, left.code as nat);
    assert(0x80_0000 <= pow2(149)) by (nonlinear_arith)
        requires
            pow2(149) == 0x80_0000 * pow2(126),
            pow2(126) > 0,
    ;
}

/// The errors of a blend, put together.
proof fn lemma_blend_error(
    a: int,
    b: int,
    f: int,
    g: int,
    s: int,
    pa: int,
    pb: int,
    v: int,
    bound: int,
)
    requires
        size(a) <= bound,
        size(b) <= bound,
        size(f * pow2(925) - s) * 0x80_0000 <= pow2(1074),
        size(g - (pow2(149) - f)) * 0x80_0000 <= pow2(149),
        size(pa * pow2(149) - a * g) * 0x100_0000 <= (bound + 0x80_0000) * pow2(149),
        size(pb * pow2(149) - b * f) * 0x100_0000 <= (bound + 0x80_0000) * pow2(149),
        size(v - (pa + pb)) * 0x100_0000 <= 2 * bound + 0x80_0000,
    ensures
        size(v * pow2(1074) - (a * (pow2(1074) - s) + b * s)) * 0x10_0000 <= pow2(1074) * (bound
            + 0x20_0000),
{
    let d = pow2(1074) as int;
    let w = pow2(925) as int;
    let one = pow2(149) as int;
    lemma_pow2_pos(1074);
    lemma_pow2_pos(925);
    lemma_pow2_pos(149);
    lemma_pow2_adds(149, 925);
    assert(d == one * w);
    let e1 = pa * one - a * g;
    let e2 = pb * one - b * f;
    let e3 = v - (pa + pb);
    let k = f * w - s;
    let l = g - (one - f);
    let h = l * w - k;
    assert(h == g * w - (d - s)) by (nonlinear_arith)
        requires
            h == l * w - k,
            k == f * w - s,
            l == g - (one - f),
            d == one * w,
    ;
    let (ag, bf) = ((a * g) * w, (b * f) * w);
    assert(e3 * d == v * d - pa * d - pb * d) by (nonlinear_arith)
        requires
            e3 == v - (pa + pb),
    ;
    assert(w * e1 == pa * d - ag) by (nonlinear_arith)
        requires
            e1 == pa * one - a * g,
            d == one * w,
            ag == (a * g) * w,
    ;
    assert(w * e2 == pb * d - bf) by (nonlinear_arith)
        requires
            e2 == pb * one - b * f,
            d == one * w,
            bf == (b * f) * w,
    ;
    assert(a * h == ag - a * (d - s)) by (nonlinear_arith)
        requires
            h == g * w - (d - s),
            ag == (a * g) * w,
    ;
    assert(b * k == bf - b * s) by (nonlinear_arith)
        requires
            k == f * w - s,
            bf == (b * f) * w,
    ;
    // the size of each part
    lemma_size_product(e3, d, size(e3), d);
    assert((size(e3) * d) * 0x100_0000 <= (2 * bound + 0x80_0000) * d) by (nonlinear_arith)
        requires
            size(e3) * 0x100_0000 <= 2 * bound + 0x80_0000,
            d > 0,
    ;
    lemma_size_product(w, e1, w, size(e1));
    lemma_size_product(w, e2, w, size(e2));
    let c = bound + 0x80_0000;
    assert((w * size(e1)) * 0x100_0000 <= c * d) by (nonlinear_arith)
        requires
            size(e1) * 0x100_0000 <= c * one,
            d == one * w,
            w > 0,
    ;
    assert((w * size(e2)) * 0x100_0000 <= c * d) by (nonlinear_arith)
        requires
            size(e2) * 0x100_0000 <= c * one,
            d == one * w,
            w > 0,
    ;
    lemma_size_product(l, w, size(l), w);
    assert((size(l) * w) * 0x80_0000 <= d) by (nonlinear_arith)
        requires
            size(l) * 0x80_0000 <= one,
            d == one * w,
            w > 0,
    ;
    assert(size(h) * 0x80_0000 <= 2 * d);
    lemma_size_product(a, h, bound, size(h));
    lemma_size_product(b, k, bound, size(k));
    assert((bound * size(h)) * 0x80_0000 <= bound * (2 * d)) by (nonlinear_arith)
        requires
            size(h) * 0x80_0000 <= 2 * d,
            bound >= 0,
    ;
    assert((bound * size(k)) * 0x80_0000 <= bound * d) by (nonlinear_arith)
        requires
            size(k) * 0x80_0000 <= d,
            bound >= 0,
    ;
    let t = bound * d;
    assert(bound * (2 * d) == 2 * t && c * d == t + 0x80_0000 * d && (2 * bound + 0x80_0000) * d
        == 2 * t + 0x80_0000 * d && d * (bound + 0x20_0000) == t + 0x20_0000 * d)
        by (nonlinear_arith)
        requires
            t == bound * d,
            c == bound + 0x80_0000,
    ;
    assert(t >= 0) by (nonlinear_arith)
        requires
            t == bound * d,
            bound >= 0,
            d > 0,
    ;
}

/// What is read at a position close to `num / den` lies on the line there.
pub(crate) proof fn lemma_on_line(
    samples: Seq<Sample>,
    position: Number,
    num: int,
    den: int,
    bound: nat,
)
    requires
        bounded(samples, bound),
        bound <= pow2(275),
        samples.len() <= 0x20_0000_0000_0000,
        samples.len() <= usize::MAX,
        number::is_finite(Width::Double, position),
        !position.negative,
        stretch::as_index(position) < samples.len(),
        0 <= num,
        0 < den,
        size(number::magnitude(Width::Double, position) * den - num * pow2(1074))
            * 0x4_0000_0000_0000 <= num * pow2(1074),
    ensures
        ({
            let r = stretch::read_at(samples, position);
            &&& r.len() == 1
            &&& number::is_finite(Width::Single, r[0].number())
            &&& on_line(number::value(Width::Single, r[0].number()), samples, num, den, bound)
        }),
{
    lemma_read_error(samples, position, bound);
    let d = pow2(1074) as int;
    lemma_pow2_pos(1074);
    let m = number::magnitude(Width::Double, position) as int;
    let v = number::value(Width::Single, stretch::read_at(samples, position)[0].number());
    let near = line(samples, m, d);
    let want = line(samples, num, den);
    lemma_line_scaled(samples, m, d, den);
    lemma_line_scaled(samples, num, den, d);
    assert(den * d == d * den && d * den > 0) by (nonlinear_arith)
        requires
            d > 0,
            den > 0,
    ;
    let (u, z) = (m * den, num * d);
    assert(u >= 0 && z >= 0) by (nonlinear_arith)
        requires
            u == m * den,
            z == num * d,
            m >= 0,
            den > 0,
            num >= 0,
            d > 0,
    ;
    if u <= z {
        lemma_line_moves(samples, u, z, d * den, bound);
    } else {
        lemma_line_moves(samples, z, u, d * den, bound);
    }
    let shift = size(den * near - d * want);
    assert(shift <= 2 * bound * size(u - z));
    assert(shift * 0x2_0000_0000_0000 <= bound * z) by (nonlinear_arith)
        requires
            shift <= 2 * bound * size(u - z),
            size(u - z) * 0x4_0000_0000_0000 <= z,
            bound >= 0,
    ;
    let e = v * d - near;
    lemma_size_product(e, den, size(e), den);
    assert((size(e) * den) * 0x10_0000 <= (d * (bound + 0x20_0000)) * den) by (nonlinear_arith)
        requires
            size(e) * 0x10_0000 <= d * (bound + 0x20_0000),
            den > 0,
    ;
    let x = v * den - want;
    assert(x * d == e * den + (den * near - d * want)) by (nonlinear_arith)
        requires
            x == v * den - want,
            e == v * d - near,
    ;
    lemma_size_product(x, d, size(x), d);
    let t = (d * (bound + 0x20_0000)) * den;
    assert((size(x) * d) * 0x2_0000_0000_0000 <= 0x2000_0000 * t + bound * z);
    let limit = bound * (0x2000_0000 * den + num) + 0x4_0000_0000_0000 * den;
    assert(0x2000_0000 * t + bound * z == limit * d) by (nonlinear_arith)
        requires
            t == (d * (bound + 0x20_0000)) * den,
            z == num * d,
            limit == bound * (0x2000_0000 * den + num) + 0x4_0000_0000_0000 * den,
    ;
    assert(size(x) * 0x2_0000_0000_0000 <= limit) by (nonlinear_arith)
        requires
            (size(x) * d) * 0x2_0000_0000_0000 <= limit * d,
            d > 0,
    ;
}

} // verus!
