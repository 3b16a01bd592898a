//! Laws of the reduction to one channel: it goes by the samples alone, not by
//! how they lie in memory, and for 16-bit samples not by the order of the
//! channels either.

use crate::frame;
use crate::frame::DecodedFrame;
use crate::interpolate;
use crate::laws;
use crate::media::Layout;
use crate::media::SampleFormat;
use crate::number;
use crate::number::Number;
use crate::pcm;
use crate::rounding;
use crate::rounding::Width;
use crate::sample::Sample;
use vstd::arithmetic::power2::*;
use vstd::prelude::*;
use vstd::seq_lib::*;

verus! {

/// The sum of a row of samples, from the first on.
pub open spec fn row_sum(row: Seq<Number>) -> Number
    decreases row.len(),
{
    if row.len() == 0 {
        number::zero(false)
    } else {
        number::sum(Width::Single, row_sum(row.drop_last()), row.last())
    }
}

/// The average of a row of samples.
pub open spec fn row_average(row: Seq<Number>) -> Number {
    number::quotient(
        Width::Single,
        row_sum(row),
        number::whole(Width::Single, false, row.len()),
    )
}

/// The sum over the first channels is that of the first samples of the row.
proof fn lemma_row_sum(frame: DecodedFrame, i: int, channels: nat)
    requires
        channels <= frame.channels,
    ensures
        frame.channel_sum(i, channels) == row_sum(frame.row(i).take(channels as int)),
    decreases channels,
{
    let row = frame.row(i);
    if channels > 0 {
        lemma_row_sum(frame, i, (channels - 1) as nat);
        assert(row.take(channels as int).drop_last() =~= row.take(channels - 1));
    }
}

/// A frame as one channel is the averages of its rows.
pub proof fn law_mono_is_the_rows_averaged(frame: DecodedFrame)
    ensures
        frame.mono() == frame.rows().map_values(|row: Seq<Number>| Sample::of(row_average(row))),
{
    let each = |row: Seq<Number>| Sample::of(row_average(row));
    assert forall|i: int| 0 <= i < frame.samples implies frame.mono()[i] == each(
        frame.rows()[i],
    ) by {
        lemma_row_sum(frame, i, frame.channels as nat);
        assert(frame.row(i).take(frame.channels as int) =~= frame.row(i));
    }
    assert(frame.mono() =~= frame.rows().map_values(each));
}

/// The frame holds these 16-bit values, in rows of one value for each channel.
pub open spec fn holds_i16(frame: DecodedFrame, values: Seq<Seq<int>>) -> bool {
    &&& frame.format is I16
    &&& values.len() == frame.samples
    &&& forall|i: int| 0 <= i < values.len() ==> (#[trigger] values[i]).len() == frame.channels
    &&& forall|i: int, channel: int|
        0 <= i < frame.samples && 0 <= channel < frame.channels ==> #[trigger] holds_value(
            frame,
            i,
            channel,
            values[i][channel],
        )
}

/// The frame holds this 16-bit value as the `i`th sample of a channel.
pub open spec fn holds_value(frame: DecodedFrame, i: int, channel: int, value: int) -> bool {
    let (plane, slot) = if frame.format == SampleFormat::I16(Layout::Packed) {
        (frame.planes@[0]@, i * frame.channels + channel)
    } else {
        (frame.planes@[channel]@, i)
    };
    let at = slot * 2;
    at + 1 < plane.len() && value == pcm::of_bytes(plane[at], plane[at + 1])
}

/// A row of 16-bit values, as the samples they are read as.
pub open spec fn as_read(values: Seq<int>) -> Seq<Number> {
    values.map_values(|v: int| frame::scaled(v, 0x8000))
}

/// The samples of a frame are the values that it holds, as they are read.
proof fn lemma_holds(frame: DecodedFrame, values: Seq<Seq<int>>, i: int)
    requires
        holds_i16(frame, values),
        0 <= i < frame.samples,
    ensures
        frame.row(i) == as_read(values[i]),
        forall|c: int| 0 <= c < values[i].len() ==> -0x8000 <= #[trigger] values[i][c] < 0x8000,
{
    assert forall|c: int| 0 <= c < frame.channels implies frame.row(i)[c] == as_read(
        values[i],
    )[c] && -0x8000 <= #[trigger] values[i][c] < 0x8000 by {
        assert(holds_value(frame, i, c, values[i][c]));
    }
    assert(frame.row(i) =~= as_read(values[i]));
}

/// Frames that hold the same 16-bit values give the same channel, whether
/// packed or planar.
pub proof fn law_layouts_give_the_same(
    first: DecodedFrame,
    second: DecodedFrame,
    values: Seq<Seq<int>>,
)
    requires
        holds_i16(first, values),
        holds_i16(second, values),
    ensures
        first.mono() == second.mono(),
{
    law_mono_is_the_rows_averaged(first);
    law_mono_is_the_rows_averaged(second);
    assert forall|i: int| 0 <= i < values.len() implies first.rows()[i] == second.rows()[i] by {
        lemma_holds(first, values, i);
        lemma_holds(second, values, i);
    }
    assert(first.rows() =~= second.rows());
}

/// A value over the scale of 16 bits is exact, also for what is a sum of some
/// such values.
proof fn lemma_exact(v: int)
    requires
        -0x100_0000 <= v <= 0x100_0000,
    ensures
        ({
            let x = frame::scaled(v, 0x8000);
            &&& number::is_finite(Width::Single, x)
            &&& x.negative <==> v < 0
            &&& number::value(Width::Single, x) == v * pow2(134)
            &&& x.code == 0 <==> v == 0
        }),
{
    lemma2_to64();
    let n: nat = if v < 0 {
        (-v) as nat
    } else {
        v as nat
    };
    let one = pow2(149);
    let step = pow2(134);
    lemma_pow2_pos(149);
    lemma_pow2_pos(134);
    lemma_pow2_pos(23);
    assert(rounding::units(Width::Single, 0) == 0);
    lemma_pow2_adds(15, 134);
    lemma_short(n, 149);
    lemma_short(0x8000, 149);
    lemma_short(n, 134);
    let b = 0x8000 * one;
    let c = rounding::nearest(Width::Single, n * step, 1);
    laws::law_codes_keep_order(
        Width::Single,
        0,
        number::whole(Width::Single, false, 0x8000).code as nat,
    );
    assert((n * one) * one == (n * step) * b) by (nonlinear_arith)
        requires
            one == 0x8000 * step,
            b == 0x8000 * one,
    ;
    laws::law_rounding_respects_values(Width::Single, (n * one) * one, b, c);
    let x = frame::scaled(v, 0x8000);
    assert(x.code == c);
    laws::law_codes_keep_order(Width::Single, 0, c);
    assert(n * step == 0 <==> n == 0) by (nonlinear_arith)
        requires
            step > 0,
    ;
    if v < 0 {
        assert(v * step == -(n * step)) by (nonlinear_arith)
            requires
                v == -(n as int),
        ;
    }
}

/// A multiple of a power of two that has at most 24 digits, or the next one, is
/// a number of single width.
proof fn lemma_short(n: nat, k: nat)
    requires
        n <= 0x100_0000,
        k <= 200,
    ensures
        rounding::nearest(Width::Single, n * pow2(k), 1) < rounding::infinity(Width::Single),
        rounding::units(Width::Single, rounding::nearest(Width::Single, n * pow2(k), 1)) == n
            * pow2(k),
{
    lemma2_to64();
    if n < 0x100_0000 {
        laws::law_rounding_keeps_multiples(Width::Single, n, k);
    } else {
        lemma_pow2_adds(24, k);
        assert(1 * pow2(24 + k) == n * pow2(k));
        laws::law_rounding_keeps_multiples(Width::Single, 1, 24 + k);
    }
}

/// The sum of values over the scale of 16 bits is exact.
proof fn lemma_exact_sum(a: int, b: int)
    requires
        -0x100_0000 <= a <= 0x100_0000,
        -0x100_0000 <= b <= 0x100_0000,
        -0x100_0000 <= a + b <= 0x100_0000,
    ensures
        number::sum(Width::Single, frame::scaled(a, 0x8000), frame::scaled(b, 0x8000))
            == frame::scaled(a + b, 0x8000),
{
    lemma_exact(a);
    lemma_exact(b);
    lemma_exact(a + b);
    let step = pow2(134);
    lemma_pow2_pos(134);
    let v = a + b;
    assert(v * step == a * step + b * step) by (nonlinear_arith)
        requires
            v == a + b,
    ;
    let n: nat = if v < 0 {
        (-v) as nat
    } else {
        v as nat
    };
    assert((v < 0 ==> v * step == -(n * step) && v * step < 0) && (v >= 0 ==> v * step == n * step)
        && (v > 0 ==> v * step > 0)) by (nonlinear_arith)
        requires
            step > 0,
            v < 0 ==> n == -v,
            v >= 0 ==> n == v,
    ;
    lemma_short(n, 134);
    let x = frame::scaled(v, 0x8000);
    let c = rounding::nearest(Width::Single, n * step, 1);
    laws::law_codes_keep_order(Width::Single, c, x.code as nat);
    assert(x.code == c);
    if v == 0 {
        assert(0 * step == 0);
        assert(x == number::zero(false));
    }
}

/// The total of a row of values.
pub open spec fn total(values: Seq<int>) -> int {
    values.fold_left(0, |sum: int, v: int| sum + v)
}

/// A row of 16-bit values is summed without any rounding.
proof fn lemma_row_total(values: Seq<int>)
    requires
        values.len() <= 512,
        forall|c: int| 0 <= c < values.len() ==> -0x8000 <= #[trigger] values[c] < 0x8000,
    ensures
        row_sum(as_read(values)) == frame::scaled(total(values), 0x8000),
        -0x8000 * values.len() <= total(values) <= 0x8000 * values.len(),
    decreases values.len(),
{
    let row = as_read(values);
    if values.len() == 0 {
        lemma_exact(0);
        assert(row_sum(row) == number::zero(false));
    } else {
        let before = values.drop_last();
        lemma_row_total(before);
        assert(row.drop_last() =~= as_read(before));
        assert(values.last() == values[values.len() - 1]);
        lemma_exact_sum(total(before), values.last());
    }
}

/// Permuting the channels of 16-bit samples changes nothing: a row counts by
/// the values in it. Up to 512 channels are summed without rounding.
pub proof fn law_channel_order_does_not_matter(
    first: DecodedFrame,
    second: DecodedFrame,
    x: Seq<Seq<int>>,
    y: Seq<Seq<int>>,
)
    requires
        holds_i16(first, x),
        holds_i16(second, y),
        first.channels <= 512,
        x.len() == y.len(),
        forall|i: int|
            0 <= i < x.len() ==> (#[trigger] x[i]).to_multiset() == (#[trigger] y[i]).to_multiset(),
    ensures
        first.mono() == second.mono(),
{
    law_mono_is_the_rows_averaged(first);
    law_mono_is_the_rows_averaged(second);
    let each = |row: Seq<Number>| Sample::of(row_average(row));
    assert forall|i: int| 0 <= i < x.len() implies first.mono()[i] == second.mono()[i] by {
        assert(x[i].to_multiset() == y[i].to_multiset());
        to_multiset_len(x[i]);
        to_multiset_len(y[i]);
        let add = |sum: int, v: int| sum + v;
        lemma_fold_left_permutation(x[i], y[i], add, 0);
        lemma_holds(first, x, i);
        lemma_holds(second, y, i);
        lemma_row_total(x[i]);
        lemma_row_total(y[i]);
        assert(first.mono()[i] == each(first.rows()[i]));
        assert(second.mono()[i] == each(second.rows()[i]));
    }
    assert(first.mono() =~= second.mono());
}

/// The average of equal values is the value.
proof fn lemma_average_of_equal(channels: nat, v: int)
    requires
        0 < channels <= 512,
        -0x8000 <= v < 0x8000,
    ensures
        number::quotient(
            Width::Single,
            frame::scaled(channels * v, 0x8000),
            number::whole(Width::Single, false, channels),
        ) == frame::scaled(v, 0x8000),
{
    assert(-0x100_0000 <= channels * v <= 0x100_0000 && (channels * v < 0 <==> v < 0) && (channels
        * v == 0 <==> v == 0)) by (nonlinear_arith)
        requires
            0 < channels <= 512,
            -0x8000 <= v < 0x8000,
    ;
    lemma_exact(v);
    lemma_exact(channels * v);
    lemma_short(channels, 149);
    let one = pow2(149);
    let step = pow2(134);
    lemma_pow2_pos(149);
    lemma_pow2_pos(134);
    lemma_pow2_pos(23);
    assert(rounding::units(Width::Single, 0) == 0);
    let x = frame::scaled(v, 0x8000);
    let s = frame::scaled(channels * v, 0x8000);
    let w = number::whole(Width::Single, false, channels);
    let b = channels * one;
    assert(b > 0) by (nonlinear_arith)
        requires
            b == channels * one,
            channels > 0,
            one > 0,
    ;
    laws::law_codes_keep_order(Width::Single, 0, w.code as nat);
    let m = number::magnitude(Width::Single, x);
    let p = number::magnitude(Width::Single, s);
    assert(p == channels * m) by (nonlinear_arith)
        requires
            m == v * step && p == (channels * v) * step || m == -(v * step) && p == -((channels * v)
                * step),
    ;
    assert(p * one == m * b) by (nonlinear_arith)
        requires
            p == channels * m,
            b == channels * one,
    ;
    laws::law_rounding_respects_values(Width::Single, p * one, b, x.code as nat);
}

/// A total of equal values.
proof fn lemma_total_of_equal(values: Seq<int>, v: int)
    requires
        forall|c: int| 0 <= c < values.len() ==> #[trigger] values[c] == v,
    ensures
        total(values) == values.len() * v,
    decreases values.len(),
{
    if values.len() > 0 {
        let before = values.drop_last();
        lemma_total_of_equal(before, v);
        assert(values.last() == values[values.len() - 1]);
        assert(values.len() * v == before.len() * v + v) by (nonlinear_arith)
            requires
                values.len() == before.len() + 1,
        ;
    }
}

/// If all channels of 16-bit samples are equal, the average is any one of them.
pub proof fn law_equal_channels_are_one(frame: DecodedFrame, values: Seq<Seq<int>>, i: int)
    requires
        holds_i16(frame, values),
        0 < frame.channels <= 512,
        0 <= i < frame.samples,
        forall|c: int| 0 <= c < values[i].len() ==> #[trigger] values[i][c] == values[i][0],
    ensures
        frame.mono()[i] == Sample::of(frame::scaled(values[i][0], 0x8000)),
{
    law_mono_is_the_rows_averaged(frame);
    lemma_holds(frame, values, i);
    assert(-0x8000 <= values[i][0] < 0x8000);
    lemma_row_total(values[i]);
    lemma_total_of_equal(values[i], values[i][0]);
    lemma_average_of_equal(frame.channels as nat, values[i][0]);
    let each = |row: Seq<Number>| Sample::of(row_average(row));
    assert(frame.mono()[i] == each(frame.rows()[i]));
}

/// Channels that are all equal give the same as one of them alone.
pub proof fn law_equal_channels_as_one_frame(
    many: DecodedFrame,
    one: DecodedFrame,
    x: Seq<Seq<int>>,
    y: Seq<Seq<int>>,
)
    requires
        holds_i16(many, x),
        holds_i16(one, y),
        0 < many.channels <= 512,
        one.channels == 1,
        x.len() == y.len(),
        forall|i: int, c: int|
            0 <= i < x.len() && 0 <= c < many.channels ==> #[trigger] x[i][c] == y[i][0],
    ensures
        many.mono() == one.mono(),
{
    assert forall|i: int| 0 <= i < x.len() implies many.mono()[i] == one.mono()[i] by {
        assert(x[i][0] == y[i][0]);
        law_equal_channels_are_one(many, x, i);
        law_equal_channels_are_one(one, y, i);
    }
    assert(many.mono() =~= one.mono());
}

/// The exact total of the `i`th samples of the first channels, in units.
pub open spec fn exact_total(frame: DecodedFrame, i: int, channels: nat) -> int
    decreases channels,
{
    if channels == 0 {
        0
    } else {
        exact_total(frame, i, (channels - 1) as nat) + number::value(
            Width::Single,
            frame.sample(i, channels - 1),
        )
    }
}

/// The `i`th samples of all channels are finite and within a bound.
pub open spec fn row_bounded(frame: DecodedFrame, i: int, bound: nat) -> bool {
    forall|c: int|
        0 <= c < frame.channels ==> number::is_finite(
            Width::Single,
            #[trigger] frame.sample(i, c),
        ) && number::magnitude(Width::Single, frame.sample(i, c)) <= bound
}

/// The sum over some channels is close to the exact total.
proof fn lemma_sum_close(frame: DecodedFrame, i: int, bound: nat, k: nat)
    requires
        row_bounded(frame, i, bound),
        bound <= pow2(260),
        k <= frame.channels,
        k <= 512,
    ensures
        ({
            let t = frame.channel_sum(i, k);
            let s = exact_total(frame, i, k);
            &&& number::is_finite(Width::Single, t)
            &&& interpolate::size(s) <= k * bound
            &&& interpolate::size(number::value(Width::Single, t) - s) * 0x100_0000 <= (k * k)
                * bound + k * 0x100_0000
        }),
    decreases k,
{
    lemma2_to64();
    lemma_pow2_pos(23);
    assert(rounding::units(Width::Single, 0) == 0);
    if k == 0 {
        assert(0 * bound == 0);
    } else {
        let j = (k - 1) as nat;
        lemma_sum_close(frame, i, bound, j);
        let t = frame.channel_sum(i, j);
        let x = frame.sample(i, j as int);
        assert(number::magnitude(Width::Single, x) <= bound);
        let s = exact_total(frame, i, j);
        let v = number::value(Width::Single, t);
        let err = interpolate::size(v - s);
        assert((k * k) * bound == (j * j) * bound + (2 * k - 1) * bound) by (nonlinear_arith)
            requires
                k == j + 1,
        ;
        assert(k * bound == j * bound + bound) by (nonlinear_arith)
            requires
                k == j + 1,
        ;
        assert((j * j) * bound <= 0x4_0000 * bound && j * bound <= 512 * bound) by (nonlinear_arith)
            requires
                0 <= j <= 512,
                bound >= 0,
        ;
        // the size of the next sum
        let y = v + number::value(Width::Single, x);
        let n = interpolate::size(y) as nat;
        assert(err * 64 <= bound + 64 * j);
        assert(n <= k * bound + err);
        lemma_pow2_adds(15, 260);
        lemma_pow2_adds(9, 260);
        lemma_pow2_strictly_increases(30, 260);
        lemma_pow2_unfold(276);
        lemma_pow2_adds(23, 253);
        assert(n <= pow2(276));
        laws::law_rounding_keeps_multiples(Width::Single, 0x80_0000, 253);
        let most = rounding::nearest(Width::Single, pow2(276), 1);
        laws::law_rounding_respects_values(Width::Single, n, 1, most);
        laws::law_rounding_error(Width::Single, n, 1);
        let z = frame.channel_sum(i, k);
        assert(z == number::sum(Width::Single, t, x));
        let w = number::value(Width::Single, z);
        assert(interpolate::size(w - y) * 0x100_0000 <= n + 0x80_0000);
        assert(interpolate::size(w - (s + number::value(Width::Single, x))) <= interpolate::size(
            w - y,
        ) + err);
        if j == 0 {
            assert(err == 0) by {
                assert(frame.channel_sum(i, 0) == number::zero(false));
            }
        } else {
            assert((2 * k - 1) * bound >= k * bound + bound) by (nonlinear_arith)
                requires
                    k >= 2,
                    bound >= 0,
            ;
        }
    }
}

/// A frame as one channel has a sample for each row, and that is the mean of the
/// row's samples, up to rounding: none of the channels is left out, and none
/// counts more than another.
pub proof fn law_mono_is_the_mean(frame: DecodedFrame, i: int, bound: nat)
    requires
        0 <= i < frame.samples,
        0 < frame.channels <= 512,
        row_bounded(frame, i, bound),
        bound <= pow2(260),
    ensures
        frame.mono().len() == frame.samples,
        ({
            let c = frame.channels as int;
            let r = frame.mono()[i].number();
            &&& number::is_finite(Width::Single, r)
            &&& interpolate::size(
                number::value(Width::Single, r) * c - exact_total(frame, i, c as nat),
            ) * 0x100_0000 <= ((c + 1) * (c + 1)) * bound + c * 0x400_0000
        }),
{
    lemma2_to64();
    let c = frame.channels as int;
    lemma_sum_close(frame, i, bound, c as nat);
    let t = frame.channel_sum(i, c as nat);
    let s = exact_total(frame, i, c as nat);
    let w = number::whole(Width::Single, false, c as nat);
    let one = pow2(149) as int;
    lemma_pow2_pos(149);
    lemma_pow2_pos(23);
    assert(rounding::units(Width::Single, 0) == 0);
    lemma_short(c as nat, 149);
    let b = c * one;
    assert(b >= one) by (nonlinear_arith)
        requires
            b == c * one,
            c >= 1,
            one > 0,
    ;
    laws::law_codes_keep_order(Width::Single, 0, w.code as nat);
    let m = number::magnitude(Width::Single, t) as int;
    assert(m * one <= m * b) by (nonlinear_arith)
        requires
            b >= one,
            m >= 0,
    ;
    laws::law_rounding_respects_values(Width::Single, (m * one) as nat, b as nat, t.code as nat);
    laws::law_rounding_error(Width::Single, (m * one) as nat, b as nat);
    let x = frame.average(i);
    assert(x == number::quotient(Width::Single, t, w));
    let u = number::magnitude(Width::Single, x) as int;
    let off = laws::distance(m, u * c);
    assert(u * b == (u * c) * one) by (nonlinear_arith)
        requires
            b == c * one,
    ;
    assert(laws::distance(m * one, u * b) == off * one) by (nonlinear_arith)
        requires
            u * b == (u * c) * one,
            one > 0,
            off == if m < u * c {
                u * c - m
            } else {
                m - u * c
            },
            laws::distance(m * one, u * b) == if m * one < u * b {
                u * b - m * one
            } else {
                m * one - u * b
            },
    ;
    assert(off * 0x100_0000 <= m + 0x80_0000 * c) by (nonlinear_arith)
        requires
            (off * one) * 0x100_0000 <= m * one + 0x80_0000 * b,
            b == c * one,
            one > 0,
    ;
    assert(Sample::of(x).number() == x);
    let v = number::value(Width::Single, t);
    let r = number::value(Width::Single, x);
    if x.negative {
        assert((-u) * c == -(u * c)) by (nonlinear_arith);
    }
    let err = interpolate::size(v - s);
    assert(interpolate::size(r * c - s) <= off + err);
    assert(((c + 1) * (c + 1)) * bound == (c * c) * bound + 2 * (c * bound) + bound)
        by (nonlinear_arith);
    assert((c * c) * bound <= 0x4_0000 * bound) by (nonlinear_arith)
        requires
            0 <= c <= 512,
            bound >= 0,
    ;
    assert(c * bound >= bound) by (nonlinear_arith)
        requires
            c >= 1,
            bound >= 0,
    ;
    assert(m <= c * bound + err);
    assert(err * 64 <= bound + 64 * c);
}

/// The sum over channels of which one has no value has none.
proof fn lemma_sum_without_value(frame: DecodedFrame, i: int, channel: int, k: nat)
    requires
        0 <= channel < k,
        number::is_nan(Width::Single, frame.sample(i, channel)),
    ensures
        number::is_nan(Width::Single, frame.channel_sum(i, k)),
    decreases k,
{
    if channel < k - 1 {
        lemma_sum_without_value(frame, i, channel, (k - 1) as nat);
    }
}

/// A row has no mean if one of its samples has no value, or if it has no samples.
pub proof fn law_mean_of_no_value(frame: DecodedFrame, i: int, channel: int)
    requires
        0 <= i < frame.samples,
        0 <= channel < frame.channels && number::is_nan(Width::Single, frame.sample(i, channel))
            || frame.channels == 0,
    ensures
        number::is_nan(Width::Single, frame.mono()[i].number()),
{
    let c = frame.channels as nat;
    if c > 0 {
        lemma_sum_without_value(frame, i, channel, c);
    } else {
        lemma_short(0, 149);
        laws::law_rounding_respects_values(Width::Single, 0, 1, 0);
        assert(0 * pow2(149) == 0);
        assert(rounding::units(Width::Single, 0) == 0) by {
            lemma_pow2_pos(23);
        }
        assert(frame.channel_sum(i, 0) == number::zero(false));
    }
    let x = frame.average(i);
    assert(x == number::nan(Width::Single));
    assert(Sample::of(x).number() == x);
}

} // verus!
