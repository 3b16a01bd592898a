use speech_audio::frame;
use speech_audio::frame::DecodedFrame;
use speech_audio::media::{Layout, SampleFormat};
use speech_audio::sample;
use speech_audio::sample::Sample;

fn mono(format: SampleFormat, channels: u16, samples: usize, planes: Vec<Vec<u8>>) -> Vec<f32> {
    let f = DecodedFrame { rate: 8000, channels, samples, format, planes };
    assert!(f.is_well_formed());
    let mut out = vec![Sample { bits: 7 }];
    frame::append_mono(&f, &mut out);
    assert_eq!(out[0].bits, 7);
    out[1..].iter().map(|s| f32::from_bits(s.bits)).collect()
}

fn i16s(vs: &[i16]) -> Vec<u8> {
    vs.iter().flat_map(|v| v.to_le_bytes()).collect()
}

fn i32s(vs: &[i32]) -> Vec<u8> {
    vs.iter().flat_map(|v| v.to_le_bytes()).collect()
}

fn f32s(vs: &[f32]) -> Vec<u8> {
    vs.iter().flat_map(|v| v.to_le_bytes()).collect()
}

#[test]
fn packed_i16() {
    let format = SampleFormat::I16(Layout::Packed);
    assert_eq!(mono(format, 1, 3, vec![i16s(&[16384, -32768, 1])]), vec![0.5, -1.0, 1.0 / 32768.0]);
    assert_eq!(mono(format, 2, 2, vec![i16s(&[16384, 0, -32768, 16384])]), vec![0.25, -0.25]);
}

#[test]
fn planar_i16() {
    let format = SampleFormat::I16(Layout::Planar);
    let planes = vec![i16s(&[16384, -32768]), i16s(&[0, 16384])];
    assert_eq!(mono(format, 2, 2, planes), vec![0.25, -0.25]);
}

#[test]
fn packed_i32() {
    let format = SampleFormat::I32(Layout::Packed);
    let values = [i32::MIN, i32::MAX, 1, -1, 0x4000_0000, 123_456_789];
    let expected: Vec<f32> = values.iter().map(|&v| v as f32 / 2147483648.0).collect();
    assert_eq!(mono(format, 1, 6, vec![i32s(&values)]), expected);
    assert_eq!(mono(format, 2, 1, vec![i32s(&[0x4000_0000, -0x2000_0000])]), vec![0.125]);
}

#[test]
fn planar_i32() {
    let format = SampleFormat::I32(Layout::Planar);
    let planes = vec![i32s(&[0x4000_0000]), i32s(&[-0x2000_0000])];
    assert_eq!(mono(format, 2, 1, planes), vec![0.125]);
}

#[test]
fn packed_singles() {
    let format = SampleFormat::Single(Layout::Packed);
    let values = [0.1f32, 0.7, -0.3, 1e-40, 3.5, -3.25];
    assert_eq!(mono(format, 1, 6, vec![f32s(&values)]), values.to_vec());
    let three: Vec<f32> =
        values.chunks(3).map(|c| (((0.0f32 + c[0]) + c[1]) + c[2]) / 3.0).collect();
    assert_eq!(mono(format, 3, 2, vec![f32s(&values)]), three);
}

#[test]
fn planar_singles() {
    let format = SampleFormat::Single(Layout::Planar);
    let (a, b) = ([0.1f32, -0.9], [0.2f32, 0.35]);
    let expected = vec![(0.1f32 + 0.2) / 2.0, (-0.9f32 + 0.35) / 2.0];
    assert_eq!(mono(format, 2, 2, vec![f32s(&a), f32s(&b)]), expected);
}

#[test]
fn short_planes_are_silent_past_their_end() {
    let i16_packed = SampleFormat::I16(Layout::Packed);
    // an odd byte is no sample
    assert_eq!(mono(i16_packed, 1, 3, vec![vec![0, 0x40, 0]]), vec![0.5, 0.0, 0.0]);
    let i32_packed = SampleFormat::I32(Layout::Packed);
    assert_eq!(mono(i32_packed, 1, 2, vec![vec![0, 0, 0, 0x40, 0, 0, 0]]), vec![0.5, 0.0]);
    let singles = SampleFormat::Single(Layout::Planar);
    let planes = vec![f32s(&[0.5, 0.5]), f32s(&[0.5])];
    assert_eq!(mono(singles, 2, 2, planes), vec![0.5, 0.25]);
}

#[test]
fn unknown_formats_are_silent() {
    assert_eq!(mono(SampleFormat::Unknown, 2, 2, vec![]), vec![0.0, 0.0]);
    assert_eq!(mono(SampleFormat::Unknown, 1, 1, vec![vec![7; 8]]), vec![0.0]);
}

#[test]
fn packed_u8() {
    let format = SampleFormat::U8(Layout::Packed);
    let all: Vec<u8> = (0..=255).collect();
    let expected: Vec<f32> = all.iter().map(|&b| (b as f32 - 128.0) / 128.0).collect();
    assert_eq!(mono(format, 1, 256, vec![all]), expected);
    assert_eq!(expected[0], -1.0);
    assert_eq!(expected[192], 0.5);
    // past the end of the plane
    assert_eq!(mono(format, 2, 2, vec![vec![192, 64, 0]]), vec![0.0, -0.5]);
}

#[test]
fn planar_u8() {
    let format = SampleFormat::U8(Layout::Planar);
    assert_eq!(mono(format, 2, 2, vec![vec![192, 0], vec![128, 128]]), vec![0.25, -0.5]);
}

#[test]
fn packed_i64() {
    let format = SampleFormat::I64(Layout::Packed);
    let values =
        [i64::MIN, i64::MIN + 1, -1, 0, 1, i64::MAX, 1 << 62, -(1 << 61), 1_234_567_890_123_456_789];
    let bytes: Vec<u8> = values.iter().flat_map(|v| v.to_le_bytes()).collect();
    let expected: Vec<f32> = values.iter().map(|&v| v as f32 / 9223372036854775808.0).collect();
    assert_eq!(mono(format, 1, 9, vec![bytes.clone()]), expected);
    assert_eq!(mono(format, 1, 1, vec![bytes[..7].to_vec()]), vec![0.0]);
}

#[test]
fn planar_i64() {
    let format = SampleFormat::I64(Layout::Planar);
    let planes = vec![(1i64 << 62).to_le_bytes().to_vec(), (-(1i64 << 61)).to_le_bytes().to_vec()];
    assert_eq!(mono(format, 2, 1, planes), vec![0.125]);
}

#[test]
fn packed_doubles() {
    let format = SampleFormat::Double(Layout::Packed);
    let values = [
        0.5f64, -0.25, 0.1, 1e-40, 1e-60, 1e300, -1e300, f64::INFINITY, 0.1f32 as f64, 1.0 / 3.0,
    ];
    let bytes: Vec<u8> = values.iter().flat_map(|v| v.to_le_bytes()).collect();
    let expected: Vec<f32> = values.iter().map(|&v| v as f32).collect();
    assert_eq!(mono(format, 1, 10, vec![bytes.clone()]), expected);
    assert!(mono(format, 1, 1, vec![f64::NAN.to_le_bytes().to_vec()])[0].is_nan());
    assert_eq!(mono(format, 1, 2, vec![bytes[..15].to_vec()]), vec![0.5, 0.0]);
}

#[test]
fn planar_doubles() {
    let format = SampleFormat::Double(Layout::Planar);
    let planes = vec![0.5f64.to_le_bytes().to_vec(), (-0.25f64).to_le_bytes().to_vec()];
    assert_eq!(mono(format, 2, 1, planes), vec![0.125]);
}

#[test]
fn half_a_double_has_half_the_amplitude() {
    let out = mono(SampleFormat::Double(Layout::Packed), 1, 1, vec![0.5f64.to_le_bytes().to_vec()]);
    assert_eq!(sample::quantize(Sample { bits: out[0].to_bits() }), 16383);
}

#[test]
fn layout_and_order_of_channels_do_not_matter() {
    let rows: Vec<[i16; 4]> = vec![[1, -2, 30000, 5], [-32768, -32768, 7, 9], [0, 0, 0, 1]];
    let packed: Vec<i16> = rows.iter().flatten().copied().collect();
    let expected = mono(SampleFormat::I16(Layout::Packed), 4, 3, vec![i16s(&packed)]);
    for order in [[0usize, 1, 2, 3], [3, 2, 1, 0], [2, 0, 3, 1]] {
        let planes: Vec<Vec<u8>> = order
            .iter()
            .map(|&c| i16s(&rows.iter().map(|r| r[c]).collect::<Vec<i16>>()))
            .collect();
        assert_eq!(mono(SampleFormat::I16(Layout::Planar), 4, 3, planes), expected);
    }
}

#[test]
fn equal_channels_are_one() {
    let values = [12345i16, -32768, 32767, 0, -1];
    let one = mono(SampleFormat::I16(Layout::Packed), 1, 5, vec![i16s(&values)]);
    for channels in [2u16, 3, 7, 512] {
        let many: Vec<i16> =
            values.iter().flat_map(|&v| vec![v; channels as usize]).collect();
        assert_eq!(mono(SampleFormat::I16(Layout::Packed), channels, 5, vec![i16s(&many)]), one);
    }
}

#[test]
fn no_channels_make_no_number() {
    let out = mono(SampleFormat::I16(Layout::Packed), 0, 2, vec![]);
    assert_eq!(out.len(), 2);
    assert!(out[0].is_nan() && out[1].is_nan());
}

#[test]
fn planes_that_are_read_have_to_exist() {
    let frame = |format: SampleFormat, channels: u16, samples: usize, planes: usize| DecodedFrame {
        rate: 1,
        channels,
        samples,
        format,
        planes: vec![vec![]; planes],
    };
    for packed in [
        SampleFormat::U8(Layout::Packed),
        SampleFormat::I16(Layout::Packed),
        SampleFormat::I32(Layout::Packed),
        SampleFormat::I64(Layout::Packed),
        SampleFormat::Single(Layout::Packed),
        SampleFormat::Double(Layout::Packed),
    ] {
        assert!(!frame(packed, 2, 1, 0).is_well_formed());
        assert!(frame(packed, 2, 1, 1).is_well_formed());
    }
    assert!(!frame(SampleFormat::Double(Layout::Planar), 3, 1, 2).is_well_formed());
    assert!(!frame(SampleFormat::Single(Layout::Planar), 2, 1, 1).is_well_formed());
    assert!(frame(SampleFormat::Single(Layout::Planar), 2, 1, 2).is_well_formed());
    assert!(frame(SampleFormat::Single(Layout::Planar), 2, 0, 0).is_well_formed());
}

#[test]
fn i16_is_exact_and_loses_one_step() {
    let values: Vec<i16> = (i16::MIN..=i16::MAX).collect();
    let out = mono(SampleFormat::I16(Layout::Packed), 1, values.len(), vec![i16s(&values)]);
    for (v, x) in values.iter().zip(out) {
        assert_eq!(x as f64 * 32768.0, *v as f64);
        let again = sample::quantize(Sample { bits: x.to_bits() });
        assert_eq!(again as i32, *v as i32 - (*v as i32).signum());
    }
}
