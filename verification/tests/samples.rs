use speech_audio::pcm;
use speech_audio::sample;
use speech_audio::sample::Sample;

fn of(x: f32) -> Sample {
    Sample { bits: x.to_bits() }
}

fn expected(x: f32) -> i16 {
    (x.clamp(-1.0, 1.0) * 32767.0) as i16
}

#[test]
fn quantize_exact_values() {
    assert_eq!(sample::quantize(of(0.0)), 0);
    assert_eq!(sample::quantize(of(-0.0)), 0);
    assert_eq!(sample::quantize(of(0.5)), 16383);
    assert_eq!(sample::quantize(of(-0.5)), -16383);
    assert_eq!(sample::quantize(of(0.25)), 8191);
    assert_eq!(sample::quantize(of(0.00003)), 0);
    assert_eq!(sample::quantize(of(0.000031)), 1);
    assert_eq!(sample::quantize(of(0.99999994)), 32766);
}

#[test]
fn quantize_clips_both_ends() {
    for x in [1.0f32, 1.0000001, 2.5, 1e30, f32::MAX, f32::INFINITY] {
        assert_eq!(sample::quantize(of(x)), 32767);
        assert_eq!(sample::quantize(of(-x)), -32767);
    }
}

#[test]
fn quantize_silences_nan() {
    for bits in [0x7fc0_0000u32, 0xffc0_0000, 0x7f80_0001, 0xffff_ffff] {
        assert_eq!(sample::quantize(Sample { bits }), 0);
    }
}

#[test]
fn quantize_is_odd_and_keeps_order() {
    let mut last = -32768i16;
    for i in -3000i32..=3000 {
        let x = i as f32 / 2500.0;
        let q = sample::quantize(of(x));
        assert_eq!(q, expected(x));
        assert_eq!(sample::quantize(of(-x)), -q);
        assert!(q >= last);
        last = q;
    }
}

#[test]
fn quantize_any_bits() {
    let mut bits: u32 = 1;
    for _ in 0..100_000 {
        bits = bits.wrapping_mul(1_664_525).wrapping_add(1_013_904_223);
        assert_eq!(sample::quantize(Sample { bits }), expected(f32::from_bits(bits)));
        // magnitudes near one
        let near = (bits & 0x80ff_ffff) | 0x3f00_0000;
        assert_eq!(sample::quantize(Sample { bits: near }), expected(f32::from_bits(near)));
    }
}

#[test]
fn clamp_keeps_what_is_within() {
    let half = of(0.5).to_number();
    assert_eq!(sample::clamp(half), half);
    assert_eq!(sample::clamp(of(-7.0).to_number()), of(-1.0).to_number());
    assert_eq!(sample::clamp(of(f32::INFINITY).to_number()), of(1.0).to_number());
    let nan = of(f32::NAN).to_number();
    assert_eq!(sample::clamp(nan), nan);
}

#[test]
fn to_i16_saturates() {
    assert_eq!(sample::to_i16(of(32767.9).to_number()), 32767);
    assert_eq!(sample::to_i16(of(40000.0).to_number()), 32767);
    assert_eq!(sample::to_i16(of(-40000.0).to_number()), -32768);
    assert_eq!(sample::to_i16(of(f32::NEG_INFINITY).to_number()), -32768);
    assert_eq!(sample::to_i16(of(-12.75).to_number()), -12);
    assert_eq!(sample::to_i16(of(f32::NAN).to_number()), 0);
}

#[test]
fn samples_are_their_numbers() {
    for bits in [0u32, 0x8000_0000, 0x3f80_0000, 0xbf80_0000, 0x7f80_0000, 0xffc0_1234] {
        assert_eq!(Sample::from_number(Sample { bits }.to_number()).bits, bits);
    }
}

#[test]
fn pcm_bytes() {
    let samples = [of(0.0), of(1.0), of(-1.0), of(0.5), of(f32::NAN), of(-2.0)];
    assert_eq!(
        pcm::encode_pcm(&samples),
        vec![0, 0, 0xff, 0x7f, 0x01, 0x80, 0xff, 0x3f, 0, 0, 0x01, 0x80]
    );
    assert_eq!(pcm::encode_pcm(&[]), Vec::<u8>::new());
}

#[test]
fn pcm_joins() {
    let samples: Vec<Sample> = (0..50).map(|i| of((i as f32 * 0.37).sin())).collect();
    let mut joined = pcm::encode_pcm(&samples[..20]);
    joined.extend(pcm::encode_pcm(&samples[20..]));
    assert_eq!(joined, pcm::encode_pcm(&samples));
    for i in 0..50 {
        let v = pcm::from_bytes(joined[2 * i], joined[2 * i + 1]);
        assert_eq!(v, sample::quantize(samples[i]));
    }
}

#[test]
fn bytes_of_every_amplitude() {
    for v in i16::MIN..=i16::MAX {
        let (low, high) = pcm::to_bytes(v);
        assert_eq!([low, high], v.to_le_bytes());
        assert_eq!(pcm::from_bytes(low, high), v);
    }
}

#[test]
fn quantize_is_close() {
    for i in -4000i32..=4000 {
        let x = i as f32 / 3333.0;
        let exact = x.clamp(-1.0, 1.0) as f64 * 32767.0;
        assert!((sample::quantize(of(x)) as f64 - exact).abs() < 1.0);
    }
}
