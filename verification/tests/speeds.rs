use speech_audio::audio::apply_speed;
use speech_audio::sample::Sample;
use speech_audio::stretch;

fn of(x: f32) -> Sample {
    Sample { bits: x.to_bits() }
}

fn all_of(xs: &[f32]) -> Vec<Sample> {
    xs.iter().map(|&x| of(x)).collect()
}

fn bits_of(xs: &[f32]) -> Vec<u32> {
    xs.iter().map(|x| x.to_bits()).collect()
}

fn sped(xs: &[f32], speed: f32) -> Vec<u32> {
    apply_speed(&all_of(xs), of(speed)).iter().map(|s| s.bits).collect()
}

fn resampled(xs: &[f32], from: u32, to: u32) -> Vec<u32> {
    stretch::resample(&all_of(xs), from, to).iter().map(|s| s.bits).collect()
}

fn read_all(xs: &[f32], count: usize, position: impl Fn(usize) -> f64) -> Vec<f32> {
    let mut out = Vec::new();
    for i in 0..count {
        let at = position(i);
        let index = at as usize;
        let part = (at - index as f64) as f32;
        if index + 1 < xs.len() {
            out.push(xs[index] * (1.0 - part) + xs[index + 1] * part);
        } else if index < xs.len() {
            out.push(xs[index]);
        }
    }
    out
}

fn wave(length: usize) -> Vec<f32> {
    (0..length).map(|i| (i as f32 * 0.113).sin() * 0.9).collect()
}

#[test]
fn speed_one_keeps_samples() {
    let xs = wave(17);
    for speed in [1.0f32, 0.99999994, 0.9999999] {
        if (speed - 1.0).abs() < f32::EPSILON {
            assert!(stretch::is_near_one(of(speed)));
            assert_eq!(sped(&xs, speed), bits_of(&xs));
        }
    }
    assert!(stretch::is_near_one(of(0.99999994)));
    assert!(!stretch::is_near_one(of(1.0000001)));
    assert!(!stretch::is_near_one(of(f32::NAN)));
    assert!(!stretch::is_near_one(of(f32::INFINITY)));
}

#[test]
fn no_samples_at_any_speed() {
    assert_eq!(sped(&[], 2.0), Vec::<u32>::new());
    assert_eq!(sped(&[], 0.0), Vec::<u32>::new());
}

#[test]
fn double_speed_takes_every_second_sample() {
    assert_eq!(sped(&[0.0, 0.1, 0.2, 0.3, 0.4, 0.5], 2.0), bits_of(&[0.0, 0.2, 0.4]));
}

#[test]
fn half_speed_blends_between() {
    assert_eq!(sped(&[0.0, 1.0], 0.5), bits_of(&[0.0, 0.5, 1.0, 1.0]));
    assert_eq!(sped(&[0.25], 0.25), bits_of(&[0.25, 0.25, 0.25, 0.25]));
}

#[test]
fn speed_without_any_output_keeps_samples() {
    let xs = [0.1f32, 0.2, 0.3];
    for speed in [4.0f32, 1e30, f32::INFINITY, -1.0, -0.5, f32::NEG_INFINITY, f32::NAN] {
        assert_eq!(stretch::length_at_speed(3, of(speed)), 0);
        assert_eq!(sped(&xs, speed), bits_of(&xs));
    }
}

#[test]
fn speed_zero_asks_for_the_largest_length() {
    assert_eq!(stretch::length_at_speed(3, of(0.0)), usize::MAX);
    assert_eq!(stretch::length_at_speed(3, of(1e-30)), usize::MAX);
}

#[test]
fn speed_lengths() {
    assert_eq!(stretch::length_at_speed(24000, of(1.5)), 16000);
    assert_eq!(stretch::length_at_speed(100, of(0.25)), 400);
    assert_eq!(stretch::length_at_speed(100, of(3.0)), 33);
    assert_eq!(stretch::length_at_speed(10, of(1.1)), (10.0 / 1.1f32 as f64) as usize);
}

#[test]
fn speeds_as_in_hardware() {
    let xs = wave(301);
    for speed in [0.25f32, 0.33, 0.5, 0.75, 0.9, 0.999, 1.001, 1.1, 1.25, 1.7, 2.0, 3.3, 4.0, 77.7] {
        let count = (xs.len() as f64 / speed as f64) as usize;
        let expected = read_all(&xs, count, |i| i as f64 * speed as f64);
        assert_eq!(sped(&xs, speed), bits_of(&expected), "{}", speed);
        if speed > 1.0 {
            assert!(expected.len() < xs.len());
        } else {
            assert!(expected.len() >= xs.len());
        }
        // the first sample stays
        assert_eq!(f32::from_bits(sped(&xs, speed)[0]), xs[0]);
    }
}

#[test]
fn same_rate_keeps_samples() {
    let xs = wave(9);
    assert_eq!(resampled(&xs, 16000, 16000), bits_of(&xs));
    assert_eq!(resampled(&xs, 0, 0), bits_of(&xs));
}

#[test]
fn rate_lengths() {
    assert_eq!(stretch::length_at_rate(44100, 44100, 16000), 16000);
    assert_eq!(stretch::length_at_rate(8000, 8000, 16000), 16000);
    assert_eq!(stretch::length_at_rate(5, 3, 2), 3);
    assert_eq!(stretch::length_at_rate(5, 16000, 0), 0);
    assert_eq!(stretch::length_at_rate(5, 0, 16000), usize::MAX);
}

#[test]
fn rates_as_in_hardware() {
    let xs = wave(250);
    for (from, to) in
        [(44100u32, 16000u32), (48000, 16000), (8000, 16000), (22050, 24000), (3, 7), (16000, 15999)]
    {
        let ratio = to as f64 / from as f64;
        let count = (xs.len() as f64 * ratio) as usize;
        let expected = read_all(&xs, count, |i| i as f64 / ratio);
        assert_eq!(resampled(&xs, from, to), bits_of(&expected), "{} to {}", from, to);
        if to < from {
            assert!(expected.len() < xs.len());
        } else {
            assert!(expected.len() >= xs.len());
        }
    }
    assert_eq!(resampled(&[0.0, 1.0], 1, 2), bits_of(&[0.0, 0.5, 1.0, 1.0]));
}

#[test]
fn copies_hold_the_same_bits() {
    let xs = [f32::NAN, -0.0, f32::INFINITY, 0.3];
    let copy = stretch::copied(&all_of(&xs));
    assert_eq!(copy.iter().map(|s| s.bits).collect::<Vec<u32>>(), bits_of(&xs));
}

#[test]
fn whole_speeds_pick_samples() {
    let xs = wave(1000);
    for m in [2usize, 3, 7, 10, 333, 1000] {
        let picked: Vec<f32> = xs.iter().step_by(m).take(1000 / m).copied().collect();
        let out: Vec<f32> = sped(&xs, m as f32).iter().map(|&b| f32::from_bits(b)).collect();
        assert_eq!(out, picked, "{}", m);
    }
}

#[test]
fn no_position_is_skipped() {
    for length in [1usize, 2, 3, 10, 99, 1000] {
        let xs = wave(length);
        for speed in [0.1f32, 0.3, 0.7, 0.999, 1.001, 1.3, 2.7, 9.9] {
            let count = stretch::length_at_speed(length, of(speed));
            if count > 0 {
                assert_eq!(sped(&xs, speed).len(), count);
            }
            if speed < 1.0 && count > length {
                assert!(sped(&xs, speed).len() > length);
            }
        }
        for (from, to) in [(44100u32, 16000u32), (8000, 16000), (22050, 24000), (3, 7), (7, 3)] {
            let count = stretch::length_at_rate(length, from, to);
            assert_eq!(resampled(&xs, from, to).len(), count);
        }
    }
}

#[test]
fn full_scale_is_not_left() {
    let mut bits: u32 = 3;
    let mut xs = Vec::new();
    for _ in 0..2000 {
        bits = bits.wrapping_mul(1_664_525).wrapping_add(1_013_904_223);
        xs.push(match bits >> 30 {
            0 => 1.0,
            1 => -1.0,
            _ => (bits % 2001) as f32 / 1000.0 - 1.0,
        });
    }
    for speed in [0.3f32, 0.77, 0.999, 1.0001, 1.3, 3.9] {
        assert!(sped(&xs, speed).iter().all(|&b| f32::from_bits(b).abs() <= 1.0));
    }
    for (from, to) in [(44100u32, 16000u32), (8000, 11025), (16000, 16001)] {
        assert!(resampled(&xs, from, to).iter().all(|&b| f32::from_bits(b).abs() <= 1.0));
    }
}
