use speech_audio::number;
use speech_audio::number::Number;
use speech_audio::rounding::Width;

fn single(x: f32) -> Number {
    let bits = x.to_bits();
    Number { negative: bits >> 31 == 1, code: (bits & 0x7fff_ffff) as u64 }
}

fn double(x: f64) -> Number {
    let bits = x.to_bits();
    Number { negative: bits >> 63 == 1, code: bits & 0x7fff_ffff_ffff_ffff }
}

/// Equal bits, or both no number.
fn same_single(x: Number, y: f32) -> bool {
    x == single(y) || (x.code > 0x7f80_0000 && y.is_nan())
}

fn same_double(x: Number, y: f64) -> bool {
    x == double(y) || (x.code > 0x7ff0_0000_0000_0000 && y.is_nan())
}

struct Random(u64);

impl Random {
    fn next(&mut self) -> u64 {
        self.0 ^= self.0 << 13;
        self.0 ^= self.0 >> 7;
        self.0 ^= self.0 << 17;
        self.0
    }
}

const SINGLES: [u32; 22] = [
    0x0000_0000, 0x8000_0000, 0x0000_0001, 0x8000_0001, 0x007f_ffff, 0x0080_0000, 0x0080_0001,
    0x3f80_0000, 0xbf80_0000, 0x3f7f_ffff, 0x3f80_0001, 0x46ff_fe00, 0x3400_0000, 0x3380_0000,
    0x7f7f_ffff, 0xff7f_ffff, 0x7f80_0000, 0xff80_0000, 0x7fc0_0000, 0x7f80_0001, 0x4b7f_ffff,
    0x4b80_0000,
];

fn check_singles(x: f32, y: f32) {
    let (a, b) = (single(x), single(y));
    assert!(same_single(number::multiply(Width::Single, a, b), x * y), "{:e} * {:e}", x, y);
    assert!(same_single(number::divide(Width::Single, a, b), x / y), "{:e} / {:e}", x, y);
    assert!(same_single(number::add_numbers(Width::Single, a, b), x + y), "{:e} + {:e}", x, y);
    assert!(same_single(number::subtract(Width::Single, a, b), x - y), "{:e} - {:e}", x, y);
    assert!(same_double(number::widen(a), x as f64), "{:e}", x);
}

fn check_doubles(x: f64, y: f64) {
    let (a, b) = (double(x), double(y));
    assert!(same_double(number::multiply(Width::Double, a, b), x * y), "{:e} * {:e}", x, y);
    assert!(same_double(number::divide(Width::Double, a, b), x / y), "{:e} / {:e}", x, y);
    assert!(same_double(number::add_numbers(Width::Double, a, b), x + y), "{:e} + {:e}", x, y);
    assert!(same_double(number::subtract(Width::Double, a, b), x - y), "{:e} - {:e}", x, y);
    assert!(same_single(number::narrow(a), x as f32), "{:e}", x);
    if x.is_finite() {
        assert_eq!(number::truncate_to(Width::Double, a, u64::MAX), x.abs() as u64);
    }
}

#[test]
fn singles_of_every_kind() {
    for &x in SINGLES.iter() {
        for &y in SINGLES.iter() {
            check_singles(f32::from_bits(x), f32::from_bits(y));
        }
    }
}

#[test]
fn singles_at_random() {
    let mut random = Random(0x1234_5678_9abc_def1);
    for _ in 0..40_000 {
        let n = random.next();
        check_singles(f32::from_bits(n as u32), f32::from_bits((n >> 32) as u32));
        // close exponents
        let y = ((n >> 32) as u32 & 0x81ff_ffff) | (n as u32 & 0x7e00_0000);
        check_singles(f32::from_bits(n as u32), f32::from_bits(y));
    }
}

#[test]
fn doubles_of_every_kind() {
    for &x in SINGLES.iter() {
        for &y in SINGLES.iter() {
            check_doubles(f32::from_bits(x) as f64, f32::from_bits(y) as f64);
        }
    }
    let edges = [
        0x0000_0000_0000_0001u64, 0x000f_ffff_ffff_ffff, 0x0010_0000_0000_0000,
        0x3fef_ffff_ffff_ffff, 0x3ff0_0000_0000_0001, 0x43ef_ffff_ffff_ffff,
        0x43f0_0000_0000_0000, 0x47ef_ffff_efff_ffff, 0x47ef_ffff_f000_0000,
        0x36a0_0000_0000_0000, 0x3690_0000_0000_0000, 0x3690_0000_0000_0001,
        0x7fef_ffff_ffff_ffff,
    ];
    for &x in edges.iter() {
        for &y in edges.iter() {
            check_doubles(f64::from_bits(x), f64::from_bits(y));
            check_doubles(-f64::from_bits(x), f64::from_bits(y));
        }
    }
}

#[test]
fn doubles_at_random() {
    let mut random = Random(0x0fed_cba9_8765_4321);
    for _ in 0..40_000 {
        let (x, y) = (random.next(), random.next());
        check_doubles(f64::from_bits(x), f64::from_bits(y));
        let near = (y & 0x803f_ffff_ffff_ffff) | (x & 0x7fc0_0000_0000_0000);
        check_doubles(f64::from_bits(x), f64::from_bits(near));
        // the magnitudes of lengths and rates
        check_doubles((x >> (y % 64)) as f64, (y >> (x % 64)) as f64 / 1024.0);
    }
}

#[test]
fn whole_numbers() {
    let mut random = Random(77);
    for i in 0..20_000u64 {
        let n = random.next() >> (i % 64);
        assert_eq!(number::from_whole(Width::Single, false, n), single(n as f32));
        assert_eq!(number::from_whole(Width::Double, true, n), double(-(n as f64)));
    }
    assert_eq!(number::from_whole(Width::Single, false, 16_777_217), single(16_777_216.0));
    assert_eq!(number::from_whole(Width::Single, false, 16_777_219), single(16_777_220.0));
}

#[test]
fn truncation_stops_at_the_limit() {
    assert_eq!(number::truncate_to(Width::Double, double(255.9), 300), 255);
    assert_eq!(number::truncate_to(Width::Double, double(255.9), 255), 255);
    assert_eq!(number::truncate_to(Width::Double, double(255.9), 254), 254);
    assert_eq!(number::truncate_to(Width::Double, double(1e300), u64::MAX), u64::MAX);
    assert_eq!(number::truncate_to(Width::Double, double(-0.75), 10), 0);
}
