use uaps::decimal::{decimal, decimal_signed, fill, hexadecimal, parse_double, to_fixed, to_shortest};
use uaps::double::{greatest_of, total_of, Double};
use uaps::metric::Duration;
use uaps::natural::Natural;

fn d(x: f64) -> Double {
    Double::from_bits(x.to_bits())
}

fn f(x: Double) -> f64 {
    f64::from_bits(x.bits)
}

/// Pseudo-random bits.
struct Bits(u64);

impl Bits {
    fn next(&mut self) -> u64 {
        self.0 = self.0.wrapping_mul(6364136223846793005).wrapping_add(1442695040888963407);
        let x = self.0 ^ (self.0 >> 29);
        x.wrapping_mul(0x9E3779B97F4A7C15) ^ (x >> 31)
    }
}

fn samples() -> Vec<f64> {
    let mut v = vec![
        0.0,
        -0.0,
        1.0,
        -1.0,
        0.5,
        1.5,
        2.5,
        0.1,
        0.3,
        100.0,
        1e9,
        9e18,
        -9e18,
        1e300,
        -1e300,
        1e-300,
        5e-324,
        2.2250738585072014e-308,
        f64::MAX,
        f64::MIN,
        f64::INFINITY,
        f64::NEG_INFINITY,
        f64::NAN,
        9007199254740993.0,
        4503599627370496.5,
        123456.789,
    ];
    let mut bits = Bits(7);
    for _ in 0..24 {
        v.push(f64::from_bits(bits.next()));
    }
    for _ in 0..16 {
        v.push((bits.next() % 1000000) as f64 / 997.0);
    }
    v
}

fn same_number(a: f64, b: f64) -> bool {
    if a.is_nan() {
        b.is_nan()
    } else {
        a.to_bits() == b.to_bits()
    }
}

#[test]
fn arithmetic_matches_the_hardware() {
    let v = samples();
    for &a in &v {
        for &b in &v {
            assert!(same_number(a + b, f(d(a).plus(d(b)))), "{a} + {b}");
            assert!(same_number(a - b, f(d(a).minus(d(b)))), "{a} - {b}");
            assert!(same_number(a * b, f(d(a).times(d(b)))), "{a} * {b}");
            assert!(same_number(a / b, f(d(a).over(d(b)))), "{a} / {b}");
        }
    }
}

#[test]
fn comparisons_match_the_hardware() {
    let v = samples();
    for &a in &v {
        for &b in &v {
            assert_eq!(a < b, d(a).lt(d(b)), "{a} < {b}");
            assert_eq!(a <= b, d(a).le(d(b)), "{a} <= {b}");
            assert_eq!(a == b, d(a).same(d(b)), "{a} == {b}");
            let m = f(d(a).max(d(b)));
            assert!(m == a.max(b) || (m.is_nan() && a.is_nan() && b.is_nan()), "max {a} {b}");
            let m = f(d(a).min(d(b)));
            assert!(m == a.min(b) || (m.is_nan() && a.is_nan() && b.is_nan()), "min {a} {b}");
        }
        let c = f(d(a).clamp(d(0.0), d(100.0)));
        assert!(same_number(a.clamp(0.0, 100.0), c), "clamp {a}");
        assert!(same_number(-a, f(d(a).negate())) || a.is_nan());
        assert_eq!(a.is_finite(), d(a).finite());
        assert_eq!(a.is_nan(), d(a).nan());
    }
}

#[test]
fn conversions_match_the_language() {
    for &a in &samples() {
        assert_eq!(a as u64, d(a).to_u64(), "{a}");
        assert_eq!(a as i64, d(a).to_i64(), "{a}");
        if a.is_finite() {
            assert_eq!(a.fract() == 0.0, d(a).is_whole(), "{a}");
        }
    }
    let mut bits = Bits(11);
    for _ in 0..200 {
        let n = bits.next() >> (bits.next() % 64);
        assert_eq!((n as f64).to_bits(), Double::from_u64(n).bits, "{n}");
        let i = bits.next() as i64;
        assert_eq!((i as f64).to_bits(), Double::from_i64(i).bits, "{i}");
    }
    assert_eq!((u64::MAX as f64).to_bits(), Double::from_u64(u64::MAX).bits);
    assert_eq!((i64::MIN as f64).to_bits(), Double::from_i64(i64::MIN).bits);
}

#[test]
fn sums_and_maxima_match_iterators() {
    let lists: Vec<Vec<f64>> = vec![
        vec![],
        vec![0.1, 0.2, 0.3],
        vec![1e16, 1.0, -1e16],
        vec![-0.0],
        vec![3.0, f64::NAN, 2.0],
    ];
    for l in lists {
        let v: Vec<Double> = l.iter().map(|x| d(*x)).collect();
        let sum: f64 = l.iter().sum();
        assert!(same_number(sum, f(total_of(&v))), "{l:?}");
        let most = l.iter().cloned().fold(f64::MIN, f64::max);
        assert!(same_number(most, f(greatest_of(d(f64::MIN), &v))), "{l:?}");
    }
}

#[test]
fn fixed_decimals_match_the_formatter() {
    for &a in &samples() {
        if a.abs() > 1e30 && a.is_finite() {
            continue;
        }
        assert_eq!(format!("{a:.0}"), to_fixed(d(a), 0));
        assert_eq!(format!("{a:.1}"), to_fixed(d(a), 1));
        assert_eq!(format!("{a:.2}"), to_fixed(d(a), 2));
        assert_eq!(format!("{a:.3}"), to_fixed(d(a), 3));
    }
    assert_eq!(to_fixed(d(0.5), 0), "0");
    assert_eq!(to_fixed(d(1.5), 0), "2");
    assert_eq!(to_fixed(d(2.5), 0), "2");
}

#[test]
fn shortest_decimals_match_the_formatter() {
    for &a in &samples() {
        if a.is_finite() && (a == 0.0 || (a.abs() > 1e-30 && a.abs() < 1e30)) {
            assert_eq!(format!("{a}"), to_shortest(d(a)));
        }
    }
    assert_eq!(to_shortest(d(0.1)), "0.1");
    assert_eq!(to_shortest(d(1.5)), "1.5");
    assert_eq!(to_shortest(d(9007199254740993.0)), "9007199254740992");
}

#[test]
fn parsing_matches_the_language() {
    let texts = [
        "0", "-0", "1", "+1", "1.5", ".5", "5.", "1e3", "1E-3", "-2.25e+2", "0.1", "0.3",
        "123456789012345678901234567890", "1e308", "1e309", "1e-323", "1e-400",
        "2.2250738585072011e-308", "9007199254740993", "inf", "-Infinity", "NaN", "", "-", "+",
        ".", "e5", "1e", "1e+", "1 ", " 1", "0x10", "1_000", "--1", "infinit",
        "179769313486231580793728971405301e276", "0.000000000000000000000000000000000001",
    ];
    for t in texts {
        let v: Vec<char> = t.chars().collect();
        let want: Option<f64> = t.parse::<f64>().ok();
        let got: Option<f64> = parse_double(&v).map(f);
        match (want, got) {
            (Some(a), Some(b)) => assert!(same_number(a, b), "{t}: {a} {b}"),
            (None, None) => {}
            _ => panic!("{t}: {want:?} {got:?}"),
        }
    }
}

#[test]
fn shortest_decimals_read_back() {
    for &a in &samples() {
        if a.is_finite() && (a == 0.0 || (a.abs() > 1e-30 && a.abs() < 1e30)) {
            let v: Vec<char> = to_shortest(d(a)).chars().collect();
            assert_eq!(parse_double(&v).unwrap().bits, a.to_bits());
        }
    }
}

#[test]
fn numerals_match_the_formatter() {
    for n in [0u64, 1, 9, 10, 255, 4096, 1234567890, u64::MAX] {
        assert_eq!(decimal(n), format!("{n}"));
        assert_eq!(hexadecimal(n, false), format!("{n:x}"));
        assert_eq!(hexadecimal(n, true), format!("{n:X}"));
    }
    for i in [0i64, -1, 42, i64::MIN, i64::MAX] {
        assert_eq!(decimal_signed(i), format!("{i}"));
    }
    assert_eq!(fill("1f", 4), "001f");
    assert_eq!(fill("12345", 4), "12345");
}

#[test]
fn naturals_compute_exactly() {
    let a = Natural::from_u64(u64::MAX);
    let b = a.shl(70).plus(&Natural::from_u64(12345));
    let (q, r) = b.div_rem(&a);
    assert!(q.minus(&Natural::from_u64(1).shl(70)).unwrap().is_zero());
    assert_eq!(r.to_u64(), 12345);
    assert!(a.minus(&b).is_none());
    assert_eq!(Natural::from_u64(1000).times_u64(1000).to_u64(), 1000000);
    let (q, r) = Natural::from_u64(1000001).div_small(1000);
    assert_eq!((q.to_u64(), r), (1000, 1));
}

#[test]
fn spans_of_time_match_the_library() {
    for x in [0.0, 1.0, 1.5, 0.1, 1e-9, 4.9e-10, 0.4999999995, 2.5, 1e10, 1.7e19] {
        let want = std::time::Duration::from_secs_f64(x);
        let got = Duration::checked_from_secs(d(x)).unwrap();
        assert_eq!((want.as_secs(), want.subsec_nanos()), (got.secs, got.nanos), "{x}");
        assert_eq!(want.as_secs_f64().to_bits(), got.as_secs().bits);
    }
    for x in [-1.0, 1e20, f64::INFINITY, f64::NAN] {
        assert!(Duration::checked_from_secs(d(x)).is_none(), "{x}");
    }
    assert!(Duration::checked_from_secs(d(-0.0)).is_some());
    let a = Duration::new(5, 250000000);
    let b = Duration::new(3, 750000000);
    assert_eq!(a.since(b), Duration::new(1, 500000000));
    assert_eq!(b.since(a), Duration::new(0, 0));
    assert_eq!(Duration::from_millis(1500), Duration::new(1, 500000000));
}
