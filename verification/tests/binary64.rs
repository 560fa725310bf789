//! The arithmetic on bit patterns, held against the machine's own.

use arnis::binary64::F64;

fn f(x: f64) -> F64 {
    F64::from_bits(x.to_bits())
}

fn same(got: F64, want: f64) -> bool {
    if want.is_nan() {
        got.is_nan()
    } else {
        got.to_bits() == want.to_bits()
    }
}

fn specials() -> Vec<f64> {
    vec![
        0.0,
        -0.0,
        1.0,
        -1.0,
        0.5,
        -0.5,
        1.5,
        2.5,
        -2.5,
        0.1,
        0.3,
        3.0,
        180.0,
        -90.0,
        111_320.0,
        6_371_000.0,
        1e-6,
        2147483647.0,
        -2147483648.0,
        2147483648.0,
        4503599627370496.0,
        9007199254740993.0,
        1e22,
        1e300,
        -1e300,
        f64::MAX,
        f64::MIN,
        f64::MIN_POSITIVE,
        f64::EPSILON,
        5e-324,
        -5e-324,
        2.2250738585072011e-308,
        f64::INFINITY,
        f64::NEG_INFINITY,
        f64::NAN,
    ]
}

struct Random(u64);

impl Random {
    fn next(&mut self) -> u64 {
        self.0 = self.0.wrapping_mul(6364136223846793005).wrapping_add(1442695040888963407);
        let x = self.0;
        (x ^ (x >> 33)).wrapping_mul(0xff51afd7ed558ccd) ^ (x >> 29)
    }

    fn any(&mut self) -> f64 {
        f64::from_bits(self.next())
    }

    /// A number whose exponent is near that of one.
    fn near(&mut self) -> f64 {
        let bits = self.next();
        let exponent = 1023 - 30 + (self.next() % 60);
        f64::from_bits((bits & 0x800f_ffff_ffff_ffff) | (exponent << 52))
    }
}

fn check_pair(a: f64, b: f64) {
    assert!(same(f(a).plus(f(b)), a + b), "{a:e} + {b:e}");
    assert!(same(f(a).minus(f(b)), a - b), "{a:e} - {b:e}");
    assert!(same(f(a).times(f(b)), a * b), "{a:e} * {b:e}");
    assert!(same(f(a).over(f(b)), a / b), "{a:e} / {b:e}");
    assert_eq!(f(a).lt(f(b)), a < b, "{a:e} < {b:e}");
    assert_eq!(f(a).le(f(b)), a <= b, "{a:e} <= {b:e}");
    assert_eq!(f(a) == f(b), a == b, "{a:e} == {b:e}");
}

fn check_one(a: f64) {
    assert!(same(f(a).neg(), -a) || a.is_nan(), "-{a:e}");
    assert!(same(f(a).sqrt(), a.sqrt()), "sqrt {a:e}");
    assert!(same(f(a).floor(), a.floor()), "floor {a:e}");
    assert!(same(f(a).ceil(), a.ceil()), "ceil {a:e}");
    assert!(same(f(a).round(), a.round()), "round {a:e}");
    assert_eq!(f(a).to_i32(), a as i32, "{a:e} as i32");
    assert_eq!(f(a).to_usize(), a as usize, "{a:e} as usize");
    assert_eq!(f(a).is_finite(), a.is_finite());
    assert_eq!(f(a).is_nan(), a.is_nan());
}

#[test]
fn special_values_match_the_machine() {
    for a in specials() {
        check_one(a);
        for b in specials() {
            check_pair(a, b);
        }
    }
}

#[test]
fn random_values_match_the_machine() {
    let mut r = Random(7);
    for _ in 0..20_000 {
        let (a, b) = (r.any(), r.any());
        check_one(a);
        check_pair(a, b);
        let (a, b) = (r.near(), r.near());
        check_one(a);
        check_pair(a, b);
        check_pair(a, f64::from_bits(a.to_bits() ^ (r.next() % 16)));
    }
}

#[test]
fn subnormal_results_match_the_machine() {
    let mut r = Random(11);
    for _ in 0..2_000 {
        let a = f64::from_bits(r.next() % (1u64 << 54));
        let b = f64::from_bits(r.next() % (1u64 << 54));
        check_one(a);
        check_pair(a, b);
        check_pair(a, r.near());
        check_pair(a * 1e160, 1e-160 * r.near());
    }
}

#[test]
fn integers_become_numbers() {
    for i in [0, 1, -1, 2, 511, 512, -512, 111_320, i32::MAX, i32::MIN] {
        assert_eq!(F64::from_i32(i).to_bits(), (i as f64).to_bits());
    }
    for u in [0usize, 1, 3, 1 << 40, (1 << 53) + 1, usize::MAX, usize::MAX - 1024] {
        assert_eq!(F64::from_usize(u).to_bits(), (u as f64).to_bits());
    }
}

fn parse(s: &str) -> Option<F64> {
    let chars: Vec<char> = s.chars().collect();
    F64::parse(&chars)
}

fn check_parse(s: &str) {
    match s.parse::<f64>() {
        Ok(want) => {
            let got = parse(s);
            assert!(got.is_some(), "{s} is a number");
            assert!(same(got.unwrap(), want), "{s}: {:x} != {:x}", got.unwrap().to_bits(), want.to_bits());
        }
        Err(_) => assert!(parse(s).is_none(), "{s} is not a number"),
    }
}

#[test]
fn decimal_texts_match_the_standard_parser() {
    for s in [
        "0", "-0", "+0", "1", "-1", "1.", ".5", "-.5", "+.5e1", ".", "", "-", "+", "e5", ".e5", "1e", "1e+", "1e-",
        "1e5", "1E5", "1e+5", "1e-5", "1e05", "1 ", " 1", "1_000", "0x10", "1.2.3", "--1", "+-1", "inf", "INF",
        "Infinity", "-infinity", "+inf", "nan", "NaN", "-nan", "infin", "nanx", "9.927928", "54.627053", "1e308",
        "1.7976931348623157e308", "1.7976931348623159e308", "1.797693134862315807e308", "1e309", "1e400", "1e401",
        "1e99999999999999999999999999999999999999", "0e99999999999999999999999999999999999999",
        "1e-99999999999999999999999999999999999999", "5e-324", "2.4703282292062327e-324", "2.4703282292062328e-324",
        "2.47032822920623272e-324", "1e-400", "1e-324", "9007199254740993", "9007199254740992.9999999999999999999",
        "0.1", "0.30000000000000004", "123456789012345678901234567890", "0.000000000000000000000000000001234567",
        "000000000000000000000000000000000000001.50000000000000000000000000000000000000000000000", "4.35", "0.000001",
        "2.2250738585072011e-308", "8.988465674311580536566680721305029496276241413130815e307", "９", "1e５",
    ] {
        check_parse(s);
    }
    let mut long = String::from("0.");
    long.push_str(&"0".repeat(500));
    long.push_str("17e500");
    check_parse(&long);
    let mut wide = "7".repeat(900);
    wide.push_str("e-880");
    check_parse(&wide);
}

#[test]
fn printed_numbers_are_read_back() {
    let mut r = Random(5);
    for _ in 0..300 {
        let a = r.any();
        if a.is_finite() {
            check_parse(&format!("{a}"));
            check_parse(&format!("{a:e}"));
        }
        let b = r.near();
        check_parse(&format!("{b}"));
        check_parse(&format!("{b:.3}"));
    }
}
