//! The number format against the machine's own doubles.

use xirr::double::Double;

fn d(x: f64) -> Double {
    Double { bits: x.to_bits() }
}

fn f(x: Double) -> f64 {
    f64::from_bits(x.bits)
}

fn agree(got: Double, want: f64, what: &str) {
    if want.is_nan() {
        assert!(got.is_nan(), "{what}: got {:e}, want NaN", f(got));
    } else {
        assert_eq!(got.bits, want.to_bits(), "{what}: got {:e}, want {want:e}", f(got));
    }
}

/// A generator of bit patterns, the same on every run.
struct Bits(u64);

impl Bits {
    fn draw(&mut self) -> u64 {
        self.0 ^= self.0 << 13;
        self.0 ^= self.0 >> 7;
        self.0 ^= self.0 << 17;
        self.0
    }
}

fn landmarks() -> Vec<f64> {
    let mut v = vec![
        0.0,
        1.0,
        1.5,
        2.0,
        3.0,
        0.1,
        0.99,
        1e-10,
        1e10,
        1e300,
        1e-300,
        f64::MAX,
        f64::MIN_POSITIVE,
        f64::from_bits(1),
        f64::from_bits(2),
        f64::from_bits(0x000f_ffff_ffff_ffff),
        f64::from_bits(0x0010_0000_0000_0001),
        f64::from_bits(0x3fef_ffff_ffff_ffff),
        f64::from_bits(0x7fef_ffff_ffff_fffe),
        4503599627370496.0,
        9007199254740993.0,
        9223372036854775808.0,
        18446744073709551616.0,
        f64::INFINITY,
        f64::NAN,
    ];
    let negated: Vec<f64> = v.iter().map(|x| -x).collect();
    v.extend(negated);
    v
}

fn check_pair(a: f64, b: f64) {
    agree(d(a).plus(d(b)), a + b, &format!("{a:e} + {b:e}"));
    agree(d(a).minus(d(b)), a - b, &format!("{a:e} - {b:e}"));
    agree(d(a).times(d(b)), a * b, &format!("{a:e} * {b:e}"));
    agree(d(a).over(d(b)), a / b, &format!("{a:e} / {b:e}"));
    assert_eq!(d(a).is_lt(d(b)), a < b, "{a:e} < {b:e}");
    assert_eq!(d(a).is_le(d(b)), a <= b, "{a:e} <= {b:e}");
    assert_eq!(d(a).is_eq(d(b)), a == b, "{a:e} == {b:e}");
    assert_eq!(
        d(a).ranks_below(d(b)),
        a.total_cmp(&b) == std::cmp::Ordering::Less,
        "{a:e} before {b:e}"
    );
}

#[test]
fn arithmetic_agrees_with_the_machine_on_landmarks() {
    for a in landmarks() {
        for b in landmarks() {
            check_pair(a, b);
        }
    }
}

#[test]
fn arithmetic_agrees_with_the_machine_on_any_bits() {
    let mut bits = Bits(0x9e37_79b9_7f4a_7c15);
    for _ in 0..200_000 {
        check_pair(f64::from_bits(bits.draw()), f64::from_bits(bits.draw()));
    }
}

#[test]
fn arithmetic_agrees_with_the_machine_on_neighbouring_exponents() {
    let mut bits = Bits(0x2545_f491_4f6c_dd1d);
    for _ in 0..200_000 {
        let a = bits.draw();
        let shift = (bits.draw() % 120) as i64 - 60;
        let exponent = ((a >> 52) & 0x7ff) as i64 + shift;
        let exponent = exponent.clamp(0, 0x7fe) as u64;
        let b = (bits.draw() & 0x800f_ffff_ffff_ffff) | (exponent << 52);
        check_pair(f64::from_bits(a), f64::from_bits(b));
    }
}

#[test]
fn arithmetic_agrees_with_the_machine_near_underflow() {
    let mut bits = Bits(0x1234_5678_9abc_def1);
    for _ in 0..100_000 {
        let a = f64::from_bits(bits.draw() & 0x803f_ffff_ffff_ffff);
        let b = f64::from_bits((bits.draw() & 0x800f_ffff_ffff_ffff) | (0x3fd << 52));
        check_pair(a, b);
        let small = f64::from_bits((bits.draw() & 0x800f_ffff_ffff_ffff) | (0x200 << 52));
        let other = f64::from_bits((bits.draw() & 0x800f_ffff_ffff_ffff) | (0x1ff << 52));
        check_pair(small, other);
    }
}

#[test]
fn signs_and_classes_agree_with_the_machine() {
    for a in landmarks() {
        agree(d(a).neg(), -a, "neg");
        agree(d(a).abs(), a.abs(), "abs");
        assert_eq!(d(a).is_finite(), a.is_finite());
        assert_eq!(d(a).is_nan(), a.is_nan());
        assert_eq!(d(a).is_zero(), a == 0.0);
        assert_eq!(d(a).is_positive(), a > 0.0);
        assert_eq!(d(a).is_negative(), a.is_sign_negative());
    }
}

#[test]
fn integers_agree_with_the_machine() {
    let mut bits = Bits(0x0dd0_5eed_0dd0_5eed);
    for n in [0, 1, -1, 365, -365, i64::MAX, i64::MIN, 9007199254740993] {
        agree(Double::from_i64(n), n as f64, "from_i64");
    }
    for _ in 0..50_000 {
        let n = (bits.draw() >> (bits.draw() % 64)) as i64;
        agree(Double::from_i64(n), n as f64, "from_i64");
        agree(Double::from_usize(n as usize), n as usize as f64, "from_usize");
        let x = f64::from_bits(
            (bits.draw() & 0x800f_ffff_ffff_ffff) | ((1000 + bits.draw() % 100) << 52),
        );
        agree(d(x).floor(), x.floor(), "floor");
        assert_eq!(d(x).to_i64(), x as i64, "{x:e} as i64");
        assert_eq!(d(x).ceil_steps(), x.ceil().max(0.0) as usize, "steps of {x:e}");
    }
    for x in landmarks() {
        agree(d(x).floor(), x.floor(), "floor");
        assert_eq!(d(x).to_i64(), x as i64, "{x:e} as i64");
        assert_eq!(d(x).ceil_steps(), x.ceil().max(0.0) as usize, "steps of {x:e}");
    }
}
