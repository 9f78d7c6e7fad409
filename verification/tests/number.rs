use sya::errors::SyaError;
use sya::number::{FloatOp, Number, Outcome, SIGN_BIT};
use sya::text::decimal_text;

fn whole(n: i64) -> Number {
    Number::Integer(n)
}

fn float(value: f64) -> Number {
    Number::Float(value.to_bits())
}

fn value(n: i64) -> Result<Outcome, SyaError> {
    Ok(Outcome::Value(Number::Integer(n)))
}

fn overflow(text: &str) -> SyaError {
    SyaError::NumberOverflow(text.to_string())
}

#[test]
fn decimal_text_writes_integers() {
    assert_eq!(decimal_text(0), "0");
    assert_eq!(decimal_text(7), "7");
    assert_eq!(decimal_text(10), "10");
    assert_eq!(decimal_text(-1), "-1");
    assert_eq!(decimal_text(1234567890), "1234567890");
    assert_eq!(decimal_text(-9223372036854775808), "-9223372036854775808");
    assert_eq!(decimal_text(i128::MAX), i128::MAX.to_string());
    assert_eq!(decimal_text(i128::MIN), i128::MIN.to_string());
}

#[test]
fn decimal_text_agrees_with_std() {
    let mut n: i128 = -1000;
    while n <= 1000 {
        assert_eq!(decimal_text(n), n.to_string());
        n += 1;
    }
    for shift in 0..126 {
        let p = 1i128 << shift;
        assert_eq!(decimal_text(p), p.to_string());
        assert_eq!(decimal_text(-p), (-p).to_string());
        assert_eq!(decimal_text(p - 1), (p - 1).to_string());
    }
}

#[test]
fn add_of_integers_is_checked() {
    assert_eq!(whole(7).checked_add(whole(8)), value(15));
    assert_eq!(whole(-7).checked_add(whole(3)), value(-4));
    assert_eq!(whole(i64::MAX).checked_add(whole(0)), value(i64::MAX));
    assert_eq!(
        whole(i64::MAX).checked_add(whole(1)),
        Err(overflow("9223372036854775808"))
    );
    assert_eq!(
        whole(i64::MIN).checked_add(whole(-1)),
        Err(overflow("-9223372036854775809"))
    );
}

#[test]
fn sub_of_integers_is_checked() {
    assert_eq!(whole(1).checked_sub(whole(2)), value(-1));
    assert_eq!(whole(i64::MIN).checked_sub(whole(0)), value(i64::MIN));
    assert_eq!(
        whole(i64::MIN).checked_sub(whole(1)),
        Err(overflow("-9223372036854775809"))
    );
    assert_eq!(
        whole(0).checked_sub(whole(i64::MIN)),
        Err(overflow("9223372036854775808"))
    );
}

#[test]
fn mul_of_integers_is_checked() {
    assert_eq!(whole(6).checked_mul(whole(-7)), value(-42));
    assert_eq!(whole(i64::MIN).checked_mul(whole(1)), value(i64::MIN));
    assert_eq!(
        whole(i64::MAX).checked_mul(whole(2)),
        Err(overflow("18446744073709551614"))
    );
    assert_eq!(
        whole(i64::MIN).checked_mul(whole(i64::MIN)),
        Err(overflow("85070591730234615865843651857942052864"))
    );
    assert_eq!(
        whole(i64::MIN).checked_mul(whole(-1)),
        Err(overflow("9223372036854775808"))
    );
}

#[test]
fn div_of_integers_stays_integer_when_exact() {
    assert_eq!(whole(10).checked_div(whole(2)), value(5));
    assert_eq!(whole(-10).checked_div(whole(2)), value(-5));
    assert_eq!(whole(10).checked_div(whole(-2)), value(-5));
    assert_eq!(whole(-10).checked_div(whole(-5)), value(2));
    assert_eq!(whole(0).checked_div(whole(3)), value(0));
    assert_eq!(whole(7).checked_div(whole(-1)), value(-7));
    assert_eq!(whole(i64::MIN).checked_div(whole(1)), value(i64::MIN));
    assert_eq!(whole(i64::MIN).checked_div(whole(2)), value(i64::MIN / 2));
}

#[test]
fn div_of_integers_with_a_remainder_is_left_to_doubles() {
    assert_eq!(
        whole(7).checked_div(whole(2)),
        Ok(Outcome::Deferred(FloatOp::Div(whole(7), whole(2))))
    );
    assert_eq!(
        whole(-7).checked_div(whole(2)),
        Ok(Outcome::Deferred(FloatOp::Div(whole(-7), whole(2))))
    );
    assert_eq!(
        whole(1).checked_div(whole(i64::MIN)),
        Ok(Outcome::Deferred(FloatOp::Div(whole(1), whole(i64::MIN))))
    );
}

#[test]
fn div_by_zero_fails() {
    assert_eq!(whole(5).checked_div(whole(0)), Err(SyaError::DivisionByZero));
    assert_eq!(whole(0).checked_div(whole(0)), Err(SyaError::DivisionByZero));
    assert_eq!(whole(5).checked_div(float(0.0)), Err(SyaError::DivisionByZero));
    assert_eq!(whole(5).checked_div(float(-0.0)), Err(SyaError::DivisionByZero));
    assert_eq!(float(5.0).checked_div(whole(0)), Err(SyaError::DivisionByZero));
    assert_eq!(float(5.0).checked_div(float(0.0)), Err(SyaError::DivisionByZero));
    assert_eq!(float(5.0).checked_div(float(-0.0)), Err(SyaError::DivisionByZero));
}

#[test]
fn div_of_the_least_integer_by_minus_one_overflows() {
    assert_eq!(
        whole(i64::MIN).checked_div(whole(-1)),
        Err(overflow("9223372036854775808"))
    );
}

#[test]
fn div_by_a_double_that_is_not_zero_is_deferred() {
    let tiny = Number::Float(1);
    let nan = float(f64::NAN);
    assert_eq!(
        whole(1).checked_div(tiny),
        Ok(Outcome::Deferred(FloatOp::Div(whole(1), tiny)))
    );
    assert_eq!(
        float(1.0).checked_div(nan),
        Ok(Outcome::Deferred(FloatOp::Div(float(1.0), nan)))
    );
    assert_eq!(
        float(1.5).checked_div(whole(3)),
        Ok(Outcome::Deferred(FloatOp::Div(float(1.5), whole(3))))
    );
}

#[test]
fn arithmetic_with_a_double_is_deferred() {
    let a = float(2.5);
    let b = whole(1);
    assert_eq!(a.checked_add(b), Ok(Outcome::Deferred(FloatOp::Add(a, b))));
    assert_eq!(b.checked_add(a), Ok(Outcome::Deferred(FloatOp::Add(b, a))));
    assert_eq!(a.checked_add(a), Ok(Outcome::Deferred(FloatOp::Add(a, a))));
    assert_eq!(a.checked_sub(b), Ok(Outcome::Deferred(FloatOp::Sub(a, b))));
    assert_eq!(b.checked_sub(a), Ok(Outcome::Deferred(FloatOp::Sub(b, a))));
    assert_eq!(a.checked_mul(b), Ok(Outcome::Deferred(FloatOp::Mul(a, b))));
    assert_eq!(b.checked_mul(a), Ok(Outcome::Deferred(FloatOp::Mul(b, a))));
    assert_eq!(
        a.checked_pow(3),
        Ok(Outcome::Deferred(FloatOp::Powi(2.5f64.to_bits(), 3)))
    );
}

#[test]
fn pow_of_integers_is_checked() {
    assert_eq!(whole(3).checked_pow(2), value(9));
    assert_eq!(whole(2).checked_pow(10), value(1024));
    assert_eq!(whole(-2).checked_pow(3), value(-8));
    assert_eq!(whole(-2).checked_pow(63), value(i64::MIN));
    assert_eq!(whole(2).checked_pow(62), value(1 << 62));
    assert_eq!(whole(7).checked_pow(0), value(1));
    assert_eq!(whole(7).checked_pow(1), value(7));
    assert_eq!(whole(2).checked_pow(63), Err(overflow("63")));
    assert_eq!(whole(-2).checked_pow(64), Err(overflow("64")));
    assert_eq!(whole(10).checked_pow(19), Err(overflow("19")));
    assert_eq!(whole(3).checked_pow(u32::MAX), Err(overflow("4294967295")));
}

#[test]
fn pow_of_zero_and_the_units() {
    assert_eq!(whole(0).checked_pow(0), value(1));
    assert_eq!(whole(0).checked_pow(5), value(0));
    assert_eq!(whole(0).checked_pow(u32::MAX), value(0));
    assert_eq!(whole(1).checked_pow(u32::MAX), value(1));
    assert_eq!(whole(-1).checked_pow(u32::MAX), value(-1));
    assert_eq!(whole(-1).checked_pow(u32::MAX - 1), value(1));
    assert_eq!(whole(-1).checked_pow(0), value(1));
}

#[test]
fn pow_agrees_with_std() {
    for base in -12i64..=12 {
        for exp in 0u32..=70 {
            let expected = match base.checked_pow(exp) {
                Some(p) => value(p),
                None => Err(overflow(&exp.to_string())),
            };
            assert_eq!(whole(base).checked_pow(exp), expected);
        }
    }
}

#[test]
fn an_exponent_is_an_integer_within_u32() {
    assert_eq!(whole(0).as_u32(), Ok(0));
    assert_eq!(whole(2).as_u32(), Ok(2));
    assert_eq!(whole(4294967295).as_u32(), Ok(u32::MAX));
    assert_eq!(whole(4294967296).as_u32(), Err(overflow("4294967296")));
    assert_eq!(whole(-1).as_u32(), Err(overflow("-1")));
    assert_eq!(float(2.0).as_u32(), Err(overflow("float")));
}

#[test]
fn negate_flips_the_sign() {
    assert_eq!(whole(5).negate(), whole(-5));
    assert_eq!(whole(-5).negate(), whole(5));
    assert_eq!(whole(0).negate(), whole(0));
    assert_eq!(whole(i64::MAX).negate(), whole(-i64::MAX));
    assert_eq!(float(4.5).negate(), float(-4.5));
    assert_eq!(float(-4.5).negate(), float(4.5));
    assert_eq!(float(0.0).negate(), float(-0.0));
    assert_eq!(float(f64::INFINITY).negate(), float(f64::NEG_INFINITY));
    assert_eq!(Number::Float(0).negate(), Number::Float(SIGN_BIT));
}

#[test]
fn negate_of_a_double_agrees_with_the_machine() {
    let samples = [
        0.0f64,
        -0.0,
        1.0,
        -1.0,
        0.1,
        -2.5e300,
        f64::MIN_POSITIVE,
        f64::MAX,
        f64::INFINITY,
        f64::NEG_INFINITY,
        f64::NAN,
        f64::EPSILON,
    ];
    for x in samples {
        assert_eq!(float(x).negate(), Number::Float((-x).to_bits()));
    }
}

#[test]
fn checked_neg_reports_the_least_integer() {
    assert_eq!(whole(5).checked_neg(), Ok(whole(-5)));
    assert_eq!(whole(i64::MIN + 1).checked_neg(), Ok(whole(i64::MAX)));
    assert_eq!(
        whole(i64::MIN).checked_neg(),
        Err(overflow("9223372036854775808"))
    );
    assert_eq!(float(1.5).checked_neg(), Ok(float(-1.5)));
}
