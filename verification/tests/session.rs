use sya::errors::SyaError;
use sya::number::{FloatOp, Number};
use sya::sya::{FloatTask, Sya};
use sya::tokenizer::{Operator, Precedence, Token, Tokenizer};

fn op(sign: char, precedence: Precedence) -> Operator {
    Operator { sign, precedence }
}

fn double(n: Number) -> f64 {
    match n {
        Number::Integer(i) => i as f64,
        Number::Float(bits) => f64::from_bits(bits),
    }
}

fn float(value: f64) -> Number {
    Number::Float(value.to_bits())
}

fn power(base: f64, exp: u32) -> f64 {
    match i32::try_from(exp) {
        Ok(small) => base.powi(small),
        Err(_) => base.powf(exp as f64),
    }
}

fn perform(task: FloatTask) -> u64 {
    let value = match task {
        FloatTask::Literal(text) => text.parse::<f64>().expect("a literal with one point"),
        FloatTask::Arith(FloatOp::Add(a, b)) => double(a) + double(b),
        FloatTask::Arith(FloatOp::Sub(a, b)) => double(a) - double(b),
        FloatTask::Arith(FloatOp::Mul(a, b)) => double(a) * double(b),
        FloatTask::Arith(FloatOp::Div(a, b)) => double(a) / double(b),
        FloatTask::Arith(FloatOp::Powi(base, exp)) => power(f64::from_bits(base), exp),
    };
    value.to_bits()
}

fn settle(sya: &mut Sya) -> Result<(), SyaError> {
    while let Some(task) = sya.pending() {
        sya.resume(perform(task))?;
    }
    Ok(())
}

fn construct(input: &str) -> Sya {
    let mut sya = Sya::new(input).expect("Should construct");
    settle(&mut sya).expect("Should construct");
    sya
}

fn load(sya: &mut Sya, input: &str) {
    sya.new_input(input).expect("Should Parse");
    settle(sya).expect("Should Parse");
}

fn calculate(sya: &mut Sya) -> Result<(), SyaError> {
    sya.calculate()?;
    settle(sya)
}

fn tokenize(input: &str) -> Vec<Token> {
    let mut tokenizer = Tokenizer::new(input);
    while let Some(text) = tokenizer.parse().expect("Should Parse") {
        tokenizer.supply(perform(FloatTask::Literal(text)));
    }
    tokenizer.into_tokens()
}

#[test]
fn test_tokenizer() {
    let tokens = tokenize("- 10 + 2 * 4 (5.5^2)");

    assert_eq!(Token::UNARY('-'), tokens[0]);
    assert_eq!(Token::Number(Number::Integer(10)), tokens[1]);
    assert_eq!(Token::Operator(op('+', Precedence::SUM)), tokens[2]);
    assert_eq!(Token::Number(Number::Integer(2)), tokens[3]);
    assert_eq!(Token::Operator(op('*', Precedence::MUL)), tokens[4]);
    assert_eq!(Token::Number(Number::Integer(4)), tokens[5]);
    assert_eq!(Token::OPEN, tokens[6]);
    assert_eq!(Token::Number(float(5.5)), tokens[7]);
    assert_eq!(Token::Operator(op('^', Precedence::EXP)), tokens[8]);
    assert_eq!(Token::Number(Number::Integer(2)), tokens[9]);
    assert_eq!(Token::CLOSE, tokens[10]);
    assert_eq!(11, tokens.len());
}

#[test]
fn test_unary_parse() {
    let tokens = tokenize("-(10 + 5) - -(+3 - 2)");

    assert_eq!(Token::UNARY('-'), tokens[0]);
    assert_eq!(Token::OPEN, tokens[1]);
    assert_eq!(Token::Number(Number::Integer(10)), tokens[2]);
    assert_eq!(Token::Operator(op('+', Precedence::SUM)), tokens[3]);
    assert_eq!(Token::Number(Number::Integer(5)), tokens[4]);
    assert_eq!(Token::CLOSE, tokens[5]);
    assert_eq!(Token::Operator(op('-', Precedence::SUM)), tokens[6]);
    assert_eq!(Token::UNARY('-'), tokens[7]);
    assert_eq!(Token::OPEN, tokens[8]);
    assert_eq!(Token::UNARY('+'), tokens[9]);
    assert_eq!(Token::Number(Number::Integer(3)), tokens[10]);
    assert_eq!(Token::Operator(op('-', Precedence::SUM)), tokens[11]);
    assert_eq!(Token::Number(Number::Integer(2)), tokens[12]);
    assert_eq!(Token::CLOSE, tokens[13]);
    assert_eq!(14, tokens.len());
}

#[test]
fn test_unary_results() {
    let mut sya = construct("--5");
    assert_eq!(Ok(()), calculate(&mut sya));
    assert_eq!(Some(Number::Integer(5)), sya.out);

    load(&mut sya, "-(-5)");
    assert_eq!(Ok(()), calculate(&mut sya));
    assert_eq!(Some(Number::Integer(5)), sya.out);

    load(&mut sya, "--+++--+-+9");
    assert_eq!(Ok(()), calculate(&mut sya));
    assert_eq!(Some(Number::Integer(-9)), sya.out);

    load(&mut sya, "-(-(5+(8-3))*(+4^2))");
    assert_eq!(Ok(()), calculate(&mut sya));
    assert_eq!(Some(Number::Integer(160)), sya.out);

    load(&mut sya, "-(10*(2+-3))/-(4-(2*+3))");
    assert_eq!(Ok(()), calculate(&mut sya));
    assert_eq!(Some(Number::Integer(5)), sya.out);
}

#[test]
fn test_rpn() {
    let mut sya = construct("-5 * 39 - (10 + 1) / 2");
    calculate(&mut sya).expect("Should Calculate");
    assert_eq!(
        sya.rpn_formatted(&Vec::new()),
        Some("5 u- 39 * 10 1 + 2 / -".to_string())
    );

    load(&mut sya, "(1 * 100) - - (3 ^ (4 / 2 + 1) + (2)) * + 30 ^ 1");
    calculate(&mut sya).expect("Should Calculate");
    assert_eq!(
        sya.rpn_formatted(&Vec::new()),
        Some("1 100 * 3 4 2 / 1 + ^ 2 + u- 30 u+ 1 ^ * -".to_string()),
    )
}

#[test]
fn test_calculate() {
    let mut sya = construct("1 + 2 * 4 - 3");

    assert_eq!(Ok(()), calculate(&mut sya));
    assert_eq!(Some(Number::Integer(6)), sya.out);

    load(&mut sya, "1 - 2");
    assert_eq!(Ok(()), calculate(&mut sya));
    assert_eq!(Some(Number::Integer(-1)), sya.out);

    load(&mut sya, "-5 * 39 - (10 + 1) / 2");
    assert_eq!(Ok(()), calculate(&mut sya));
    assert_eq!(Some(float(-200.5)), sya.out);

    load(&mut sya, "(1 * 100) - - (3 ^ (4 / 2 + 1) + (2)) * + 30 ^ 1");
    assert_eq!(Ok(()), calculate(&mut sya));
    assert_eq!(Some(Number::Integer(970)), sya.out);

    load(&mut sya, "");
    assert_eq!(Err(SyaError::InvalidInput), calculate(&mut sya));
    assert_eq!(None, sya.out);
}

#[test]
fn test_paren() {
    let mut sya = construct("5 * (1 + 2)");

    assert_eq!(Ok(()), calculate(&mut sya));
    assert_eq!(Some(Number::Integer(15)), sya.out);

    load(&mut sya, "(1 + (1 + 2))");
    assert_eq!(Ok(()), calculate(&mut sya));
    assert_eq!(Some(Number::Integer(4)), sya.out);

    load(&mut sya, "(((((1)))))");
    assert_eq!(Ok(()), calculate(&mut sya));
    assert_eq!(Some(Number::Integer(1)), sya.out);

    load(&mut sya, "5 ) + 1");
    assert_eq!(Err(SyaError::ExpectedChar('(')), calculate(&mut sya));
}

#[test]
fn test_float() {
    let mut sya = construct("2.5 + 1");

    assert_eq!(Ok(()), calculate(&mut sya));
    assert_eq!(Some(float(3.5)), sya.out);

    load(&mut sya, "10 / 2");
    assert_eq!(Ok(()), calculate(&mut sya));
    assert_eq!(Some(Number::Integer(5)), sya.out);

    load(&mut sya, "3.5 * 2");
    assert_eq!(Ok(()), calculate(&mut sya));
    assert_eq!(Some(float(7.0)), sya.out);

    load(&mut sya, "7 - 2.5");
    assert_eq!(Ok(()), calculate(&mut sya));
    assert_eq!(Some(float(4.5)), sya.out);

    load(&mut sya, "5 / 0");
    assert_eq!(Err(SyaError::DivisionByZero), calculate(&mut sya));
    assert_eq!(None, sya.out);
}
