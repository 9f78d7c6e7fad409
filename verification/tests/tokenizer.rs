use sya::errors::SyaError;
use sya::number::Number;
use sya::tokenizer::{is_decimal_digit, is_whitespace, Operator, Precedence, Token, Tokenizer};

fn whole(n: i64) -> Token {
    Token::Number(Number::Integer(n))
}

fn float(value: f64) -> Token {
    Token::Number(Number::Float(value.to_bits()))
}

fn binary(sign: char, precedence: Precedence) -> Token {
    Token::Operator(Operator { sign, precedence })
}

/// Tokenizes, with the machine's doubles for the literals.
fn tokenize(input: &str) -> Result<Vec<Token>, SyaError> {
    let mut tokenizer = Tokenizer::new(input);
    while let Some(text) = tokenizer.parse()? {
        let value: f64 = text.parse().expect("a literal with one point");
        tokenizer.supply(value.to_bits());
    }
    Ok(tokenizer.into_tokens())
}

#[test]
fn empty_text_has_no_tokens() {
    assert_eq!(tokenize(""), Ok(vec![]));
}

#[test]
fn white_space_is_skipped_everywhere() {
    assert_eq!(tokenize("   "), Ok(vec![]));
    assert_eq!(tokenize(" 1 "), Ok(vec![whole(1)]));
    assert_eq!(
        tokenize("\t1\n+\r2 \u{a0}\u{3000}"),
        Ok(vec![whole(1), binary('+', Precedence::SUM), whole(2)])
    );
    assert_eq!(tokenize("1 2"), Ok(vec![whole(1), whole(2)]));
}

#[test]
fn white_space_is_as_std_has_it() {
    for n in 0..=0x10ffffu32 {
        if let Some(c) = char::from_u32(n) {
            assert_eq!(is_whitespace(c), c.is_whitespace(), "{:?}", c);
        }
    }
}

#[test]
fn digits_are_as_std_has_them() {
    for n in 0..=0x10ffffu32 {
        if let Some(c) = char::from_u32(n) {
            assert_eq!(is_decimal_digit(c), c.is_digit(10), "{:?}", c);
        }
    }
}

#[test]
fn operators_have_their_precedence() {
    assert_eq!(
        tokenize("1^2*3/4+5-6"),
        Ok(vec![
            whole(1),
            binary('^', Precedence::EXP),
            whole(2),
            binary('*', Precedence::MUL),
            whole(3),
            binary('/', Precedence::MUL),
            whole(4),
            binary('+', Precedence::SUM),
            whole(5),
            binary('-', Precedence::SUM),
            whole(6),
        ])
    );
}

#[test]
fn a_sign_is_unary_at_the_start_and_after_an_operator() {
    assert_eq!(tokenize("-"), Ok(vec![Token::UNARY('-')]));
    assert_eq!(tokenize("+1"), Ok(vec![Token::UNARY('+'), whole(1)]));
    assert_eq!(
        tokenize("(-1"),
        Ok(vec![Token::OPEN, Token::UNARY('-'), whole(1)])
    );
    assert_eq!(
        tokenize("2*-1"),
        Ok(vec![whole(2), binary('*', Precedence::MUL), Token::UNARY('-'), whole(1)])
    );
    assert_eq!(
        tokenize("--1"),
        Ok(vec![Token::UNARY('-'), Token::UNARY('-'), whole(1)])
    );
}

#[test]
fn a_sign_is_binary_after_a_number_and_a_closing_parenthesis() {
    assert_eq!(
        tokenize("1-1"),
        Ok(vec![whole(1), binary('-', Precedence::SUM), whole(1)])
    );
    assert_eq!(
        tokenize(")+"),
        Ok(vec![Token::CLOSE, binary('+', Precedence::SUM)])
    );
    assert_eq!(
        tokenize("1.5-"),
        Ok(vec![float(1.5), binary('-', Precedence::SUM)])
    );
}

#[test]
fn integer_literals() {
    assert_eq!(tokenize("0"), Ok(vec![whole(0)]));
    assert_eq!(tokenize("007"), Ok(vec![whole(7)]));
    assert_eq!(
        tokenize("9223372036854775807"),
        Ok(vec![whole(i64::MAX)])
    );
    assert_eq!(
        tokenize("0000000000000000000000009223372036854775807"),
        Ok(vec![whole(i64::MAX)])
    );
}

#[test]
fn an_integer_literal_beyond_i64_overflows() {
    assert_eq!(
        tokenize("9223372036854775808"),
        Err(SyaError::NumberOverflow("9223372036854775808".to_string()))
    );
    assert_eq!(
        tokenize("1 + 99999999999999999999 "),
        Err(SyaError::NumberOverflow("99999999999999999999".to_string()))
    );
}

#[test]
fn a_literal_with_one_point_is_a_double() {
    assert_eq!(tokenize("5.5"), Ok(vec![float(5.5)]));
    assert_eq!(tokenize("5."), Ok(vec![float(5.0)]));
    assert_eq!(tokenize("0.1"), Ok(vec![float(0.1)]));
    assert_eq!(
        tokenize("123456789012345678901234567890.5"),
        Ok(vec![float(123456789012345678901234567890.5)])
    );
}

#[test]
fn a_literal_with_two_points_overflows() {
    assert_eq!(
        tokenize("1.2.3"),
        Err(SyaError::NumberOverflow("1.2.3".to_string()))
    );
    assert_eq!(
        tokenize("2 * 1..5"),
        Err(SyaError::NumberOverflow("1..5".to_string()))
    );
}

#[test]
fn a_literal_is_handed_out_as_it_is_written() {
    let mut tokenizer = Tokenizer::new(" 1 + 02.50 * 3");
    assert_eq!(tokenizer.pending(), None);
    assert_eq!(tokenizer.parse(), Ok(Some("02.50".to_string())));
    assert_eq!(tokenizer.pending(), Some("02.50".to_string()));
    assert_eq!(
        tokenizer.tokens(),
        &vec![whole(1), binary('+', Precedence::SUM)]
    );
    assert_eq!(tokenizer.parse(), Ok(Some("02.50".to_string())));
    tokenizer.supply(2.5f64.to_bits());
    assert_eq!(tokenizer.pending(), None);
    assert_eq!(tokenizer.parse(), Ok(None));
    assert_eq!(tokenizer.parse(), Ok(None));
    assert_eq!(
        tokenizer.into_tokens(),
        vec![
            whole(1),
            binary('+', Precedence::SUM),
            float(2.5),
            binary('*', Precedence::MUL),
            whole(3)
        ]
    );
}

#[test]
fn supply_without_a_literal_only_scans_on() {
    let mut tokenizer = Tokenizer::new("1 + 2");
    tokenizer.supply(7);
    assert_eq!(
        tokenizer.tokens(),
        &vec![whole(1), binary('+', Precedence::SUM), whole(2)]
    );
    tokenizer.supply(7);
    assert_eq!(tokenizer.parse(), Ok(None));
    assert_eq!(tokenizer.tokens().len(), 3);
}

#[test]
fn any_other_character_is_invalid() {
    assert_eq!(tokenize("a"), Err(SyaError::InvalidChar('a')));
    assert_eq!(tokenize("1 + x"), Err(SyaError::InvalidChar('x')));
    assert_eq!(tokenize(".5"), Err(SyaError::InvalidChar('.')));
    assert_eq!(tokenize("1,5"), Err(SyaError::InvalidChar(',')));
    assert_eq!(tokenize("1\u{0}"), Err(SyaError::InvalidChar('\u{0}')));
    assert_eq!(tokenize("\u{0}"), Err(SyaError::InvalidChar('\u{0}')));
    assert_eq!(tokenize("2 × 3"), Err(SyaError::InvalidChar('×')));
    assert_eq!(tokenize("٣"), Err(SyaError::InvalidChar('٣')));
}

#[test]
fn an_error_is_met_again() {
    let mut tokenizer = Tokenizer::new("1 ? 2");
    assert_eq!(tokenizer.parse(), Err(SyaError::InvalidChar('?')));
    assert_eq!(tokenizer.parse(), Err(SyaError::InvalidChar('?')));
    assert_eq!(tokenizer.tokens(), &vec![whole(1)]);
}

#[test]
fn handle_unary_goes_by_the_last_token() {
    let mut tokenizer = Tokenizer::new("1");
    assert_eq!(tokenizer.handle_unary('-'), Token::UNARY('-'));
    assert_eq!(tokenizer.parse(), Ok(None));
    assert_eq!(
        tokenizer.handle_unary('-'),
        binary('-', Precedence::SUM)
    );
}

#[test]
fn precedence_of_a_token() {
    assert_eq!(whole(1).precedence(), None);
    assert_eq!(
        binary('*', Precedence::MUL).precedence(),
        Some(&Precedence::MUL)
    );
    assert_eq!(Token::UNARY('-').precedence(), Some(&Precedence::MAX));
    assert_eq!(Token::CLOSE.precedence(), Some(&Precedence::MAX));
    assert_eq!(Token::OPEN.precedence(), Some(&Precedence::MIN));
}

#[test]
fn precedences_are_ordered() {
    assert!(Precedence::MIN < Precedence::SUM);
    assert!(Precedence::SUM < Precedence::MUL);
    assert!(Precedence::MUL < Precedence::EXP);
    assert!(Precedence::EXP < Precedence::MAX);
    assert_eq!(Precedence::MIN.rank(), 0);
    assert_eq!(Precedence::SUM.rank(), 1);
    assert_eq!(Precedence::MUL.rank(), 2);
    assert_eq!(Precedence::EXP.rank(), 3);
    assert_eq!(Precedence::MAX.rank(), 4);
    let all = [
        Precedence::MIN,
        Precedence::SUM,
        Precedence::MUL,
        Precedence::EXP,
        Precedence::MAX,
    ];
    for a in all {
        for b in all {
            assert_eq!(a < b, a.rank() < b.rank());
        }
    }
}
