use sya::errors::SyaError;
use sya::number::Number;
use sya::rpn::to_postfix;
use sya::sya::format_postfix;
use sya::tokenizer::{Operator, Precedence, Token, Tokenizer};

fn whole(n: i64) -> Token {
    Token::Number(Number::Integer(n))
}

fn binary(sign: char) -> Token {
    let precedence = match sign {
        '^' => Precedence::EXP,
        '*' | '/' => Precedence::MUL,
        _ => Precedence::SUM,
    };
    Token::Operator(Operator { sign, precedence })
}

/// The tokens of a text without doubles.
fn tokens(input: &str) -> Vec<Token> {
    let mut tokenizer = Tokenizer::new(input);
    assert_eq!(tokenizer.parse(), Ok(None));
    tokenizer.into_tokens()
}

/// The postfix form of a text without doubles, written out.
fn postfix(input: &str) -> String {
    let converted = to_postfix(&tokens(input)).expect("should convert");
    format_postfix(&converted, &Vec::new()).expect("no doubles")
}

#[test]
fn nothing_converts_to_nothing() {
    assert_eq!(to_postfix(&vec![]), Ok(vec![]));
}

#[test]
fn a_number_goes_straight_out() {
    assert_eq!(to_postfix(&vec![whole(1)]), Ok(vec![whole(1)]));
    assert_eq!(
        to_postfix(&vec![whole(1), whole(2)]),
        Ok(vec![whole(1), whole(2)])
    );
}

#[test]
fn an_operator_follows_its_operands() {
    assert_eq!(
        to_postfix(&vec![whole(1), binary('+'), whole(2)]),
        Ok(vec![whole(1), whole(2), binary('+')])
    );
}

#[test]
fn a_higher_precedence_binds_first() {
    assert_eq!(postfix("1 + 2 * 4 - 3"), "1 2 4 * + 3 -");
    assert_eq!(postfix("1 * 2 + 3"), "1 2 * 3 +");
    assert_eq!(postfix("1 + 2 * 3 ^ 4"), "1 2 3 4 ^ * +");
    assert_eq!(postfix("1 ^ 2 * 3 + 4"), "1 2 ^ 3 * 4 +");
}

#[test]
fn one_precedence_groups_from_the_left() {
    assert_eq!(postfix("1 - 2 - 3"), "1 2 - 3 -");
    assert_eq!(postfix("1 - 2 + 3"), "1 2 - 3 +");
    assert_eq!(postfix("8 / 4 / 2"), "8 4 / 2 /");
    assert_eq!(postfix("8 / 4 * 2"), "8 4 / 2 *");
    assert_eq!(postfix("2 ^ 3 ^ 2"), "2 3 ^ 2 ^");
}

#[test]
fn parentheses_group_and_leave() {
    assert_eq!(postfix("5 * (1 + 2)"), "5 1 2 + *");
    assert_eq!(postfix("(1 + 2) * 5"), "1 2 + 5 *");
    assert_eq!(postfix("(((((1)))))"), "1");
    assert_eq!(postfix("(1 + (1 + 2))"), "1 1 2 + +");
    assert_eq!(postfix("()"), "");
}

#[test]
fn a_unary_sign_binds_before_any_operator() {
    assert_eq!(postfix("-5 * 39"), "5 u- 39 *");
    assert_eq!(postfix("-2 ^ 2"), "2 u- 2 ^");
    assert_eq!(postfix("2 ^ -2"), "2 2 u- ^");
    assert_eq!(postfix("--5"), "5 u- u-");
    assert_eq!(postfix("-(-5)"), "5 u- u-");
    assert_eq!(postfix("--+++--+-+9"), "9 u+ u- u+ u- u- u+ u+ u+ u- u-");
    assert_eq!(postfix("1 - -1"), "1 1 u- -");
}

#[test]
fn a_closing_parenthesis_wants_an_opening_one() {
    assert_eq!(
        to_postfix(&tokens("5 ) + 1")),
        Err(SyaError::ExpectedChar('('))
    );
    assert_eq!(to_postfix(&tokens(")")), Err(SyaError::ExpectedChar('(')));
    assert_eq!(
        to_postfix(&tokens("(1))")),
        Err(SyaError::ExpectedChar('('))
    );
    assert_eq!(
        to_postfix(&tokens("1 + 2)")),
        Err(SyaError::ExpectedChar('('))
    );
}

#[test]
fn an_opening_parenthesis_that_is_never_closed_goes_out() {
    assert_eq!(
        to_postfix(&tokens("(1")),
        Ok(vec![whole(1), Token::OPEN])
    );
    assert_eq!(postfix("(1 + 2"), "1 2 + (");
    assert_eq!(postfix("((1"), "1 ( (");
    assert_eq!(postfix("2 * (1 + 3"), "2 1 3 + ( *");
}

#[test]
fn an_operator_goes_by_the_precedence_it_holds() {
    let loose = Token::Operator(Operator { sign: '*', precedence: Precedence::SUM });
    assert_eq!(
        to_postfix(&vec![whole(1), binary('+'), whole(2), loose, whole(3)]),
        Ok(vec![whole(1), whole(2), binary('+'), whole(3), loose])
    );
    let lowest = Token::Operator(Operator { sign: '+', precedence: Precedence::MIN });
    assert_eq!(
        to_postfix(&vec![Token::OPEN, whole(1), lowest, whole(2)]),
        Ok(vec![whole(1), Token::OPEN, whole(2), lowest])
    );
}

#[test]
fn words_are_joined_by_spaces() {
    assert_eq!(format_postfix(&vec![], &vec![]), Some(String::new()));
    assert_eq!(
        format_postfix(&vec![whole(-12)], &vec![]),
        Some("-12".to_string())
    );
    assert_eq!(
        format_postfix(
            &vec![
                whole(1),
                Token::UNARY('-'),
                Token::OPEN,
                Token::CLOSE,
                binary('^'),
                Token::UNARY('x'),
                Token::Operator(Operator { sign: '?', precedence: Precedence::MAX }),
            ],
            &vec![]
        ),
        Some("1 u- ( ) ^ ux ?".to_string())
    );
}

#[test]
fn doubles_are_written_by_the_caller() {
    let half = Token::Number(Number::Float(0.5f64.to_bits()));
    let third = Token::Number(Number::Float(7));
    let tokens = vec![half, whole(2), third, binary('*'), binary('+')];
    assert_eq!(
        format_postfix(&tokens, &vec!["0.5".to_string(), "thirty".to_string()]),
        Some("0.5 2 thirty * +".to_string())
    );
    assert_eq!(format_postfix(&tokens, &vec!["0.5".to_string()]), None);
    assert_eq!(format_postfix(&tokens, &vec![]), None);
    assert_eq!(
        format_postfix(
            &tokens,
            &vec!["a".to_string(), "b".to_string(), "c".to_string()]
        ),
        None
    );
    assert_eq!(format_postfix(&vec![whole(1)], &vec!["a".to_string()]), None);
}
