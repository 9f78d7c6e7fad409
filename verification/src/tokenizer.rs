//! Tokens, and the scanner that reads them from text.

use vstd::prelude::*;
use crate::errors::{Fault, SyaError};
use crate::number::Number;
use crate::text::{is_digit, number_of};

verus! {

/// How tightly a token binds, from loosest to tightest.
#[derive(Debug, PartialEq, Eq, PartialOrd, Clone, Copy, Structural)]
pub enum Precedence {
    MIN,
    SUM,
    MUL,
    EXP,
    MAX,
}

impl Precedence {
    /// The place of a precedence in the order: `MIN` is 0, `MAX` is 4.
    pub open spec fn spec_rank(self) -> u8 {
        match self {
            Precedence::MIN => 0,
            Precedence::SUM => 1,
            Precedence::MUL => 2,
            Precedence::EXP => 3,
            Precedence::MAX => 4,
        }
    }

    /// The place of a precedence in the order.
    #[verifier::when_used_as_spec(spec_rank)]
    pub fn rank(self) -> (r: u8)
        ensures
            r == self.spec_rank(),
    {
        match self {
            Precedence::MIN => 0,
            Precedence::SUM => 1,
            Precedence::MUL => 2,
            Precedence::EXP => 3,
            Precedence::MAX => 4,
        }
    }
}

/// A binary operator: its sign and the precedence it was read with.
#[derive(Debug, PartialEq, Eq, Clone, Copy, Structural)]
pub struct Operator {
    pub sign: char,
    pub precedence: Precedence,
}

/// A token of an expression.
#[derive(Debug, PartialEq, Eq, Clone, Copy, Structural)]
pub enum Token {
    Number(Number),
    /// A binary operator.
    Operator(Operator),
    /// A sign before its operand.
    UNARY(char),
    /// An opening parenthesis.
    OPEN,
    /// A closing parenthesis.
    CLOSE,
}

impl Token {
    /// The precedence of a token on the holding stack. A binary operator has
    /// its own. A unary sign and a closing parenthesis bind tightest, an
    /// opening parenthesis loosest; a number has none.
    pub open spec fn spec_precedence(&self) -> Option<&Precedence> {
        match self {
            Token::Operator(o) => Some(&o.precedence),
            Token::UNARY(_) | Token::CLOSE => Some(&Precedence::MAX),
            Token::OPEN => Some(&Precedence::MIN),
            _ => None,
        }
    }

    /// The precedence of a token on the holding stack.
    #[verifier::when_used_as_spec(spec_precedence)]
    pub fn precedence(&self) -> (p: Option<&Precedence>)
        ensures
            p == self.spec_precedence(),
    {
        match self {
            Token::Operator(o) => Some(&o.precedence),
            Token::UNARY(_) | Token::CLOSE => Some(&Precedence::MAX),
            Token::OPEN => Some(&Precedence::MIN),
            _ => None,
        }
    }
}

/// Whether `c` is white space, as Unicode has it.
pub open spec fn is_space(c: char) -> bool {
    let n = c as u32;
    ||| 0x09 <= n <= 0x0d
    ||| n == 0x20
    ||| n == 0x85
    ||| n == 0xa0
    ||| n == 0x1680
    ||| 0x2000 <= n <= 0x200a
    ||| n == 0x2028
    ||| n == 0x2029
    ||| n == 0x202f
    ||| n == 0x205f
    ||| n == 0x3000
}

/// Whether `c` can stand in a numeric literal: a digit or a point.
pub open spec fn in_literal(c: char) -> bool {
    is_digit(c) || c == '.'
}

/// The first place at or after `i` that holds no white space.
pub open spec fn skip_space(s: Seq<char>, i: int) -> int
    decreases s.len() - i,
{
    if 0 <= i < s.len() && is_space(s[i]) {
        skip_space(s, i + 1)
    } else {
        i
    }
}

/// The end of the run of digits and points that starts at `i`.
pub open spec fn literal_end(s: Seq<char>, i: int) -> int
    decreases s.len() - i,
{
    if 0 <= i < s.len() && in_literal(s[i]) {
        literal_end(s, i + 1)
    } else {
        i
    }
}

/// How many points a run holds.
pub open spec fn points(run: Seq<char>) -> nat
    decreases run.len(),
{
    if run.len() == 0 {
        0
    } else {
        points(run.drop_last()) + if run.last() == '.' {
            1nat
        } else {
            0
        }
    }
}

/// The token for a `+` or `-`: a binary operator after a number or a closing
/// parenthesis, a unary sign at the start and after anything else.
pub open spec fn sign_token(before: Seq<Token>, sign: char) -> Token {
    if before.len() > 0 && (before.last() is Number || before.last() is CLOSE) {
        Token::Operator(Operator { sign, precedence: Precedence::SUM })
    } else {
        Token::UNARY(sign)
    }
}

/// The token that the one character `c` writes after the tokens `before`, if
/// it writes one.
pub open spec fn symbol(before: Seq<Token>, c: char) -> Option<Token> {
    if c == '(' {
        Some(Token::OPEN)
    } else if c == ')' {
        Some(Token::CLOSE)
    } else if c == '^' {
        Some(Token::Operator(Operator { sign: c, precedence: Precedence::EXP }))
    } else if c == '*' || c == '/' {
        Some(Token::Operator(Operator { sign: c, precedence: Precedence::MUL }))
    } else if c == '+' || c == '-' {
        Some(sign_token(before, c))
    } else {
        None
    }
}

/// A tokenizer as specifications see it: the text, the place of the next
/// character to read, and the tokens read so far.
pub ghost struct Scanner {
    pub input: Seq<char>,
    pub position: int,
    pub tokens: Seq<Token>,
}

/// Why a scan stops.
pub ghost enum Pause {
    /// The text is used up.
    Done,
    /// The scanner stands at a literal with one point. Its value is a double,
    /// which the caller supplies.
    Literal(Seq<char>),
    Failed(Fault),
}

impl Scanner {
    /// The scanner at the start of `input`, with nothing read.
    pub open spec fn start(input: Seq<char>) -> Scanner {
        Scanner { input, position: 0, tokens: Seq::empty() }
    }

    /// The scanner after the white space that it stands at.
    pub open spec fn settled(self) -> Scanner {
        Scanner { position: skip_space(self.input, self.position), ..self }
    }

    /// The scanner after it has read `token`, with `end` the next place.
    pub open spec fn past(self, end: int, token: Token) -> Scanner {
        Scanner { position: end, tokens: self.tokens.push(token), ..self }
    }

    /// Scans on until the text is used up, a literal needs its double, or an
    /// error is met, whichever is first. Gives the scanner where it stopped,
    /// and why. White space before a token and at the end is passed over. A
    /// run of digits and points is one literal: without a point an integer,
    /// which must fit an `i64`; with one point a double; with more an error.
    pub open spec fn run(self) -> (Scanner, Pause)
        decreases self.input.len() - self.position,
        via Self::run_decreases
    {
        let here = self.settled();
        let at = here.position;
        if !(0 <= at < self.input.len()) {
            (here, Pause::Done)
        } else if is_digit(self.input[at]) {
            let end = literal_end(self.input, at);
            let text = self.input.subrange(at, end);
            if points(text) == 1 {
                (here, Pause::Literal(text))
            } else if points(text) == 0 && number_of(text) <= i64::MAX {
                here.past(end, Token::Number(Number::Integer(number_of(text) as i64))).run()
            } else {
                (here, Pause::Failed(Fault::NumberOverflow(text)))
            }
        } else {
            match symbol(self.tokens, self.input[at]) {
                Some(token) => here.past(at + 1, token).run(),
                None => (here, Pause::Failed(Fault::InvalidChar(self.input[at]))),
            }
        }
    }

    /// Each token that is read moves the scanner on.
    #[via_fn]
    proof fn run_decreases(self) {
        lemma_skip_space(self.input, self.position);
        lemma_literal_end(self.input, skip_space(self.input, self.position));
    }

    /// The literal that the scanner stands at and cannot read by itself: one
    /// with a single point, after any white space.
    pub open spec fn waiting(self) -> Option<Seq<char>> {
        let at = skip_space(self.input, self.position);
        let text = self.input.subrange(at, literal_end(self.input, at));
        if 0 <= at < self.input.len() && is_digit(self.input[at]) && points(text) == 1 {
            Some(text)
        } else {
            None
        }
    }

    /// The scanner after the caller has supplied the double for the literal
    /// that the scan stops at. Where it stops for another reason, the scanner
    /// only moves on to that stop.
    pub open spec fn supplied(self, bits: u64) -> Scanner {
        match self.run() {
            (here, Pause::Literal(text)) => here.past(
                here.position + text.len(),
                Token::Number(Number::Float(bits)),
            ),
            (here, _) => here,
        }
    }
}

/// A run of digits and points ends at or after its start, within the text,
/// and holds nothing but digits and points.
pub proof fn lemma_literal_end(s: Seq<char>, i: int)
    ensures
        i <= literal_end(s, i),
        0 <= i <= s.len() ==> literal_end(s, i) <= s.len(),
        0 <= i < s.len() && in_literal(s[i]) ==> i < literal_end(s, i),
        forall|j: int| i <= j < literal_end(s, i) ==> in_literal(#[trigger] s[j]),
    decreases s.len() - i,
{
    if 0 <= i < s.len() && in_literal(s[i]) {
        lemma_literal_end(s, i + 1);
    }
}

/// White space is passed over up to the first character that is none, or to
/// the end of the text, and no further.
pub proof fn lemma_skip_space(s: Seq<char>, i: int)
    ensures
        i <= skip_space(s, i),
        0 <= i <= s.len() ==> skip_space(s, i) <= s.len(),
        forall|j: int| i <= j < skip_space(s, i) ==> is_space(#[trigger] s[j]),
        skip_space(s, skip_space(s, i)) == skip_space(s, i),
    decreases s.len() - i,
{
    if 0 <= i < s.len() && is_space(s[i]) {
        lemma_skip_space(s, i + 1);
    }
}

/// Where a scan stops, it stays: the scanner waits for the literal that it
/// stopped at, if it stopped at one and for nothing else, and to run it again
/// changes nothing. Nothing that was read is lost on the way: the text is
/// the same, and the tokens read before are the first of the tokens after.
pub proof fn lemma_scan_stops(s: Scanner)
    ensures
        s.run().0.waiting() == match s.run().1 {
            Pause::Literal(text) => Some(text),
            _ => None,
        },
        s.run().0.run() == s.run(),
        s.run().0.input == s.input,
        s.run().0.position >= s.position,
        s.run().0.tokens.len() >= s.tokens.len(),
        s.run().0.tokens.take(s.tokens.len() as int) == s.tokens,
    decreases s.input.len() - s.position,
{
    let here = s.settled();
    let at = here.position;
    lemma_skip_space(s.input, s.position);
    assert(here.settled() == here);
    assert(s.tokens.take(s.tokens.len() as int) =~= s.tokens);
    if 0 <= at < s.input.len() {
        lemma_literal_end(s.input, at);
        let next = if is_digit(s.input[at]) {
            let end = literal_end(s.input, at);
            let text = s.input.subrange(at, end);
            if points(text) != 1 && points(text) == 0 && number_of(text) <= i64::MAX {
                Some(here.past(end, Token::Number(Number::Integer(number_of(text) as i64))))
            } else {
                None
            }
        } else {
            match symbol(s.tokens, s.input[at]) {
                Some(token) => Some(here.past(at + 1, token)),
                None => None,
            }
        };
        if let Some(next) = next {
            lemma_scan_stops(next);
            assert(next.tokens.take(s.tokens.len() as int) =~= s.tokens);
            assert(s.run().0.tokens.take(s.tokens.len() as int) =~= s.run().0.tokens.take(
                next.tokens.len() as int,
            ).take(s.tokens.len() as int));
        }
    }
}

/// Supplying the double of a literal moves the scanner on, so a caller that
/// answers every literal comes to the end of the text.
pub proof fn lemma_supplied_moves(s: Scanner, bits: u64)
    requires
        s.run().1 is Literal,
    ensures
        s.supplied(bits).position > s.position,
        s.supplied(bits).input == s.input,
{
    lemma_scan_stops(s);
    let here = s.run().0;
    lemma_skip_space(here.input, here.position);
    lemma_literal_end(here.input, here.position);
}

/// Whether `c` is white space, as Unicode has it.
pub fn is_whitespace(c: char) -> (b: bool)
    ensures
        b == is_space(c),
{
    let n: u32 = c as u32;
    (0x09 <= n && n <= 0x0d) || n == 0x20 || n == 0x85 || n == 0xa0 || n == 0x1680 || (0x2000
        <= n && n <= 0x200a) || n == 0x2028 || n == 0x2029 || n == 0x202f || n == 0x205f || n
        == 0x3000
}

/// Whether `c` is one of the ten ASCII digits.
pub fn is_decimal_digit(c: char) -> (b: bool)
    ensures
        b == is_digit(c),
{
    '0' <= c && c <= '9'
}

/// The characters of `chars` from `from` up to `to`, as a string.
fn text_between(chars: &Vec<char>, from: usize, to: usize) -> (s: String)
    requires
        from <= to <= chars.len(),
    ensures
        s@ == chars@.subrange(from as int, to as int),
{
    let mut s = String::new();
    let mut i: usize = from;
    while i < to
        invariant
            from <= i <= to <= chars.len(),
            s@ == chars@.subrange(from as int, i as int),
        decreases to - i,
    {
        s.push(chars[i]);
        i = i + 1;
        assert(chars@.subrange(from as int, i as int) =~= chars@.subrange(
            from as int,
            i - 1,
        ).push(chars@[i - 1]));
    }
    s
}

/// A tokenizer: a text, and the tokens read from it so far.
#[derive(Debug)]
pub struct Tokenizer {
    tokens: Vec<Token>,
    input: Vec<char>,
    position: usize,
}

impl View for Tokenizer {
    type V = Scanner;

    closed spec fn view(&self) -> Scanner {
        Scanner { input: self.input@, position: self.position as int, tokens: self.tokens@ }
    }
}

/// Why `advance` stopped: the end of a literal stands for its text.
enum Stop {
    Done,
    Literal(usize),
    Failed(SyaError),
}

impl Tokenizer {
    /// A tokenizer at the start of `input`.
    pub fn new(input: &str) -> (t: Tokenizer)
        ensures
            t@ == Scanner::start(input@),
    {
        broadcast use vstd::string::group_string_axioms;

        let mut chars: Vec<char> = Vec::new();
        for c in it: input.chars()
            invariant
                it.seq() == input@,
                chars@ == input@.take(it.index()),
        {
            chars.push(c);
            assert(input@.take(it.index() + 1) =~= input@.take(it.index()).push(c));
        }
        assert(input@.take(input@.len() as int) =~= input@);
        Tokenizer { tokens: Vec::new(), input: chars, position: 0 }
    }

    /// The tokens read so far.
    pub fn tokens(&self) -> (tokens: &Vec<Token>)
        ensures
            tokens@ == self@.tokens,
    {
        &self.tokens
    }

    /// Gives up the tokenizer for the tokens read so far.
    pub fn into_tokens(self) -> (tokens: Vec<Token>)
        ensures
            tokens@ == self@.tokens,
    {
        self.tokens
    }

    /// The token for the sign `sign` at this point of the scan: a binary
    /// operator after a number or a closing parenthesis, else a unary sign.
    pub fn handle_unary(&self, sign: char) -> (token: Token)
        ensures
            token == sign_token(self@.tokens, sign),
    {
        let n = self.tokens.len();
        if n == 0 {
            return Token::UNARY(sign);
        }
        match self.tokens[n - 1] {
            Token::CLOSE | Token::Number(_) => self.op_token(sign, Precedence::SUM),
            _ => Token::UNARY(sign),
        }
    }

    /// The token of a binary operator.
    fn op_token(&self, sign: char, precedence: Precedence) -> (token: Token)
        ensures
            token == Token::Operator(Operator { sign, precedence }),
    {
        Token::Operator(Operator { sign, precedence })
    }

    /// The first place at or after the tokenizer's own that holds no white
    /// space.
    fn skip_space(&self) -> (at: usize)
        ensures
            at == skip_space(self@.input, self@.position),
    {
        let mut at: usize = self.position;
        while at < self.input.len() && is_whitespace(self.input[at])
            invariant
                skip_space(self.input@, at as int) == skip_space(
                    self.input@,
                    self.position as int,
                ),
            decreases self.input.len() - at,
        {
            at = at + 1;
        }
        at
    }

    /// Measures the literal that starts at `start`: where it ends, how many
    /// points it holds, and the integer that it writes, if it writes one that
    /// fits.
    fn read_number(&self, start: usize) -> (r: (usize, usize, Option<i64>))
        requires
            start < self@.input.len(),
        ensures
            r.0 == literal_end(self@.input, start as int),
            start <= r.0 <= self@.input.len(),
            r.1 == points(self@.input.subrange(start as int, r.0 as int)),
            r.2 matches Some(v) ==> r.1 == 0 && v == number_of(
                self@.input.subrange(start as int, r.0 as int),
            ),
            r.2 is None && r.1 == 0 ==> number_of(self@.input.subrange(start as int, r.0 as int))
                > i64::MAX,
    {
        let mut end: usize = start;
        let mut dots: usize = 0;
        let mut value: Option<i64> = Some(0);
        assert(self.input@.subrange(start as int, start as int) =~= Seq::<char>::empty());
        while end < self.input.len() && (is_decimal_digit(self.input[end]) || self.input[end]
            == '.')
            invariant
                start <= end <= self.input.len(),
                literal_end(self.input@, end as int) == literal_end(self.input@, start as int),
                dots <= end - start,
                dots == points(self.input@.subrange(start as int, end as int)),
                value matches Some(v) ==> dots == 0 && 0 <= v && v == number_of(
                    self.input@.subrange(start as int, end as int),
                ),
                value is None && dots == 0 ==> number_of(
                    self.input@.subrange(start as int, end as int),
                ) > i64::MAX,
            decreases self.input.len() - end,
        {
            let c = self.input[end];
            let ghost before = self.input@.subrange(start as int, end as int);
            let ghost after = self.input@.subrange(start as int, end + 1);
            assert(after.drop_last() =~= before);
            assert(after.last() == c);
            if c == '.' {
                dots = dots + 1;
                value = None;
            } else {
                let d: i64 = (c as u32 - '0' as u32) as i64;
                value = match value {
                    Some(v) => match v.checked_mul(10) {
                        Some(tens) => tens.checked_add(d),
                        None => None,
                    },
                    None => None,
                };
            }
            end = end + 1;
        }
        (end, dots, value)
    }

    /// Scans on to the next stop, and says which it is.
    fn advance(&mut self) -> (stop: Stop)
        ensures
            final(self)@ == old(self)@.run().0,
            match old(self)@.run().1 {
                Pause::Done => stop is Done,
                Pause::Literal(text) => {
                    &&& stop matches Stop::Literal(end)
                    &&& 0 <= final(self)@.position <= end <= final(self)@.input.len()
                    &&& text == final(self)@.input.subrange(final(self)@.position, end as int)
                },
                Pause::Failed(fault) => stop matches Stop::Failed(e) && e@ == fault,
            },
    {
        loop
            invariant
                self@.input == old(self)@.input,
                self@.run() == old(self)@.run(),
            decreases self@.input.len() - self@.position,
        {
            proof {
                lemma_skip_space(self@.input, self@.position);
            }
            self.position = self.skip_space();
            if self.position >= self.input.len() {
                return Stop::Done;
            }
            let c = self.input[self.position];
            let token = if c == '(' {
                Token::OPEN
            } else if c == ')' {
                Token::CLOSE
            } else if c == '^' {
                self.op_token(c, Precedence::EXP)
            } else if c == '*' || c == '/' {
                self.op_token(c, Precedence::MUL)
            } else if c == '+' || c == '-' {
                self.handle_unary(c)
            } else if is_decimal_digit(c) {
                let (end, dots, value) = self.read_number(self.position);
                proof {
                    lemma_literal_end(self.input@, self.position as int);
                }
                if dots == 1 {
                    return Stop::Literal(end);
                }
                match value {
                    Some(v) => {
                        self.tokens.push(Token::Number(Number::Integer(v)));
                        self.position = end;
                        continue ;
                    },
                    None => {
                        return Stop::Failed(
                            SyaError::NumberOverflow(
                                text_between(&self.input, self.position, end),
                            ),
                        );
                    },
                }
            } else {
                return Stop::Failed(SyaError::InvalidChar(c));
            };
            self.tokens.push(token);
            self.position = self.position + 1;
        }
    }

    /// Scans on until the text is used up, a literal needs its double, or an
    /// error is met. `Ok(None)` says that the text is used up and the tokens
    /// are complete. `Ok(Some(text))` hands out a literal with one point: the
    /// caller gives the double nearest to it to `supply`, and parses on.
    /// Until then the tokenizer stays at the literal.
    pub fn parse(&mut self) -> (r: Result<Option<String>, SyaError>)
        ensures
            final(self)@ == old(self)@.run().0,
            match old(self)@.run().1 {
                Pause::Done => r matches Ok(None),
                Pause::Literal(text) => r matches Ok(Some(s)) && s@ == text,
                Pause::Failed(fault) => r matches Err(e) && e@ == fault,
            },
    {
        match self.advance() {
            Stop::Done => Ok(None),
            Stop::Literal(end) => Ok(Some(text_between(&self.input, self.position, end))),
            Stop::Failed(e) => Err(e),
        }
    }

    /// The literal that the tokenizer stands at and waits for, if it does.
    pub fn pending(&self) -> (r: Option<String>)
        ensures
            match self@.waiting() {
                Some(text) => r matches Some(s) && s@ == text,
                None => r is None,
            },
    {
        let at = self.skip_space();
        if at < self.input.len() && is_decimal_digit(self.input[at]) {
            let (end, dots, _) = self.read_number(at);
            if dots == 1 {
                return Some(text_between(&self.input, at, end));
            }
        }
        None
    }

    /// Takes `bits` as the double of the literal that the scan stops at, and
    /// steps past the literal. Where the scan stops for another reason, the
    /// tokenizer only moves on to that stop.
    pub fn supply(&mut self, bits: u64)
        ensures
            final(self)@ == old(self)@.supplied(bits),
    {
        match self.advance() {
            Stop::Literal(end) => {
                self.tokens.push(Token::Number(Number::Float(bits)));
                self.position = end;
            },
            _ => {},
        }
    }
}

} // verus!
