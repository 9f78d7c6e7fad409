//! The postfix evaluator: a stack machine that stops where it needs a double
//! computed.

use vstd::prelude::*;
use crate::errors::{agrees, Fault, SyaError};
use crate::number::{FloatOp, Number, Outcome};
use crate::tokenizer::Token;

verus! {

/// What the binary operator `sign` makes of `a` and `b`.
pub open spec fn applied(sign: char, a: Number, b: Number) -> Result<Outcome, Fault> {
    if sign == '+' {
        a.sum(b)
    } else if sign == '-' {
        a.difference(b)
    } else if sign == '*' {
        a.product(b)
    } else if sign == '/' {
        a.quotient(b)
    } else if sign == '^' {
        match b.exponent() {
            Ok(exp) => a.power(exp),
            Err(fault) => Err(fault),
        }
    } else {
        Err(Fault::InvalidOperation(sign))
    }
}

/// Applies the binary operator `sign` to `a` and `b`.
pub fn apply(sign: char, a: Number, b: Number) -> (r: Result<Outcome, SyaError>)
    ensures
        agrees(r, applied(sign, a, b)),
{
    match sign {
        '+' => a.checked_add(b),
        '-' => a.checked_sub(b),
        '*' => a.checked_mul(b),
        '/' => a.checked_div(b),
        '^' => match b.as_u32() {
            Ok(exp) => a.checked_pow(exp),
            Err(e) => Err(e),
        },
        _ => Err(SyaError::InvalidOperation(sign)),
    }
}

/// An evaluation as specifications see it: the postfix tokens, the place of
/// the next one, and the value stack, its top last.
pub ghost struct Machine {
    pub postfix: Seq<Token>,
    pub cursor: int,
    pub values: Seq<Number>,
}

/// Why an evaluation stops.
pub ghost enum Halt {
    /// The tokens are used up and one value is left: the result.
    Done(Number),
    /// The operator at the cursor needs this step of floating-point
    /// arithmetic, which the caller carries out.
    Ask(FloatOp),
    Failed(Fault),
}

impl Machine {
    /// The machine at the start of `postfix`, with an empty stack.
    pub open spec fn start(postfix: Seq<Token>) -> Machine {
        Machine { postfix, cursor: 0, values: Seq::empty() }
    }

    /// The machine past the token at the cursor, with `values` for its stack.
    pub open spec fn past(self, values: Seq<Number>) -> Machine {
        Machine { cursor: self.cursor + 1, values, ..self }
    }

    /// Takes the token at the cursor: gives the stack after it, or the reason
    /// to stop at it. A number is pushed. A unary sign wants one value and
    /// negates it or leaves it. A binary operator wants two values, pushed
    /// first and second, and replaces them by what it makes of them. A
    /// parenthesis has no place in postfix.
    pub open spec fn step(self) -> Result<Seq<Number>, Halt> {
        let token = self.postfix[self.cursor];
        let n = self.values.len() as int;
        match token {
            Token::Number(v) => Ok(self.values.push(v)),
            Token::UNARY(sign) => if n < 1 {
                Err(Halt::Failed(Fault::ExpectedStackSize(1)))
            } else if sign == '-' {
                match self.values[n - 1].negation() {
                    Ok(v) => Ok(self.values.take(n - 1).push(v)),
                    Err(fault) => Err(Halt::Failed(fault)),
                }
            } else if sign == '+' {
                Ok(self.values)
            } else {
                Err(Halt::Failed(Fault::WrongUnary(sign)))
            },
            Token::Operator(o) => if n < 2 {
                Err(Halt::Failed(Fault::ExpectedStackSize(2)))
            } else {
                match applied(o.sign, self.values[n - 2], self.values[n - 1]) {
                    Ok(Outcome::Value(v)) => Ok(self.values.take(n - 2).push(v)),
                    Ok(Outcome::Deferred(op)) => Err(Halt::Ask(op)),
                    Err(fault) => Err(Halt::Failed(fault)),
                }
            },
            _ => Err(Halt::Failed(Fault::InvalidToken(token))),
        }
    }

    /// Whether tokens are left to take.
    pub open spec fn busy(self) -> bool {
        0 <= self.cursor < self.postfix.len()
    }

    /// Takes token after token until the tokens are used up or one gives a
    /// reason to stop. Gives the machine where it stopped, and why. At the
    /// end exactly one value must be left.
    pub open spec fn run(self) -> (Machine, Halt)
        decreases self.postfix.len() - self.cursor,
    {
        if !self.busy() {
            if self.values.len() == 1 {
                (self, Halt::Done(self.values[0]))
            } else {
                (self, Halt::Failed(Fault::InvalidInput))
            }
        } else {
            match self.step() {
                Ok(values) => self.past(values).run(),
                Err(halt) => (self, halt),
            }
        }
    }

    /// The arithmetic that the machine stands at and cannot do by itself.
    pub open spec fn waiting(self) -> Option<FloatOp> {
        match self.step() {
            Err(Halt::Ask(op)) if self.busy() => Some(op),
            _ => None,
        }
    }

    /// The machine after the caller has supplied the double that the
    /// evaluation stops for: it takes the place of the operator's two
    /// operands. Where the evaluation stops for another reason, the machine
    /// only moves on to that stop.
    pub open spec fn supplied(self, bits: u64) -> Machine {
        match self.run() {
            (here, Halt::Ask(_)) => here.past(
                here.values.take(here.values.len() - 2).push(Number::Float(bits)),
            ),
            (here, _) => here,
        }
    }
}

/// Where an evaluation stops, it stays: the machine waits for the arithmetic
/// that it stopped for, if it stopped for any and for nothing else, and to
/// run it again changes nothing.
pub proof fn lemma_run_stops(m: Machine)
    ensures
        m.run().0.waiting() == match m.run().1 {
            Halt::Ask(op) => Some(op),
            _ => None,
        },
        m.run().0.run() == m.run(),
        m.run().0.postfix == m.postfix,
        m.run().0.cursor >= m.cursor,
    decreases m.postfix.len() - m.cursor,
{
    if m.busy() {
        if let Ok(values) = m.step() {
            lemma_run_stops(m.past(values));
        }
    }
}

/// Supplying the double that an evaluation waits for moves the machine on.
pub proof fn lemma_supplied_moves(m: Machine, bits: u64)
    requires
        m.run().1 is Ask,
    ensures
        m.supplied(bits).cursor > m.cursor,
        m.supplied(bits).postfix == m.postfix,
{
    lemma_run_stops(m);
}

/// Whether `tokens` hold no double and no division.
pub open spec fn integers_only(tokens: Seq<Token>) -> bool {
    forall|i: int|
        0 <= i < tokens.len() ==> match #[trigger] tokens[i] {
            Token::Number(v) => v is Integer,
            Token::Operator(o) => o.sign != '/',
            _ => true,
        }
}

/// Whether the values are integers throughout.
pub open spec fn all_integers(values: Seq<Number>) -> bool {
    forall|i: int| 0 <= i < values.len() ==> #[trigger] values[i] is Integer
}

/// Without doubles and without division an evaluation stays with the
/// integers: it never stops for floating-point arithmetic, and its result, if
/// it has one, is an integer.
pub proof fn lemma_integers_stay(m: Machine)
    requires
        integers_only(m.postfix),
        all_integers(m.values),
    ensures
        !(m.run().1 is Ask),
        m.run().1 matches Halt::Done(v) ==> v is Integer,
    decreases m.postfix.len() - m.cursor,
{
    if m.busy() {
        let n = m.values.len() as int;
        let token = m.postfix[m.cursor];
        if let Token::Operator(o) = token {
            if n >= 2 {
                assert(m.values[n - 2] is Integer && m.values[n - 1] is Integer);
            }
        }
        if let Token::UNARY(_) = token {
            if n >= 1 {
                assert(m.values[n - 1] is Integer);
            }
        }
        if let Ok(values) = m.step() {
            assert forall|i: int| 0 <= i < values.len() implies #[trigger] values[i]
                is Integer by {
                if i < n - 2 {
                    assert(values[i] == m.values[i]);
                } else if i < n {
                    assert(i < m.values.len() ==> m.values[i] is Integer);
                }
            }
            lemma_integers_stay(m.past(values));
        }
    } else if m.values.len() == 1 {
        assert(m.values[0] is Integer);
    }
}

/// An evaluation of postfix tokens.
#[derive(Debug)]
pub struct Evaluation {
    postfix: Vec<Token>,
    cursor: usize,
    values: Vec<Number>,
}

impl View for Evaluation {
    type V = Machine;

    closed spec fn view(&self) -> Machine {
        Machine { postfix: self.postfix@, cursor: self.cursor as int, values: self.values@ }
    }
}

impl Evaluation {
    /// An evaluation at the start of `postfix`, with an empty stack.
    pub fn new(postfix: Vec<Token>) -> (e: Evaluation)
        ensures
            e@ == Machine::start(postfix@),
    {
        Evaluation { postfix, cursor: 0, values: Vec::new() }
    }

    /// Evaluates on until the tokens are used up, a step of floating-point
    /// arithmetic is needed, or an error is met. `Ok(Outcome::Value(v))` is
    /// the result. `Ok(Outcome::Deferred(op))` names the arithmetic: the
    /// caller gives its result to `supply`, and runs on. Until then the
    /// evaluation stays at the operator.
    pub fn run(&mut self) -> (r: Result<Outcome, SyaError>)
        ensures
            final(self)@ == old(self)@.run().0,
            match old(self)@.run().1 {
                Halt::Done(v) => r matches Ok(Outcome::Value(x)) && x == v,
                Halt::Ask(op) => r matches Ok(Outcome::Deferred(x)) && x == op,
                Halt::Failed(fault) => r matches Err(e) && e@ == fault,
            },
    {
        while self.cursor < self.postfix.len()
            invariant
                self@.postfix == old(self)@.postfix,
                self@.run() == old(self)@.run(),
            decreases self.postfix.len() - self.cursor,
        {
            let token = self.postfix[self.cursor];
            let n = self.values.len();
            let ghost before = self@;
            match token {
                Token::Number(v) => self.values.push(v),
                Token::UNARY(sign) => {
                    if n < 1 {
                        return Err(SyaError::ExpectedStackSize(1));
                    }
                    if sign == '-' {
                        match self.values[n - 1].checked_neg() {
                            Ok(v) => {
                                self.values.pop();
                                self.values.push(v);
                                assert(self.values@ =~= before.values.take(n - 1).push(v));
                            },
                            Err(e) => {
                                return Err(e);
                            },
                        }
                    } else if sign != '+' {
                        return Err(SyaError::WrongUnary(sign));
                    }
                },
                Token::Operator(o) => {
                    if n < 2 {
                        return Err(SyaError::ExpectedStackSize(2));
                    }
                    match apply(o.sign, self.values[n - 2], self.values[n - 1]) {
                        Ok(Outcome::Value(v)) => {
                            self.values.pop();
                            self.values.pop();
                            self.values.push(v);
                            assert(self.values@ =~= before.values.take(n - 2).push(v));
                        },
                        Ok(Outcome::Deferred(op)) => {
                            return Ok(Outcome::Deferred(op));
                        },
                        Err(e) => {
                            return Err(e);
                        },
                    }
                },
                _ => {
                    return Err(SyaError::InvalidToken(token));
                },
            }
            self.cursor = self.cursor + 1;
        }
        if self.values.len() == 1 {
            Ok(Outcome::Value(self.values[0]))
        } else {
            Err(SyaError::InvalidInput)
        }
    }

    /// The arithmetic that the evaluation stands at and waits for, if it does.
    pub fn pending(&self) -> (r: Option<FloatOp>)
        ensures
            r == self@.waiting(),
    {
        let n = self.values.len();
        if self.cursor < self.postfix.len() && n >= 2 {
            if let Token::Operator(o) = self.postfix[self.cursor] {
                if let Ok(Outcome::Deferred(op)) = apply(
                    o.sign,
                    self.values[n - 2],
                    self.values[n - 1],
                ) {
                    return Some(op);
                }
            }
        }
        None
    }

    /// Takes `bits` as the double that the evaluation stops for, puts it in
    /// the place of the operator's two operands, and steps past the operator.
    /// Where the evaluation stops for another reason, it only moves on to
    /// that stop.
    pub fn supply(&mut self, bits: u64)
        ensures
            final(self)@ == old(self)@.supplied(bits),
    {
        proof {
            lemma_run_stops(self@);
        }
        match self.run() {
            Ok(Outcome::Deferred(_)) => {
                let ghost here = self@;
                assert(here.waiting() is Some);
                assert(self.cursor < self.postfix.len());
                self.values.pop();
                self.values.pop();
                self.values.push(Number::Float(bits));
                self.cursor = self.cursor + 1;
                assert(self.values@ =~= here.values.take(here.values.len() - 2).push(
                    Number::Float(bits),
                ));
            },
            _ => {},
        }
    }
}

} // verus!
