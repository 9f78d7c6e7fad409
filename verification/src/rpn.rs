//! The shunting yard: from infix tokens to postfix tokens.

use vstd::prelude::*;
use crate::errors::{Fault, SyaError};
use crate::tokenizer::{Operator, Precedence, Token};

verus! {

/// The rank by which a token on the holding stack is compared: that of its
/// precedence. A number has none and ranks below everything.
pub open spec fn rank_of(token: Token) -> int {
    match token.spec_precedence() {
        Some(p) => p.spec_rank() as int,
        None => -1,
    }
}

/// The state of a conversion: the holding stack, its top last, and the
/// output so far.
pub ghost struct Yard {
    pub hold: Seq<Token>,
    pub out: Seq<Token>,
}

impl Yard {
    /// The yard before the first token.
    pub open spec fn empty() -> Yard {
        Yard { hold: Seq::empty(), out: Seq::empty() }
    }

    /// Moves the top of the holding stack to the output.
    pub open spec fn popped(self) -> Yard {
        Yard { hold: self.hold.drop_last(), out: self.out.push(self.hold.last()) }
    }

    /// Pops to the output while the top of the holding stack ranks at least
    /// as high as `p`.
    pub open spec fn reduce(self, p: Precedence) -> Yard
        decreases self.hold.len(),
    {
        if self.hold.len() > 0 && rank_of(self.hold.last()) >= p.spec_rank() {
            self.popped().reduce(p)
        } else {
            self
        }
    }

    /// Pops to the output down to the nearest opening parenthesis, and drops
    /// that. Without one on the stack the closing parenthesis has no match.
    pub open spec fn close(self) -> Result<Yard, Fault>
        decreases self.hold.len(),
    {
        if self.hold.len() == 0 {
            Err(Fault::ExpectedChar('('))
        } else if self.hold.last() == Token::OPEN {
            Ok(Yard { hold: self.hold.drop_last(), ..self })
        } else {
            self.popped().close()
        }
    }

    /// Takes one token. A number goes to the output. An opening parenthesis
    /// and a unary sign go on the holding stack. A closing parenthesis pops
    /// down to its match. A binary operator pops what ranks at least as high
    /// as itself, so that operators of one rank group from the left, and goes
    /// on the stack.
    pub open spec fn feed(self, token: Token) -> Result<Yard, Fault> {
        match token {
            Token::Number(_) => Ok(Yard { out: self.out.push(token), ..self }),
            Token::OPEN | Token::UNARY(_) => Ok(Yard { hold: self.hold.push(token), ..self }),
            Token::CLOSE => self.close(),
            Token::Operator(o) => {
                let reduced = self.reduce(o.precedence);
                Ok(Yard { hold: reduced.hold.push(token), ..reduced })
            },
        }
    }

    /// Takes the tokens one after another, up to the first that fails.
    pub open spec fn feed_all(self, tokens: Seq<Token>) -> Result<Yard, Fault>
        decreases tokens.len(),
    {
        if tokens.len() == 0 {
            Ok(self)
        } else {
            match self.feed(tokens.first()) {
                Ok(next) => next.feed_all(tokens.drop_first()),
                Err(fault) => Err(fault),
            }
        }
    }

    /// The output once the holding stack is emptied onto it, top first. An
    /// opening parenthesis that was never closed goes out with the rest.
    pub open spec fn drained(self) -> Seq<Token> {
        self.out + self.hold.reverse()
    }
}

/// The postfix form of `tokens`.
pub open spec fn postfix_of(tokens: Seq<Token>) -> Result<Seq<Token>, Fault> {
    match Yard::empty().feed_all(tokens) {
        Ok(yard) => Ok(yard.drained()),
        Err(fault) => Err(fault),
    }
}

/// Whether each of `part` is one of `tokens` and no closing parenthesis.
pub open spec fn drawn_from(part: Seq<Token>, tokens: Seq<Token>) -> bool {
    forall|i: int|
        0 <= i < part.len() ==> tokens.contains(#[trigger] part[i]) && part[i] != Token::CLOSE
}

impl Yard {
    /// Whether the yard holds nothing but tokens of `tokens`, and no closing
    /// parenthesis.
    pub open spec fn drawn_from(self, tokens: Seq<Token>) -> bool {
        drawn_from(self.hold, tokens) && drawn_from(self.out, tokens)
    }
}

/// A pop only moves a token, and moves no closing parenthesis.
proof fn lemma_popped_drawn(yard: Yard, tokens: Seq<Token>)
    requires
        yard.drawn_from(tokens),
        yard.hold.len() > 0,
    ensures
        yard.popped().drawn_from(tokens),
        yard.popped().hold.len() + yard.popped().out.len() == yard.hold.len() + yard.out.len(),
{
    let next = yard.popped();
    assert forall|i: int| 0 <= i < next.out.len() implies tokens.contains(#[trigger] next.out[i])
        && next.out[i] != Token::CLOSE by {
        if i < yard.out.len() {
            assert(next.out[i] == yard.out[i]);
        } else {
            assert(next.out[i] == yard.hold[yard.hold.len() - 1]);
        }
    }
    assert forall|i: int| 0 <= i < next.hold.len() implies tokens.contains(
        #[trigger] next.hold[i],
    ) && next.hold[i] != Token::CLOSE by {
        assert(next.hold[i] == yard.hold[i]);
    }
}

/// So does a run of pops before an operator.
proof fn lemma_reduce_drawn(yard: Yard, p: Precedence, tokens: Seq<Token>)
    requires
        yard.drawn_from(tokens),
    ensures
        yard.reduce(p).drawn_from(tokens),
        yard.reduce(p).hold.len() + yard.reduce(p).out.len() == yard.hold.len() + yard.out.len(),
    decreases yard.hold.len(),
{
    if yard.hold.len() > 0 && rank_of(yard.hold.last()) >= p.spec_rank() {
        lemma_popped_drawn(yard, tokens);
        lemma_reduce_drawn(yard.popped(), p, tokens);
    }
}

/// A closing parenthesis moves tokens and drops its opening one.
proof fn lemma_close_drawn(yard: Yard, tokens: Seq<Token>)
    requires
        yard.drawn_from(tokens),
    ensures
        yard.close() matches Ok(next) ==> next.drawn_from(tokens) && next.hold.len()
            + next.out.len() < yard.hold.len() + yard.out.len(),
    decreases yard.hold.len(),
{
    if yard.hold.len() == 0 {
    } else if yard.hold.last() == Token::OPEN {
        let next = Yard { hold: yard.hold.drop_last(), ..yard };
        assert forall|i: int| 0 <= i < next.hold.len() implies tokens.contains(
            #[trigger] next.hold[i],
        ) && next.hold[i] != Token::CLOSE by {
            assert(next.hold[i] == yard.hold[i]);
        }
    } else {
        lemma_popped_drawn(yard, tokens);
        lemma_close_drawn(yard.popped(), tokens);
    }
}

/// A token that is taken adds at most itself, and a closing parenthesis
/// never stays.
proof fn lemma_feed_drawn(yard: Yard, token: Token, tokens: Seq<Token>)
    requires
        yard.drawn_from(tokens),
        tokens.contains(token),
    ensures
        yard.feed(token) matches Ok(next) ==> next.drawn_from(tokens) && next.hold.len()
            + next.out.len() <= yard.hold.len() + yard.out.len() + 1,
{
    match token {
        Token::Number(_) => {
            let next = Yard { out: yard.out.push(token), ..yard };
            assert forall|i: int| 0 <= i < next.out.len() implies tokens.contains(
                #[trigger] next.out[i],
            ) && next.out[i] != Token::CLOSE by {
                if i < yard.out.len() {
                    assert(next.out[i] == yard.out[i]);
                }
            }
        },
        Token::OPEN | Token::UNARY(_) => {
            let next = Yard { hold: yard.hold.push(token), ..yard };
            assert forall|i: int| 0 <= i < next.hold.len() implies tokens.contains(
                #[trigger] next.hold[i],
            ) && next.hold[i] != Token::CLOSE by {
                if i < yard.hold.len() {
                    assert(next.hold[i] == yard.hold[i]);
                }
            }
        },
        Token::CLOSE => lemma_close_drawn(yard, tokens),
        Token::Operator(o) => {
            lemma_reduce_drawn(yard, o.precedence, tokens);
            let reduced = yard.reduce(o.precedence);
            let next = Yard { hold: reduced.hold.push(token), ..reduced };
            assert forall|i: int| 0 <= i < next.hold.len() implies tokens.contains(
                #[trigger] next.hold[i],
            ) && next.hold[i] != Token::CLOSE by {
                if i < reduced.hold.len() {
                    assert(next.hold[i] == reduced.hold[i]);
                }
            }
        },
    }
}

/// So it is with a run of tokens.
proof fn lemma_feed_all_drawn(yard: Yard, rest: Seq<Token>, tokens: Seq<Token>)
    requires
        yard.drawn_from(tokens),
        forall|i: int| 0 <= i < rest.len() ==> tokens.contains(#[trigger] rest[i]),
    ensures
        yard.feed_all(rest) matches Ok(next) ==> next.drawn_from(tokens) && next.hold.len()
            + next.out.len() <= yard.hold.len() + yard.out.len() + rest.len(),
    decreases rest.len(),
{
    if rest.len() > 0 {
        assert(tokens.contains(rest[0]));
        lemma_feed_drawn(yard, rest.first(), tokens);
        if let Ok(next) = yard.feed(rest.first()) {
            assert forall|i: int| 0 <= i < rest.drop_first().len() implies tokens.contains(
                #[trigger] rest.drop_first()[i],
            ) by {
                assert(rest.drop_first()[i] == rest[i + 1]);
            }
            lemma_feed_all_drawn(next, rest.drop_first(), tokens);
        }
    }
}

/// The conversion only moves tokens: each token of the postfix form is one of
/// the infix tokens, none is a closing parenthesis, and there are no more of
/// them than there were.
pub proof fn lemma_postfix_is_drawn(tokens: Seq<Token>)
    ensures
        postfix_of(tokens) matches Ok(postfix) ==> drawn_from(postfix, tokens) && postfix.len()
            <= tokens.len(),
{
    lemma_feed_all_drawn(Yard::empty(), tokens, tokens);
    if let Ok(yard) = Yard::empty().feed_all(tokens) {
        let postfix = yard.drained();
        assert forall|i: int| 0 <= i < postfix.len() implies tokens.contains(
            #[trigger] postfix[i],
        ) && postfix[i] != Token::CLOSE by {
            if i < yard.out.len() {
                assert(postfix[i] == yard.out[i]);
            } else {
                assert(postfix[i] == yard.hold[yard.hold.len() - 1 - (i - yard.out.len())]);
            }
        }
    }
}

/// The numbers among `tokens`, in their order.
pub open spec fn numbers(tokens: Seq<Token>) -> Seq<Token>
    decreases tokens.len(),
{
    if tokens.len() == 0 {
        Seq::empty()
    } else if tokens.last() is Number {
        numbers(tokens.drop_last()).push(tokens.last())
    } else {
        numbers(tokens.drop_last())
    }
}

/// The numbers of two runs are those of the first and then those of the
/// second.
proof fn lemma_numbers_concat(first: Seq<Token>, second: Seq<Token>)
    ensures
        numbers(first + second) == numbers(first) + numbers(second),
    decreases second.len(),
{
    if second.len() == 0 {
        assert(first + second =~= first);
        assert(numbers(first) + numbers(second) =~= numbers(first));
    } else {
        assert((first + second).drop_last() =~= first + second.drop_last());
        assert((first + second).last() == second.last());
        lemma_numbers_concat(first, second.drop_last());
        assert(numbers(first + second) =~= numbers(first) + numbers(second));
    }
}

/// A stack without numbers stays without them through pops, and the output
/// gains none.
proof fn lemma_reduce_numbers(yard: Yard, p: Precedence)
    requires
        numbers(yard.hold).len() == 0,
    ensures
        numbers(yard.reduce(p).hold).len() == 0,
        numbers(yard.reduce(p).out) == numbers(yard.out),
    decreases yard.hold.len(),
{
    if yard.hold.len() > 0 && rank_of(yard.hold.last()) >= p.spec_rank() {
        assert(yard.popped().out.drop_last() =~= yard.out);
        lemma_reduce_numbers(yard.popped(), p);
    }
}

/// So it is with the pops before a closing parenthesis.
proof fn lemma_close_numbers(yard: Yard)
    requires
        numbers(yard.hold).len() == 0,
    ensures
        yard.close() matches Ok(next) ==> numbers(next.hold).len() == 0 && numbers(next.out)
            == numbers(yard.out),
    decreases yard.hold.len(),
{
    if yard.hold.len() > 0 && yard.hold.last() != Token::OPEN {
        assert(yard.popped().out.drop_last() =~= yard.out);
        lemma_close_numbers(yard.popped());
    }
}

/// The holding stack never holds a number, and the output holds the numbers
/// taken so far.
proof fn lemma_feed_all_numbers(yard: Yard, rest: Seq<Token>)
    requires
        numbers(yard.hold).len() == 0,
    ensures
        yard.feed_all(rest) matches Ok(next) ==> numbers(next.hold).len() == 0 && numbers(
            next.out,
        ) == numbers(yard.out) + numbers(rest),
    decreases rest.len(),
{
    if rest.len() == 0 {
        assert(numbers(yard.out) + numbers(rest) =~= numbers(yard.out));
    } else {
        let token = rest.first();
        assert(seq![token] + rest.drop_first() =~= rest);
        lemma_numbers_concat(seq![token], rest.drop_first());
        assert(seq![token].drop_last() =~= Seq::<Token>::empty());
        assert(numbers(seq![token].drop_last()) =~= Seq::<Token>::empty());
        match token {
            Token::Number(_) => {
                assert(yard.out.push(token).drop_last() =~= yard.out);
            },
            Token::OPEN | Token::UNARY(_) => {
                assert(yard.hold.push(token).drop_last() =~= yard.hold);
            },
            Token::CLOSE => lemma_close_numbers(yard),
            Token::Operator(o) => {
                lemma_reduce_numbers(yard, o.precedence);
                let reduced = yard.reduce(o.precedence);
                assert(reduced.hold.push(token).drop_last() =~= reduced.hold);
            },
        }
        if let Ok(next) = yard.feed(token) {
            lemma_feed_all_numbers(next, rest.drop_first());
            if let Ok(last) = next.feed_all(rest.drop_first()) {
                assert(numbers(last.out) =~= numbers(yard.out) + numbers(rest));
            }
        }
    }
}

/// The conversion keeps the numbers in their order: the numbers of the
/// postfix form are those of the infix tokens, one after another as they
/// were.
pub proof fn lemma_postfix_keeps_numbers(tokens: Seq<Token>)
    ensures
        postfix_of(tokens) matches Ok(postfix) ==> numbers(postfix) == numbers(tokens),
{
    lemma_feed_all_numbers(Yard::empty(), tokens);
    if let Ok(yard) = Yard::empty().feed_all(tokens) {
        lemma_numbers_concat(yard.out, yard.hold.reverse());
        lemma_numbers_reverse(yard.hold);
        assert(numbers(yard.out) + Seq::<Token>::empty() =~= numbers(yard.out));
        assert(Seq::<Token>::empty() + numbers(tokens) =~= numbers(tokens));
    }
}

/// A run without numbers has none when it is read backwards.
proof fn lemma_numbers_reverse(run: Seq<Token>)
    requires
        numbers(run).len() == 0,
    ensures
        numbers(run.reverse()) =~= Seq::<Token>::empty(),
    decreases run.len(),
{
    if run.len() > 0 {
        assert(run.reverse() =~= seq![run.last()] + run.drop_last().reverse());
        lemma_numbers_concat(seq![run.last()], run.drop_last().reverse());
        lemma_numbers_reverse(run.drop_last());
        assert(seq![run.last()].drop_last() =~= Seq::<Token>::empty());
        assert(numbers(seq![run.last()].drop_last()) =~= Seq::<Token>::empty());
    }
}

/// The order of the precedences. A power binds before a product, a product
/// before a sum, and each of them before an opening parenthesis, which no
/// operator pops. A unary sign and a closing parenthesis rank highest: above
/// every operator that the tokenizer writes, and below no token at all, so
/// that whatever binary operator arrives pops a unary sign from the top of
/// the holding stack.
pub proof fn lemma_precedence_order(o: Operator, sign: char, token: Token, yard: Yard)
    ensures
        Precedence::EXP.spec_rank() > Precedence::MUL.spec_rank() > Precedence::SUM.spec_rank()
            > rank_of(Token::OPEN),
        rank_of(Token::OPEN) == Precedence::MIN.spec_rank(),
        rank_of(Token::UNARY(sign)) == Precedence::MAX.spec_rank(),
        rank_of(Token::CLOSE) == Precedence::MAX.spec_rank(),
        rank_of(token) <= Precedence::MAX.spec_rank(),
        Precedence::MIN.spec_rank() <= o.precedence.spec_rank() <= Precedence::MAX.spec_rank(),
        o.precedence == Precedence::SUM || o.precedence == Precedence::MUL || o.precedence
            == Precedence::EXP ==> rank_of(Token::OPEN) < rank_of(Token::Operator(o)) < rank_of(
            Token::UNARY(sign),
        ),
        yard.hold.len() > 0 && yard.hold.last() == Token::UNARY(sign) ==> yard.reduce(
            o.precedence,
        ) == yard.popped().reduce(o.precedence),
        yard.hold.len() > 0 && yard.hold.last() == Token::OPEN && o.precedence
            != Precedence::MIN ==> yard.reduce(o.precedence) == yard,
{
}

/// Whether the top of `hold` ranks at least as high as `p`.
fn outranks(hold: &Vec<Token>, p: &Precedence) -> (b: bool)
    ensures
        b == (hold@.len() > 0 && rank_of(hold@.last()) >= p.spec_rank()),
{
    if hold.len() == 0 {
        return false;
    }
    match hold[hold.len() - 1].precedence() {
        Some(top) => top.rank() >= p.rank(),
        None => false,
    }
}

/// Converts infix tokens to postfix. Fails with `ExpectedChar('(')` at a
/// closing parenthesis that has no opening one before it, and on nothing
/// else.
#[verifier::loop_isolation(false)]
pub fn to_postfix(tokens: &Vec<Token>) -> (r: Result<Vec<Token>, SyaError>)
    ensures
        match postfix_of(tokens@) {
            Ok(postfix) => r matches Ok(v) && v@ == postfix,
            Err(fault) => r matches Err(e) && e@ == fault,
        },
{
    let mut hold: Vec<Token> = Vec::new();
    let mut out: Vec<Token> = Vec::new();
    let mut i: usize = 0;
    assert(tokens@.skip(0) =~= tokens@);
    while i < tokens.len()
        invariant
            i <= tokens.len(),
            Yard::empty().feed_all(tokens@) == (Yard { hold: hold@, out: out@ }).feed_all(
                tokens@.skip(i as int),
            ),
        decreases tokens.len() - i,
    {
        let token = tokens[i];
        let ghost before = Yard { hold: hold@, out: out@ };
        assert(tokens@.skip(i as int).first() == token);
        assert(tokens@.skip(i as int).drop_first() =~= tokens@.skip(i + 1));
        match token {
            Token::Number(_) => out.push(token),
            Token::OPEN | Token::UNARY(_) => hold.push(token),
            Token::CLOSE => {
                while hold.len() > 0 && hold[hold.len() - 1] != Token::OPEN
                    invariant
                        (Yard { hold: hold@, out: out@ }).close() == before.close(),
                    decreases hold@.len(),
                {
                    let top = hold[hold.len() - 1];
                    hold.pop();
                    out.push(top);
                }
                if hold.len() == 0 {
                    return Err(SyaError::ExpectedChar('('));
                }
                hold.pop();
            },
            Token::Operator(o) => {
                while outranks(&hold, &o.precedence)
                    invariant
                        (Yard { hold: hold@, out: out@ }).reduce(o.precedence) == before.reduce(
                            o.precedence,
                        ),
                    decreases hold@.len(),
                {
                    let top = hold[hold.len() - 1];
                    hold.pop();
                    out.push(top);
                }
                hold.push(token);
            },
        }
        i = i + 1;
    }
    let ghost yard = Yard { hold: hold@, out: out@ };
    while hold.len() > 0
        invariant
            (Yard { hold: hold@, out: out@ }).drained() == yard.drained(),
        decreases hold@.len(),
    {
        let ghost h = hold@;
        let top = hold[hold.len() - 1];
        hold.pop();
        out.push(top);
        assert(out@ + hold@.reverse() =~= out@.drop_last() + h.reverse());
    }
    assert(out@ + hold@.reverse() =~= out@);
    Ok(out)
}

} // verus!
