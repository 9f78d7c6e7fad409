//! Integer expressions as trees, and what the pipeline makes of them.
//!
//! A tree fixes how an expression groups. Its infix writing is the token
//! sequence that the tokenizer would read from its text; its value is found
//! by evaluating the tree from the leaves up. The laws at the end say that
//! the shunting yard and the stack machine agree with the tree.

use vstd::prelude::*;
use crate::errors::Fault;
use crate::eval::{applied, Halt, Machine};
use crate::number::{fits, int_pow, Number, Outcome};
use crate::rpn::{postfix_of, rank_of, Yard};
use crate::sya::{Phase, Session};
use crate::text::decimal;
use crate::tokenizer::{Operator, Precedence, Token};

verus! {

/// An expression over integers without division.
pub ghost enum Expr {
    Num(i64),
    /// A unary sign before its operand.
    Unary(char, Box<Expr>),
    /// A binary operator between its left and right operands.
    Binary(Operator, Box<Expr>, Box<Expr>),
    /// An expression in parentheses.
    Group(Box<Expr>),
}

/// The precedence that the tokenizer gives to the binary operator `sign`.
pub open spec fn precedence_of(sign: char) -> Precedence {
    if sign == '^' {
        Precedence::EXP
    } else if sign == '*' || sign == '/' {
        Precedence::MUL
    } else {
        Precedence::SUM
    }
}

/// What the binary operator `sign` makes of two integers. A result that an
/// `i64` cannot hold is an overflow, and so is an exponent that is negative
/// or beyond `u32`.
pub open spec fn combined(sign: char, a: int, b: int) -> Result<int, Fault> {
    if sign == '^' {
        if !(0 <= b <= u32::MAX) {
            Err(Fault::NumberOverflow(decimal(b)))
        } else if fits(int_pow(a, b as nat)) {
            Ok(int_pow(a, b as nat))
        } else {
            Err(Fault::NumberOverflow(decimal(b)))
        }
    } else {
        let exact = if sign == '+' {
            a + b
        } else if sign == '-' {
            a - b
        } else {
            a * b
        };
        if fits(exact) {
            Ok(exact)
        } else {
            Err(Fault::NumberOverflow(decimal(exact)))
        }
    }
}

impl Expr {
    /// How tightly the expression holds together: a binary expression as its
    /// operator, from 1 for a sum to 3 for a power; a signed one 4; a number
    /// and a group 5.
    pub open spec fn level(self) -> int {
        match self {
            Expr::Binary(o, _, _) => o.precedence.spec_rank() as int,
            Expr::Unary(_, _) => 4,
            _ => 5,
        }
    }

    /// Whether the tree groups as its infix writing reads: operators of one
    /// rank group from the left, a higher rank binds before a lower one, and
    /// a unary sign binds before any binary operator. Each binary operator is
    /// one of `+ - * ^` with its own precedence, and each unary sign is `+`
    /// or `-`.
    pub open spec fn well_formed(self) -> bool
        decreases self,
    {
        match self {
            Expr::Num(_) => true,
            Expr::Unary(sign, operand) => {
                &&& sign == '+' || sign == '-'
                &&& operand.level() >= 4
                &&& operand.well_formed()
            },
            Expr::Binary(o, left, right) => {
                &&& o.sign == '+' || o.sign == '-' || o.sign == '*' || o.sign == '^'
                &&& o.precedence == precedence_of(o.sign)
                &&& left.level() >= o.precedence.spec_rank()
                &&& right.level() > o.precedence.spec_rank()
                &&& left.well_formed()
                &&& right.well_formed()
            },
            Expr::Group(inner) => inner.well_formed(),
        }
    }

    /// The expression as infix tokens.
    pub open spec fn infix(self) -> Seq<Token>
        decreases self,
    {
        match self {
            Expr::Num(n) => seq![Token::Number(Number::Integer(n))],
            Expr::Unary(sign, operand) => seq![Token::UNARY(sign)] + operand.infix(),
            Expr::Binary(o, left, right) => left.infix() + seq![Token::Operator(o)]
                + right.infix(),
            Expr::Group(inner) => seq![Token::OPEN] + inner.infix() + seq![Token::CLOSE],
        }
    }

    /// The expression as postfix tokens: each operator after its operands.
    pub open spec fn postfix(self) -> Seq<Token>
        decreases self,
    {
        match self {
            Expr::Num(n) => seq![Token::Number(Number::Integer(n))],
            Expr::Unary(sign, operand) => operand.postfix() + seq![Token::UNARY(sign)],
            Expr::Binary(o, left, right) => left.postfix() + right.postfix() + seq![
                Token::Operator(o),
            ],
            Expr::Group(inner) => inner.postfix(),
        }
    }

    /// The value of the expression, found from the leaves up, the left
    /// operand before the right one. The first overflow ends the evaluation.
    pub open spec fn value(self) -> Result<int, Fault>
        decreases self,
    {
        match self {
            Expr::Num(n) => Ok(n as int),
            Expr::Unary(sign, operand) => match operand.value() {
                Ok(v) => if sign != '-' {
                    Ok(v)
                } else if fits(-v) {
                    Ok(-v)
                } else {
                    Err(Fault::NumberOverflow(decimal(-v)))
                },
                Err(fault) => Err(fault),
            },
            Expr::Binary(o, left, right) => match left.value() {
                Ok(a) => match right.value() {
                    Ok(b) => combined(o.sign, a, b),
                    Err(fault) => Err(fault),
                },
                Err(fault) => Err(fault),
            },
            Expr::Group(inner) => inner.value(),
        }
    }

    /// The operators of the expression that are still on the holding stack
    /// when its last token has been taken, the top last.
    spec fn held(self) -> Seq<Token>
        decreases self,
    {
        match self {
            Expr::Unary(sign, operand) => seq![Token::UNARY(sign)] + operand.held(),
            Expr::Binary(o, _, right) => seq![Token::Operator(o)] + right.held(),
            _ => Seq::empty(),
        }
    }

    /// The tokens of the expression that are in the output when its last
    /// token has been taken.
    spec fn emitted(self) -> Seq<Token>
        decreases self,
    {
        match self {
            Expr::Num(n) => seq![Token::Number(Number::Integer(n))],
            Expr::Unary(_, operand) => operand.emitted(),
            Expr::Binary(_, left, right) => left.postfix() + right.emitted(),
            Expr::Group(inner) => inner.postfix(),
        }
    }
}

/// The rank that everything held of an expression reaches.
spec fn floor(e: Expr) -> int {
    if e.level() < 4 {
        e.level()
    } else {
        4
    }
}

/// What an expression leaves on the holding stack ranks no lower than the
/// expression itself, and so is no parenthesis.
proof fn lemma_held_ranks(e: Expr)
    requires
        e.well_formed(),
    ensures
        1 <= floor(e),
        forall|i: int| 0 <= i < e.held().len() ==> rank_of(#[trigger] e.held()[i]) >= floor(e),
    decreases e,
{
    match e {
        Expr::Unary(sign, operand) => {
            lemma_held_ranks(*operand);
            assert forall|i: int| 0 <= i < e.held().len() implies rank_of(#[trigger] e.held()[i])
                >= floor(e) by {
                if i > 0 {
                    assert(e.held()[i] == operand.held()[i - 1]);
                }
            }
        },
        Expr::Binary(o, _, right) => {
            lemma_held_ranks(*right);
            assert forall|i: int| 0 <= i < e.held().len() implies rank_of(#[trigger] e.held()[i])
                >= floor(e) by {
                if i > 0 {
                    assert(e.held()[i] == right.held()[i - 1]);
                }
            }
        },
        _ => {},
    }
}

/// What an expression has put out, followed by what it holds, top first, is
/// its postfix form.
proof fn lemma_emitted_then_held(e: Expr)
    ensures
        e.emitted() + e.held().reverse() == e.postfix(),
    decreases e,
{
    match e {
        Expr::Num(_) => {
            assert(e.emitted() + e.held().reverse() =~= e.postfix());
        },
        Expr::Unary(sign, operand) => {
            lemma_emitted_then_held(*operand);
            assert(e.held().reverse() =~= operand.held().reverse() + seq![Token::UNARY(sign)]);
            assert(e.emitted() + e.held().reverse() =~= (operand.emitted()
                + operand.held().reverse()) + seq![Token::UNARY(sign)]);
        },
        Expr::Binary(o, left, right) => {
            lemma_emitted_then_held(*right);
            assert(e.held().reverse() =~= right.held().reverse() + seq![Token::Operator(o)]);
            assert(e.emitted() + e.held().reverse() =~= left.postfix() + (right.emitted()
                + right.held().reverse()) + seq![Token::Operator(o)]);
        },
        Expr::Group(inner) => {
            assert(e.emitted() + e.held().reverse() =~= e.postfix());
        },
    }
}

/// Feeding one run of tokens after another is feeding their concatenation.
pub proof fn lemma_feed_all_concat(yard: Yard, first: Seq<Token>, second: Seq<Token>)
    ensures
        yard.feed_all(first + second) == match yard.feed_all(first) {
            Ok(next) => next.feed_all(second),
            Err(fault) => Err(fault),
        },
    decreases first.len(),
{
    if first.len() == 0 {
        assert(first + second =~= second);
    } else {
        assert((first + second).first() == first.first());
        assert((first + second).drop_first() =~= first.drop_first() + second);
        match yard.feed(first.first()) {
            Ok(next) => lemma_feed_all_concat(next, first.drop_first(), second),
            Err(_) => {},
        }
    }
}

/// Feeding a run of one token is feeding the token.
proof fn lemma_feed_one(yard: Yard, token: Token)
    ensures
        yard.feed_all(seq![token]) == yard.feed(token),
{
    let s = seq![token];
    assert(s.first() == token);
    assert(s.drop_first() =~= Seq::<Token>::empty());
    match yard.feed(token) {
        Ok(next) => {
            assert(next.feed_all(Seq::<Token>::empty()) == Ok::<Yard, Fault>(next));
        },
        Err(_) => {},
    }
}

/// A binary operator pops what is held above a looser top.
proof fn lemma_reduce(base: Seq<Token>, held: Seq<Token>, out: Seq<Token>, p: Precedence)
    requires
        forall|i: int| 0 <= i < held.len() ==> rank_of(#[trigger] held[i]) >= p.spec_rank(),
        base.len() == 0 || rank_of(base.last()) < p.spec_rank(),
    ensures
        (Yard { hold: base + held, out }).reduce(p) == (Yard {
            hold: base,
            out: out + held.reverse(),
        }),
    decreases held.len(),
{
    let yard = Yard { hold: base + held, out };
    if held.len() == 0 {
        assert(base + held =~= base);
        assert(out + held.reverse() =~= out);
    } else {
        assert(yard.hold.last() == held.last());
        assert(yard.hold.drop_last() =~= base + held.drop_last());
        lemma_reduce(base, held.drop_last(), out.push(held.last()), p);
        assert(out.push(held.last()) + held.drop_last().reverse() =~= out + held.reverse());
    }
}

/// A closing parenthesis pops what is held above its opening one.
proof fn lemma_close(base: Seq<Token>, held: Seq<Token>, out: Seq<Token>)
    requires
        forall|i: int| 0 <= i < held.len() ==> #[trigger] held[i] != Token::OPEN,
    ensures
        (Yard { hold: base.push(Token::OPEN) + held, out }).close() == Ok::<Yard, Fault>(
            Yard { hold: base, out: out + held.reverse() },
        ),
    decreases held.len(),
{
    let yard = Yard { hold: base.push(Token::OPEN) + held, out };
    if held.len() == 0 {
        assert(yard.hold =~= base.push(Token::OPEN));
        assert(yard.hold.drop_last() =~= base);
        assert(out + held.reverse() =~= out);
    } else {
        assert(yard.hold.last() == held.last());
        assert(yard.hold.drop_last() =~= base.push(Token::OPEN) + held.drop_last());
        lemma_close(base, held.drop_last(), out.push(held.last()));
        assert(out.push(held.last()) + held.drop_last().reverse() =~= out + held.reverse());
    }
}

/// After its left operand a binary operator pops what the operand left on
/// the holding stack, and goes on the stack itself.
proof fn lemma_feed_operator(yard: Yard, o: Operator, left: Expr)
    requires
        left.well_formed(),
        left.level() >= o.precedence.spec_rank(),
        yard.hold.len() == 0 || rank_of(yard.hold.last()) < o.precedence.spec_rank(),
    ensures
        (Yard { hold: yard.hold + left.held(), out: yard.out + left.emitted() }).feed_all(
            seq![Token::Operator(o)],
        ) == Ok::<Yard, Fault>(
            Yard { hold: yard.hold.push(Token::Operator(o)), out: yard.out + left.postfix() },
        ),
{
    let after_left = Yard { hold: yard.hold + left.held(), out: yard.out + left.emitted() };
    lemma_feed_one(after_left, Token::Operator(o));
    lemma_held_ranks(left);
    lemma_reduce(yard.hold, left.held(), after_left.out, o.precedence);
    lemma_emitted_then_held(left);
    assert(after_left.out + left.held().reverse() =~= yard.out + left.postfix());
}

/// A closing parenthesis pops what the expression before it left on the
/// holding stack, and takes the opening parenthesis away.
proof fn lemma_feed_closing(yard: Yard, inner: Expr)
    requires
        inner.well_formed(),
    ensures
        (Yard {
            hold: yard.hold.push(Token::OPEN) + inner.held(),
            out: yard.out + inner.emitted(),
        }).feed_all(seq![Token::CLOSE]) == Ok::<Yard, Fault>(
            Yard { hold: yard.hold, out: yard.out + inner.postfix() },
        ),
{
    let inside = Yard {
        hold: yard.hold.push(Token::OPEN) + inner.held(),
        out: yard.out + inner.emitted(),
    };
    lemma_feed_one(inside, Token::CLOSE);
    lemma_held_ranks(inner);
    lemma_close(yard.hold, inner.held(), inside.out);
    lemma_emitted_then_held(inner);
    assert(inside.out + inner.held().reverse() =~= yard.out + inner.postfix());
}

/// The yard after the infix tokens of an expression: its held operators on
/// the stack, the rest in the output.
proof fn lemma_feed_expr(yard: Yard, e: Expr)
    requires
        e.well_formed(),
        e.level() < 4 ==> yard.hold.len() == 0 || rank_of(yard.hold.last()) < e.level(),
    ensures
        yard.feed_all(e.infix()) == Ok::<Yard, Fault>(
            Yard { hold: yard.hold + e.held(), out: yard.out + e.emitted() },
        ),
    decreases e,
{
    match e {
        Expr::Num(n) => {
            lemma_feed_one(yard, Token::Number(Number::Integer(n)));
            assert(yard.hold + e.held() =~= yard.hold);
            assert(yard.out + e.emitted() =~= yard.out.push(Token::Number(Number::Integer(n))));
        },
        Expr::Unary(sign, operand) => {
            let signed = Yard { hold: yard.hold.push(Token::UNARY(sign)), ..yard };
            lemma_feed_all_concat(yard, seq![Token::UNARY(sign)], operand.infix());
            lemma_feed_one(yard, Token::UNARY(sign));
            lemma_feed_expr(signed, *operand);
            assert(signed.hold + operand.held() =~= yard.hold + e.held());
        },
        Expr::Binary(o, left, right) => {
            let sign = Token::Operator(o);
            let after_sign = Yard { hold: yard.hold.push(sign), out: yard.out + left.postfix() };
            lemma_feed_all_concat(yard, left.infix() + seq![sign], right.infix());
            lemma_feed_all_concat(yard, left.infix(), seq![sign]);
            lemma_feed_expr(yard, *left);
            lemma_feed_operator(yard, o, *left);
            lemma_feed_expr(after_sign, *right);
            assert(after_sign.hold + right.held() =~= yard.hold + e.held());
            assert(after_sign.out + right.emitted() =~= yard.out + e.emitted());
        },
        Expr::Group(inner) => {
            let opened = Yard { hold: yard.hold.push(Token::OPEN), ..yard };
            lemma_feed_all_concat(yard, seq![Token::OPEN] + inner.infix(), seq![Token::CLOSE]);
            lemma_feed_all_concat(yard, seq![Token::OPEN], inner.infix());
            lemma_feed_one(yard, Token::OPEN);
            lemma_held_ranks(*inner);
            assert(opened.hold.last() == Token::OPEN);
            lemma_feed_expr(opened, *inner);
            lemma_feed_closing(yard, *inner);
            assert(yard.hold + e.held() =~= yard.hold);
        },
    }
}

/// The shunting yard turns the infix tokens of a well-formed expression into
/// its postfix tokens.
pub proof fn lemma_postfix_of_infix(e: Expr)
    requires
        e.well_formed(),
    ensures
        postfix_of(e.infix()) == Ok::<Seq<Token>, Fault>(e.postfix()),
{
    lemma_feed_expr(Yard::empty(), e);
    lemma_emitted_then_held(e);
    assert(Seq::<Token>::empty() + e.held() =~= e.held());
    assert(Seq::<Token>::empty() + e.emitted() =~= e.emitted());
}

/// What the value of a tree is to the stack machine.
pub open spec fn halted(value: Result<int, Fault>) -> Halt {
    match value {
        Ok(v) => Halt::Done(Number::Integer(v as i64)),
        Err(fault) => Halt::Failed(fault),
    }
}

/// The value of a tree is the value of an `i64`.
proof fn lemma_value_fits(e: Expr)
    ensures
        e.value() matches Ok(v) ==> fits(v),
    decreases e,
{
    match e {
        Expr::Num(_) => {},
        Expr::Unary(_, operand) => lemma_value_fits(*operand),
        Expr::Binary(_, left, right) => {
            lemma_value_fits(*left);
            lemma_value_fits(*right);
        },
        Expr::Group(inner) => lemma_value_fits(*inner),
    }
}

/// On two integers the machine's operators are those of the trees.
proof fn lemma_applied(sign: char, a: i64, b: i64)
    requires
        sign == '+' || sign == '-' || sign == '*' || sign == '^',
    ensures
        match combined(sign, a as int, b as int) {
            Ok(v) => applied(sign, Number::Integer(a), Number::Integer(b)) == Ok::<Outcome, Fault>(
                Outcome::Value(Number::Integer(v as i64)),
            ),
            Err(fault) => applied(sign, Number::Integer(a), Number::Integer(b)) == Err::<
                Outcome,
                Fault,
            >(fault),
        },
{
}

/// Whether the machine stands at the tokens `part`.
spec fn stands_at(m: Machine, part: Seq<Token>) -> bool {
    &&& 0 <= m.cursor
    &&& m.cursor + part.len() <= m.postfix.len()
    &&& m.postfix.subrange(m.cursor, m.cursor + part.len()) == part
}

/// The machine behind the tokens `part`, with the integer `v` pushed.
spec fn behind(m: Machine, part: Seq<Token>, v: int) -> Machine {
    Machine {
        cursor: m.cursor + part.len(),
        values: m.values.push(Number::Integer(v as i64)),
        ..m
    }
}

/// A machine that stands at some tokens stands at each part of them.
proof fn lemma_within(m: Machine, whole: Seq<Token>, from: int, to: int)
    requires
        stands_at(m, whole),
        0 <= from <= to <= whole.len(),
    ensures
        m.postfix.subrange(m.cursor + from, m.cursor + to) == whole.subrange(from, to),
        from < whole.len() ==> m.postfix[m.cursor + from] == whole[from],
{
    assert forall|i: int| 0 <= i < whole.len() implies m.postfix[m.cursor + i] == whole[i] by {
        assert(m.postfix.subrange(m.cursor, m.cursor + whole.len())[i] == whole[i]);
    }
    assert(m.postfix.subrange(m.cursor + from, m.cursor + to) =~= whole.subrange(from, to));
}

/// A machine at a unary sign, with an integer on top of its stack, negates
/// the integer or leaves it.
proof fn lemma_run_sign(m: Machine, sign: char, base: Seq<Number>, v: int)
    requires
        m.busy(),
        m.postfix[m.cursor] == Token::UNARY(sign),
        sign == '+' || sign == '-',
        fits(v),
        m.values == base.push(Number::Integer(v as i64)),
    ensures
        sign == '+' ==> m.run() == (Machine { cursor: m.cursor + 1, ..m }).run(),
        sign == '-' && fits(-v) ==> m.run() == (Machine {
            cursor: m.cursor + 1,
            values: base.push(Number::Integer((-v) as i64)),
            ..m
        }).run(),
        sign == '-' && !fits(-v) ==> m.run().1 == Halt::Failed(
            Fault::NumberOverflow(decimal(-v)),
        ),
{
    assert(m.values.take(m.values.len() - 1) =~= base);
}

/// A machine at a binary operator, with two integers on top of its stack,
/// puts what the operator makes of them in their place.
proof fn lemma_run_operator(m: Machine, o: Operator, base: Seq<Number>, a: int, b: int)
    requires
        m.busy(),
        m.postfix[m.cursor] == Token::Operator(o),
        o.sign == '+' || o.sign == '-' || o.sign == '*' || o.sign == '^',
        fits(a),
        fits(b),
        m.values == base.push(Number::Integer(a as i64)).push(Number::Integer(b as i64)),
    ensures
        match combined(o.sign, a, b) {
            Ok(v) => m.run() == (Machine {
                cursor: m.cursor + 1,
                values: base.push(Number::Integer(v as i64)),
                ..m
            }).run(),
            Err(fault) => m.run().1 == Halt::Failed(fault),
        },
{
    lemma_applied(o.sign, a as i64, b as i64);
    assert(m.values.take(m.values.len() - 2) =~= base);
}

/// A machine that stands at the postfix tokens of an expression runs as the
/// machine that stands behind them with the value of the expression pushed;
/// where the expression has no value, it stops on the same fault.
proof fn lemma_run_expr(m: Machine, e: Expr)
    requires
        e.well_formed(),
        stands_at(m, e.postfix()),
    ensures
        match e.value() {
            Ok(v) => m.run() == behind(m, e.postfix(), v).run(),
            Err(fault) => m.run().1 == Halt::Failed(fault),
        },
    decreases e,
{
    let whole = e.postfix();
    match e {
        Expr::Num(v) => {
            lemma_within(m, whole, 0, 1);
        },
        Expr::Unary(sign, operand) => {
            let inner = operand.postfix();
            let k = inner.len() as int;
            assert(whole.subrange(0, k) =~= inner);
            assert(whole[k] == Token::UNARY(sign));
            lemma_within(m, whole, 0, k);
            lemma_within(m, whole, k, k + 1);
            lemma_run_expr(m, *operand);
            lemma_value_fits(*operand);
            if let Ok(v) = operand.value() {
                lemma_run_sign(behind(m, inner, v), sign, m.values, v);
            }
        },
        Expr::Binary(o, left, right) => {
            let first = left.postfix();
            let second = right.postfix();
            let k = first.len() as int;
            let l = second.len() as int;
            assert(whole.subrange(0, k) =~= first);
            assert(whole.subrange(k, k + l) =~= second);
            assert(whole[k + l] == Token::Operator(o));
            lemma_within(m, whole, 0, k);
            lemma_within(m, whole, k, k + l);
            lemma_within(m, whole, k + l, k + l + 1);
            lemma_run_expr(m, *left);
            lemma_value_fits(*left);
            if let Ok(a) = left.value() {
                let mid = behind(m, first, a);
                lemma_run_expr(mid, *right);
                lemma_value_fits(*right);
                if let Ok(b) = right.value() {
                    lemma_run_operator(behind(mid, second, b), o, m.values, a, b);
                }
            }
        },
        Expr::Group(inner) => {
            lemma_run_expr(m, *inner);
        },
    }
}

/// The stack machine gives the postfix tokens of a well-formed expression the
/// value of the expression: an integer, or the fault that the expression
/// itself runs into. It never stops for floating-point arithmetic.
pub proof fn lemma_value_of_postfix(e: Expr)
    requires
        e.well_formed(),
    ensures
        Machine::start(e.postfix()).run().1 == halted(e.value()),
{
    let m = Machine::start(e.postfix());
    assert(m.postfix.subrange(0, e.postfix().len() as int) =~= e.postfix());
    lemma_run_expr(m, e);
    lemma_value_fits(e);
}

/// A session that holds the infix tokens of a well-formed integer expression
/// calculates, in one step, the postfix tokens of the expression and its
/// value: what a direct evaluation of the expression gives, with the usual
/// precedence and grouping from the left.
pub proof fn lemma_calculate_expression(session: Session, e: Expr)
    requires
        e.well_formed(),
        session.input == e.infix(),
    ensures
        session.calculate().0.postfix == e.postfix(),
        session.calculate().0.phase == Phase::Idle,
        match e.value() {
            Ok(v) => {
                &&& session.calculate().1 is Ok
                &&& session.calculate().0.out == Some(Number::Integer(v as i64))
                &&& fits(v)
            },
            Err(fault) => {
                &&& session.calculate().1 == Err::<(), Fault>(fault)
                &&& session.calculate().0.out is None
            },
        },
{
    lemma_postfix_of_infix(e);
    lemma_value_of_postfix(e);
    lemma_value_fits(e);
}

} // verus!
