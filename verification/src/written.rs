//! Expressions as text, and what the tokenizer and the session make of it.

use vstd::prelude::*;
use crate::errors::Fault;
use crate::expr::{lemma_calculate_expression, Expr};
use crate::number::{fits, Number};
use crate::sya::Session;
use crate::text::{digit_char, digit_value, digits, is_digit, number_of};
use crate::tokenizer::{
    in_literal, is_space, literal_end, points, skip_space, symbol, Pause, Scanner, Token,
};

verus! {

/// Whether `gap` is white space throughout.
pub open spec fn blank(gap: Seq<char>) -> bool {
    forall|i: int| 0 <= i < gap.len() ==> is_space(#[trigger] gap[i])
}

impl Expr {
    /// Whether every number in the tree can be written as a literal: none is
    /// negative.
    pub open spec fn plain(self) -> bool
        decreases self,
    {
        match self {
            Expr::Num(n) => n >= 0,
            Expr::Unary(_, operand) => operand.plain(),
            Expr::Binary(_, left, right) => left.plain() && right.plain(),
            Expr::Group(inner) => inner.plain(),
        }
    }

    /// The expression as text, with `gap` before each token.
    pub open spec fn written(self, gap: Seq<char>) -> Seq<char>
        decreases self,
    {
        match self {
            Expr::Num(n) => gap + digits(n as nat),
            Expr::Unary(sign, operand) => gap + seq![sign] + operand.written(gap),
            Expr::Binary(o, left, right) => left.written(gap) + gap + seq![o.sign]
                + right.written(gap),
            Expr::Group(inner) => gap + seq!['('] + inner.written(gap) + gap + seq![')'],
        }
    }
}

/// The digits of a number are digits, and they write the number.
pub proof fn lemma_digits(n: nat)
    ensures
        digits(n).len() >= 1,
        forall|i: int| 0 <= i < digits(n).len() ==> is_digit(#[trigger] digits(n)[i]),
        points(digits(n)) == 0,
        number_of(digits(n)) == n,
    decreases n,
{
    let d = digit_char(n % 10);
    assert(is_digit(d) && digit_value(d) == n % 10 && d != '.');
    if n < 10 {
        let run = seq![d];
        assert(run.drop_last() =~= Seq::<char>::empty());
        assert(run.last() == d);
        assert(points(run.drop_last()) == 0);
        assert(number_of(run.drop_last()) == 0);
    } else {
        lemma_digits(n / 10);
        let run = digits(n / 10).push(d);
        assert(run.drop_last() =~= digits(n / 10));
        assert(run.last() == d);
    }
}

/// A run of literal characters that is followed by another character, or by
/// nothing, ends where it ends.
proof fn lemma_literal_run(s: Seq<char>, at: int, end: int)
    requires
        0 <= at <= end <= s.len(),
        forall|i: int| at <= i < end ==> in_literal(#[trigger] s[i]),
        end < s.len() ==> !in_literal(s[end]),
    ensures
        literal_end(s, at) == end,
    decreases end - at,
{
    if at < end {
        lemma_literal_run(s, at + 1, end);
    }
}

/// A run of white space that is followed by another character, or by
/// nothing, is skipped as a whole.
proof fn lemma_space_run(s: Seq<char>, at: int, end: int)
    requires
        0 <= at <= end <= s.len(),
        forall|i: int| at <= i < end ==> is_space(#[trigger] s[i]),
        end < s.len() ==> !is_space(s[end]),
    ensures
        skip_space(s, at) == end,
    decreases end - at,
{
    if at < end {
        lemma_space_run(s, at + 1, end);
    }
}

/// The last infix token of an expression ends an operand.
proof fn lemma_infix_ends(e: Expr)
    ensures
        e.infix().len() > 0,
        e.infix().last() is Number || e.infix().last() is CLOSE,
    decreases e,
{
    match e {
        Expr::Num(_) => {},
        Expr::Unary(_, operand) => lemma_infix_ends(*operand),
        Expr::Binary(_, _, right) => lemma_infix_ends(*right),
        Expr::Group(_) => {},
    }
}

/// Whether a sign after `tokens` starts an operand.
spec fn opens_operand(tokens: Seq<Token>) -> bool {
    tokens.len() == 0 || !(tokens.last() is Number || tokens.last() is CLOSE)
}

/// Whether the scanner stands at the text `w`, and what follows `w` is no
/// part of a literal.
spec fn stands_at(s: Scanner, w: Seq<char>) -> bool {
    &&& 0 <= s.position
    &&& s.position + w.len() <= s.input.len()
    &&& s.input.subrange(s.position, s.position + w.len()) == w
    &&& s.position + w.len() < s.input.len() ==> !in_literal(s.input[s.position + w.len()])
}

/// The scanner behind the text `w`, with `tokens` read from it.
spec fn behind(s: Scanner, w: Seq<char>, tokens: Seq<Token>) -> Scanner {
    Scanner { position: s.position + w.len(), tokens: s.tokens + tokens, ..s }
}

/// A part of a text that stands in the input stands in the input.
proof fn lemma_within(s: Scanner, w: Seq<char>, from: int, to: int)
    requires
        0 <= s.position,
        s.position + w.len() <= s.input.len(),
        s.input.subrange(s.position, s.position + w.len()) == w,
        0 <= from <= to <= w.len(),
    ensures
        s.input.subrange(s.position + from, s.position + to) == w.subrange(from, to),
        from < w.len() ==> s.input[s.position + from] == w[from],
{
    assert forall|i: int| 0 <= i < w.len() implies s.input[s.position + i] == w[i] by {
        assert(s.input.subrange(s.position, s.position + w.len())[i] == w[i]);
    }
    assert(s.input.subrange(s.position + from, s.position + to) =~= w.subrange(from, to));
}

/// The scanner passes over a gap that stands before the character `c`.
proof fn lemma_scan_gap(s: Scanner, gap: Seq<char>, c: char)
    requires
        blank(gap),
        !is_space(c),
        0 <= s.position,
        s.position + gap.len() < s.input.len(),
        s.input.subrange(s.position, s.position + gap.len()) == gap,
        s.input[s.position + gap.len()] == c,
    ensures
        s.settled().position == s.position + gap.len(),
{
    assert forall|i: int| s.position <= i < s.position + gap.len() implies is_space(
        #[trigger] s.input[i],
    ) by {
        assert(s.input.subrange(s.position, s.position + gap.len())[i - s.position]
            == s.input[i]);
    }
    lemma_space_run(s.input, s.position, s.position + gap.len());
}

/// The scanner reads a written number.
proof fn lemma_scan_num(s: Scanner, n: i64, gap: Seq<char>)
    requires
        n >= 0,
        blank(gap),
        stands_at(s, Expr::Num(n).written(gap)),
    ensures
        s.run() == behind(s, Expr::Num(n).written(gap), Expr::Num(n).infix()).run(),
{
    let w = Expr::Num(n).written(gap);
    let run = digits(n as nat);
    let g = gap.len() as int;
    let at = s.position;
    lemma_digits(n as nat);
    assert(w.subrange(0, g) =~= gap);
    assert(w.subrange(g, w.len() as int) =~= run);
    assert(w[g] == run[0]);
    lemma_within(s, w, 0, g);
    lemma_within(s, w, g, w.len() as int);
    lemma_scan_gap(s, gap, run[0]);
    assert forall|i: int| at + g <= i < at + w.len() implies in_literal(#[trigger] s.input[i]) by {
        assert(s.input.subrange(at + g, at + w.len())[i - at - g] == run[i - at - g]);
    }
    lemma_literal_run(s.input, at + g, at + w.len());
    assert(s.tokens + Expr::Num(n).infix() =~= s.tokens.push(Token::Number(Number::Integer(n))));
}

/// The scanner reads a sign before an operand, and then stands at the
/// operand.
proof fn lemma_scan_sign(s: Scanner, sign: char, operand: Expr, gap: Seq<char>) -> (next:
    Scanner)
    requires
        sign == '+' || sign == '-',
        blank(gap),
        stands_at(s, Expr::Unary(sign, Box::new(operand)).written(gap)),
        opens_operand(s.tokens),
    ensures
        s.run() == next.run(),
        stands_at(next, operand.written(gap)),
        opens_operand(next.tokens),
        behind(next, operand.written(gap), operand.infix()) == behind(
            s,
            Expr::Unary(sign, Box::new(operand)).written(gap),
            Expr::Unary(sign, Box::new(operand)).infix(),
        ),
{
    let e = Expr::Unary(sign, Box::new(operand));
    let w = e.written(gap);
    let inner = operand.written(gap);
    let g = gap.len() as int;
    assert(w.subrange(0, g) =~= gap);
    assert(w.subrange(g + 1, w.len() as int) =~= inner);
    assert(w[g] == sign);
    lemma_within(s, w, 0, g);
    lemma_within(s, w, g, g + 1);
    lemma_within(s, w, g + 1, w.len() as int);
    lemma_scan_gap(s, gap, sign);
    assert(symbol(s.tokens, sign) == Some(Token::UNARY(sign)));
    let next = s.settled().past(s.position + g + 1, Token::UNARY(sign));
    assert(next.tokens + operand.infix() =~= s.tokens + e.infix());
    next
}

/// In a written binary expression the left operand comes first, and what
/// follows it is no part of a literal.
proof fn lemma_left_stands(s: Scanner, e: Expr, gap: Seq<char>)
    requires
        e is Binary,
        e.well_formed(),
        blank(gap),
        stands_at(s, e.written(gap)),
    ensures
        stands_at(s, e->Binary_1.written(gap)),
{
    let w = e.written(gap);
    let first = e->Binary_1.written(gap);
    let f = first.len() as int;
    let g = gap.len() as int;
    assert(w.subrange(0, f) =~= first);
    assert(w[f] == if g > 0 {
        gap[0]
    } else {
        e->Binary_0.sign
    });
    lemma_within(s, w, 0, f);
    lemma_within(s, w, f, f + 1);
}

/// Behind the left operand the scanner reads the operator, and then stands
/// at the right operand.
proof fn lemma_scan_operator(s: Scanner, e: Expr, gap: Seq<char>) -> (next: Scanner)
    requires
        e is Binary,
        e.well_formed(),
        blank(gap),
        stands_at(s, e.written(gap)),
    ensures
        behind(s, e->Binary_1.written(gap), e->Binary_1.infix()).run() == next.run(),
        stands_at(next, e->Binary_2.written(gap)),
        opens_operand(next.tokens),
        behind(next, e->Binary_2.written(gap), e->Binary_2.infix()) == behind(
            s,
            e.written(gap),
            e.infix(),
        ),
{
    let o = e->Binary_0;
    let left = e->Binary_1;
    let right = e->Binary_2;
    let w = e.written(gap);
    let first = left.written(gap);
    let second = right.written(gap);
    let f = first.len() as int;
    let g = gap.len() as int;
    assert(w.subrange(f, f + g) =~= gap);
    assert(w.subrange(f + g + 1, w.len() as int) =~= second);
    assert(w[f + g] == o.sign);
    lemma_within(s, w, f, f + g);
    lemma_within(s, w, f + g, f + g + 1);
    lemma_within(s, w, f + g + 1, w.len() as int);
    let mid = behind(s, first, left.infix());
    lemma_scan_gap(mid, gap, o.sign);
    lemma_infix_ends(*left);
    assert(mid.tokens.last() == left.infix().last());
    assert(symbol(mid.tokens, o.sign) == Some(Token::Operator(o)));
    let next = mid.settled().past(s.position + f + g + 1, Token::Operator(o));
    assert(next.tokens + right.infix() =~= s.tokens + e.infix());
    next
}

/// The scanner reads an opening parenthesis, and then stands at what it
/// opens.
proof fn lemma_scan_open(s: Scanner, inner: Expr, gap: Seq<char>) -> (next: Scanner)
    requires
        blank(gap),
        stands_at(s, Expr::Group(Box::new(inner)).written(gap)),
    ensures
        s.run() == next.run(),
        next == s.settled().past(s.position + gap.len() + 1, Token::OPEN),
        stands_at(next, inner.written(gap)),
        opens_operand(next.tokens),
{
    let e = Expr::Group(Box::new(inner));
    let w = e.written(gap);
    let text = inner.written(gap);
    let g = gap.len() as int;
    let t = text.len() as int;
    assert(w.subrange(0, g) =~= gap);
    assert(w.subrange(g + 1, g + 1 + t) =~= text);
    assert(w[g] == '(');
    assert(w[g + 1 + t] == if g > 0 {
        gap[0]
    } else {
        ')'
    });
    lemma_within(s, w, 0, g);
    lemma_within(s, w, g, g + 1);
    lemma_within(s, w, g + 1, g + 1 + t);
    lemma_within(s, w, g + 1 + t, g + 2 + t);
    lemma_scan_gap(s, gap, '(');
    s.settled().past(s.position + g + 1, Token::OPEN)
}

/// Behind what a parenthesis opens the scanner reads the closing one.
proof fn lemma_scan_close(s: Scanner, inner: Expr, gap: Seq<char>)
    requires
        blank(gap),
        stands_at(s, Expr::Group(Box::new(inner)).written(gap)),
    ensures
        behind(
            s.settled().past(s.position + gap.len() + 1, Token::OPEN),
            inner.written(gap),
            inner.infix(),
        ).run() == behind(
            s,
            Expr::Group(Box::new(inner)).written(gap),
            Expr::Group(Box::new(inner)).infix(),
        ).run(),
{
    let e = Expr::Group(Box::new(inner));
    let w = e.written(gap);
    let text = inner.written(gap);
    let g = gap.len() as int;
    let t = text.len() as int;
    assert(w.subrange(g + 1 + t, g + 1 + t + g) =~= gap);
    assert(w[g + 1 + t + g] == ')');
    lemma_within(s, w, g + 1 + t, g + 1 + t + g);
    lemma_within(s, w, g + 1 + t + g, w.len() as int);
    let end = behind(s.settled().past(s.position + g + 1, Token::OPEN), text, inner.infix());
    lemma_scan_gap(end, gap, ')');
    assert(end.settled().past(s.position + w.len(), Token::CLOSE).tokens =~= s.tokens
        + e.infix());
}

/// A scanner that stands at a written expression, where an operand may
/// start, runs as the scanner that stands behind it with the infix tokens of
/// the expression read.
proof fn lemma_scan_expr(s: Scanner, e: Expr, gap: Seq<char>)
    requires
        e.well_formed(),
        e.plain(),
        blank(gap),
        stands_at(s, e.written(gap)),
        opens_operand(s.tokens),
    ensures
        s.run() == behind(s, e.written(gap), e.infix()).run(),
    decreases e,
{
    match e {
        Expr::Num(n) => lemma_scan_num(s, n, gap),
        Expr::Unary(sign, operand) => {
            let next = lemma_scan_sign(s, sign, *operand, gap);
            lemma_scan_expr(next, *operand, gap);
        },
        Expr::Binary(_, left, right) => {
            lemma_left_stands(s, e, gap);
            lemma_scan_expr(s, *left, gap);
            let next = lemma_scan_operator(s, e, gap);
            lemma_scan_expr(next, *right, gap);
        },
        Expr::Group(inner) => {
            let next = lemma_scan_open(s, *inner, gap);
            lemma_scan_expr(next, *inner, gap);
            lemma_scan_close(s, *inner, gap);
        },
    }
}

/// The tokenizer reads the text of a well-formed expression as the infix
/// tokens of the expression, in one run, whatever white space stands before
/// each token and at the end.
pub proof fn lemma_scan_written(e: Expr, gap: Seq<char>)
    requires
        e.well_formed(),
        e.plain(),
        blank(gap),
    ensures
        Scanner::start(e.written(gap) + gap).run() == (
            Scanner {
                input: e.written(gap) + gap,
                position: (e.written(gap) + gap).len() as int,
                tokens: e.infix(),
            },
            Pause::Done,
        ),
{
    let w = e.written(gap);
    let text = w + gap;
    let s = Scanner::start(text);
    assert(text.subrange(0, w.len() as int) =~= w);
    assert(w.len() < text.len() ==> !in_literal(text[w.len() as int])) by {
        if gap.len() > 0 {
            assert(text[w.len() as int] == gap[0]);
        }
    }
    lemma_scan_expr(s, e, gap);
    assert(s.tokens + e.infix() =~= e.infix());
    assert forall|i: int| w.len() <= i < text.len() implies is_space(#[trigger] text[i]) by {
        assert(text[i] == gap[i - w.len()]);
    }
    lemma_space_run(text, w.len() as int, text.len() as int);
}

/// From text to value: a session that is given the text of a well-formed
/// integer expression and then calculates holds the value of the expression,
/// an integer, or fails with the overflow that the expression itself runs
/// into. The value is that of the tree: operators of higher precedence are
/// applied first, operators of one precedence from the left.
pub proof fn lemma_evaluate_written(session: Session, e: Expr, gap: Seq<char>)
    requires
        e.well_formed(),
        e.plain(),
        blank(gap),
    ensures
        session.new_input(e.written(gap) + gap).1 is Ok,
        session.new_input(e.written(gap) + gap).0.phase is Idle,
        ({
            let read = session.new_input(e.written(gap) + gap).0;
            let (done, answer) = read.calculate();
            &&& read.input == e.infix()
            &&& done.postfix == e.postfix()
            &&& done.phase is Idle
            &&& match e.value() {
                Ok(v) => answer is Ok && done.out == Some(Number::Integer(v as i64)) && fits(v),
                Err(fault) => answer == Err::<(), Fault>(fault) && done.out is None,
            }
        }),
{
    lemma_scan_written(e, gap);
    lemma_calculate_expression(session.new_input(e.written(gap) + gap).0, e);
}

} // verus!
