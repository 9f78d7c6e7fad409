//! An arithmetic expression evaluator: a tokenizer, a shunting-yard conversion
//! to postfix form, and a stack machine over integers and doubles.
//!
//! The library computes on integers and holds a double as its IEEE 754 bit
//! pattern. Where a step needs floating-point work, it stops and names the
//! work: the double nearest to a literal, or one operation on two operands.
//! The caller carries it out, hands the bits back and lets the step go on.
//! An expression without doubles and without division never stops.
//!
//! - `number`: the numeric tower.
//! - `tokenizer`: tokens, and the scanner that reads them from text.
//! - `rpn`: the conversion from infix to postfix tokens.
//! - `eval`: the stack machine that evaluates postfix tokens.
//! - `sya`: the session that ties the three together, and the writing of
//!   the postfix form.
//! - `expr`, `written`: integer expressions as trees, and the laws that tie
//!   the pipeline to them: it evaluates a text as the tree that the text
//!   writes.
//! - `text`: integers as decimal text.
//! - `errors`: what can go wrong.

pub mod errors;
pub mod text;
pub mod number;
pub mod tokenizer;
pub mod rpn;
pub mod eval;
pub mod sya;
pub mod expr;
pub mod written;
