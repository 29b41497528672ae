//! An interactive integer expression evaluator.
//!
//! User actions (digits, operators, negation, backspace, clear, evaluate)
//! arrive as events. The dispatcher accumulates them into an infix token
//! stream, and the reducer turns a finished stream into a single integer: it
//! reorders the tokens into postfix form by operator precedence and then
//! reduces them with a numeric stack.

pub mod decimal;
pub mod dispatcher;
pub mod reducer;
