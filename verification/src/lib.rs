//! A verified arithmetic-expression engine.
//!
//! The engine turns raw bytes — numbers, `+ - * /`, brackets, implicit
//! multiplication and unary minus — into an evaluation plan, in four
//! stages:
//!
//! * `token_parse` scans the bytes into tokens, keeping each number as the
//!   digit string it was written as;
//! * `validation` checks the token sequence against the expression grammar
//!   and inserts the implicit tokens (a `*` between adjacent values, a `0`
//!   before each unary minus), and proves that the insertion keeps a valid
//!   sequence valid and changes a fully explicit one not at all;
//! * `token_tree` builds a binary expression tree in an index arena in one
//!   left-to-right pass — additive operators graft at the root,
//!   multiplicative ones at the current term, which yields correct
//!   precedence and strict left-to-right associativity without a separate
//!   parsing pass — and flattens the tree into a `Program`, by a recursive
//!   strategy for small arenas or an iterative work-list for large ones;
//! * `pipeline` chains the stages into `compile`, whose contract pins the
//!   outcome, error cases included, for every input.
//!
//! Numeric literals travel through the engine as digit strings, so every
//! stage is independent of any particular number representation.  An
//! executor gives each arena node a value slot, interprets the literals,
//! applies the plan's fold steps in order, and reads the result from the
//! root slot; the plan's contract guarantees that this computes exactly
//! the expression the input denotes, operand order included.

pub mod token_parse;
pub mod validation;
pub mod token_tree;
pub mod pipeline;
