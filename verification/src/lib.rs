//! A small calculator core: a tokenizer for arithmetic expressions, a
//! recursive-descent parser that builds an abstract syntax tree respecting
//! operator precedence and left-associativity, and an exact evaluator over
//! rational numbers.
//!
//! Text flows one way: a line of text becomes a sequence of tokens, the
//! tokens become a tree, and the tree evaluates to a single rational value
//! or a structured error. Tokenizing never fails; parsing returns the first
//! syntax error it meets; evaluation is exact, and rather than propagating
//! non-finite values it reports division by zero, a non-integer exponent,
//! and a value that no longer fits the machine word as structured math
//! errors. A driver that prefers floating-point semantics can walk the tree
//! itself: the tree and the number literals it holds are plain public data.

pub mod token;
pub mod lexer;
pub mod ast;
pub mod parser;
