//! An arithmetic expression evaluator for signed integers.
//!
//! Input text is scanned into tokens, parsed by precedence climbing into an
//! expression tree, and the tree is reduced to an `isize`. Addition,
//! subtraction, multiplication, parentheses and a prefix minus are supported;
//! malformed input is reported as one of seven `ParseError` kinds. All
//! arithmetic, including the accumulation of digits into a number, wraps
//! around on overflow (two's-complement, at the native word width).

pub mod interpreter;
pub mod parser;
pub mod tokenizer;
