//! A small calculator library: it parses a whitespace-tokenized infix
//! arithmetic expression into a binary expression tree and renders the tree
//! as indented text. A separate memoized Fibonacci helper lives in `fib`.

pub mod fib;
pub mod node;
pub mod splitter;
pub mod text;
