//! Front-to-middle pipeline of the Jade language: block chunking, statement
//! classification, expression splitting, typed values with coercion, binary
//! evaluation and a variable store.
//!
//! Policies: a `}` with no open brace is rejected; integer arithmetic that
//! leaves the range of its type fails with `ArithmeticOverflow` rather than
//! wrapping, while explicit casts to an integer width wrap; floats are held
//! as IEEE-754 bit patterns, and the arithmetic and conversions that produce
//! a float are reported as `FloatingPoint` for the host to perform.
#![allow(non_snake_case)]

pub mod lexer;
pub mod parser;
pub mod value;
pub mod float_bits;
pub mod expression;
pub mod evaluator;
pub mod coerce;
pub mod runtime;
pub mod render;
