//! Scalar types and the exact arithmetic the order conditions run on.

pub mod divisibility;
pub mod expr;
pub mod rational;

pub use rational::Rational;
