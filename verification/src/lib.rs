//! Exact rational arithmetic, rooted trees and the discrete logic of an ODE
//! method library.

pub mod analysis;
pub mod control;
pub mod method;
pub mod nonlinear;
pub mod num;
pub mod ode;
pub mod problem;
pub mod problems;
pub mod text;
