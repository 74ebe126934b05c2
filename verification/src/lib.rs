//! Rain on a one-dimensional landscape, in exact decimal arithmetic.
//!
//! A landscape is a row of points. Every hour rain falls on the points, and
//! the water runs to lower neighbours until it has come to rest. The engine
//! that moves the water is verified against a mathematical model of one
//! pass; the model is proved to keep all water, to leave none below zero, to
//! lower a potential with every pass that moves water, and so to come to
//! rest whenever the tolerance is above zero.
//!
//! - `flow`: the model of the landscape and of a pass.
//! - `laws`, `order`, `potential`: what is proved of the model.
//! - `decimal`: the decimals of the `bigdecimal` crate, and what is taken on
//!   trust about them.
//! - `point`, `row`, `topology`, `ranking`: the parts of a landscape.
//! - `landscape`: the landscape and its engine.
//! - `monitor`: the guard that watches the potential.
//! - `solver`: what a simulation offers to the program that drives it.
//! - `tolerance`: agreement of two rows of levels within a tolerance.

pub mod decimal;
pub mod flow;
pub mod landscape;
pub mod laws;
pub mod monitor;
pub mod order;
pub mod point;
pub mod potential;
pub mod ranking;
pub mod row;
pub mod solver;
pub mod tolerance;
pub mod topology;
