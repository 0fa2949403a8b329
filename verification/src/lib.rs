//! The verified core of a planet simulator.

pub mod engine;
pub mod fold;
pub mod grid;
pub mod kernel;
pub mod laws;
pub mod order;
pub mod par;
pub mod queue;
pub mod render;
pub mod rng;
pub mod sim;
