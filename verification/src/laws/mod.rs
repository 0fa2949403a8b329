//! What the library promises of its main operations, in terms of what goes in and what comes out.

pub mod boundaries;
pub mod crust;
pub mod heat;
pub mod plates;
pub mod reach;
pub mod relief;
pub mod render;
pub mod water;
pub mod weather;
pub mod winds;
