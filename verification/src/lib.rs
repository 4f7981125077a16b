//! Wave-function-collapse texture synthesis over a fixed-width tile domain.
//!
//! An example image is cut into tiles ([`tiles`]), the tiles are tested against
//! each other for adjacency ([`adjacency`]), and a board of domains
//! ([`domain`]) is collapsed cell by cell ([`engine`]), each cell and tile being
//! chosen at random ([`sampling`]). What a step does is stated over a
//! mathematical model of the engine ([`model`]); [`render`] says how a board
//! looks.

pub mod adjacency;
pub mod color;
pub mod domain;
pub mod engine;
pub mod model;
pub mod render;
pub mod sampling;
pub mod tiles;

pub use color::Color;
pub use engine::{EngineError, WfcEngine};
