//! Replay engine for a point-mass agent that moves inside a square arena with
//! wall segments and point targets.
//!
//! A solution is a list of commands, one for each turn: accelerate, or sense
//! the nearest wall along a ray. [`instance::parse_input`] reads an instance
//! from text and [`parse::parse_output`] a solution, [`sim::Sim::query`]
//! makes one turn, and [`replay::replay`] makes the first turns of a solution
//! from the start. [`query::vis`] and [`query::get_max_turn`] answer a host
//! that holds both texts.
//!
//! Start, targets, walls, commands and drift are all integers, so positions
//! and velocities are integers as well, and every decision of the engine
//! (what a move crosses, which targets it reaches, which wall a ray meets
//! first) is made in exact integer arithmetic.

pub mod command;
pub mod geometry;
pub mod geometry_laws;
pub mod instance;
pub mod minmax;
pub mod parse;
pub mod problem;
pub mod query;
pub mod replay;
pub mod sense;
pub mod sim;
pub mod text;

pub use command::Output;
pub use geometry::{sig, Ratio, P};
pub use instance::{parse_input, Noise};
pub use minmax::SetMinMax;
pub use parse::{parse_output, read, ParseError};
pub use problem::Input;
pub use query::{get_max_turn, vis, Frame};
pub use replay::{command_count, replay};
pub use sense::Sensed;
pub use sim::Sim;
