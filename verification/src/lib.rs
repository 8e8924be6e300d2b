//! Replay and scoring back ends for contest visualizers.
//!
//! The centre of the crate is the engine of a two-agent grid puzzle: a walled
//! square grid holds one integer per cell, two agents walk over it in
//! synchronized turns and may exchange the values they stand on, and a
//! solution is scored by how much it lowers the roughness of the grid.
//!
//! * [`grid`] describes the walls and answers whether a step is legal.
//! * [`energy`] defines the roughness of a value assignment and computes it.
//! * [`replay`] applies turns to a snapshot and stops at the first illegal
//!   move.
//! * [`score`] replays a solution and turns the energies before and after
//!   into a score.
//!
//! Beside it stands the back end of the spaceship puzzle, in which a ship
//! is steered over a list of targets by unit accelerations.
//!
//! * [`spaceship`] decodes solutions and replays them.
//! * [`encoding`] reads and writes instances as text and picks the fixed
//!   instance of a seed.
//! * [`text`] holds what both encodings are made of: white space, tokens,
//!   and integers in base ten.
//! * [`minmax`] updates a running minimum or maximum.

pub mod encoding;
pub mod energy;
pub mod grid;
pub mod minmax;
pub mod replay;
pub mod score;
pub mod spaceship;
pub mod text;
