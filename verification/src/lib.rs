//! Capacitated vehicle routing on an integer grid.
//!
//! One depot, customers with a position and a demand, vehicles of one
//! capacity: the library builds routes that start and end at the depot, serve
//! every customer exactly once and never load a vehicle beyond its capacity,
//! and it searches for routes of small total length.
//!
//! Positions lie on a grid of whole numbers, `number::GRID` steps to the unit
//! of length, and every distance and cost is a whole number of steps.
//!
//! - `text`, `number`, `parse`: the text of an instance;
//! - `geometry`: customers and the matrix of their distances;
//! - `instance`: what makes an instance unusable;
//! - `route`, `solution`: routes, solutions and what makes them well formed;
//! - `order`, `insertion`, `construct`: the first solution, by cheapest insertion;
//! - `two_opt`: local search on one route;
//! - `perturb`: the swap of two customers between two routes;
//! - `anneal`, `restarts`: simulated annealing and the restart controller;
//! - `render`: the text of a solution;
//! - `chance`, `clock`: random draws and the wall clock.
//!
//! The contracts of the calls into `rand` and of the clock are assumed. Of
//! every other function it is proved that no index leaves its vector, no sum
//! overflows, every loop ends, and the function does what its contract says.

pub mod anneal;
pub mod chance;
pub mod clock;
pub mod construct;
pub mod geometry;
pub mod insertion;
pub mod instance;
pub mod number;
pub mod order;
pub mod parse;
pub mod perturb;
pub mod render;
pub mod restarts;
pub mod route;
pub mod solution;
pub mod text;
pub mod two_opt;
