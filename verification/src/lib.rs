//! Counting the closed tours of rectangular dot grids.
//!
//! A closed tour visits every dot of an `n` by `m` grid once, moving along
//! the lattice, and returns to where it began. The search in [`search`] walks
//! the grid from its upper left corner, clockwise along the boundary, and
//! prunes every branch that cannot be completed.
//!
//! - [`grid`] holds the geometry of the grid, [`board`] the adjacency tables
//!   built from it, and [`rules`] the rules of the search, stated over the
//!   path walked so far.
//! - [`search`] holds the search itself. [`metrics`] holds its counters, and
//!   [`validate`] the bounds that an interactive session puts on a board.
//! - [`enumeration`] ties what the search reports to the paths that its rules
//!   reach, and [`tour`] shows that every accepted path is a closed tour.
//! - [`curve`], [`clockwise`], [`thin`] and [`complete`] show the converse:
//!   the rules lose no tour. [`existence`] writes down a tour for every grid
//!   that has one. [`symmetry`] and [`laws`] draw the consequences for the
//!   counts.

pub mod board;
pub mod clockwise;
pub mod complete;
pub mod curve;
pub mod enumeration;
pub mod existence;
pub mod grid;
pub mod laws;
pub mod metrics;
pub mod rules;
pub mod search;
pub mod symmetry;
pub mod thin;
pub mod tour;
pub mod validate;
