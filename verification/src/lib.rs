//! A fractal tic-tac-toe board: boards nested in boards, where winning a
//! board claims the cell that it fills one level up.
//!
//! A board is a tree of [`cell::Cell`]s. A move names a leaf by a path of
//! [`coord::Coord`]s, one per level, and claims it for a team; the cells
//! above the leaf are then judged anew, from the leaf up. A team holds a
//! cell when three of the children that it holds form a line, which is
//! decided for coordinates of any dimension by sorting them and comparing
//! their steps.
//!
//! - `coord`: coordinates, their difference and their lexicographic order.
//! - `subsets`: the subsets of a given size of a set of coordinates.
//! - `line`: whether coordinates form a line, and whether some three do.
//! - `grid`: the three by three grid and the table of its eight lines.
//! - `cell`: the board, its states, queries and moves.
//! - `factory`: construction of untouched boards.
//! - `history`: a game with the moves made, so that a move can be undone.
//! - `laws`: what holds of every board and every move.
//! - `error`: the reasons for which a request is refused.

pub mod cell;
pub mod coord;
pub mod error;
pub mod factory;
pub mod grid;
pub mod history;
pub mod laws;
pub mod line;
pub mod subsets;
