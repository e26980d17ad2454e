//! Texas hold'em equity and outs computation.
//!
//! For a set of players holding two private cards against a partially revealed
//! shared board, the library computes each player's chance of holding the best
//! five-card hand at showdown (equity, as an integer rate over 10000), and the
//! specific next cards that would put a player at least tied for best (outs).

pub mod cards;
pub mod eval;
pub mod hand;
pub mod laws;
pub mod logfmt;
pub mod model;
pub mod outs;
pub mod enumerate;
pub mod evaluator;
pub mod showdown;
