//! A pseudo-legal chess move generator.
//!
//! The library owns an 8x8 board of squares, each either empty or holding a
//! piece, and computes for any occupied square the destinations its piece
//! could move to under the piece-movement rules, ignoring check legality.
//! Every query and the single board mutation carry contracts that pin their
//! results down exactly.

pub mod board;
pub mod errors;
pub mod moves;
pub mod piece;
