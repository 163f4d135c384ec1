//! A sliding-block puzzle on a grid of five rows and four columns: the board
//! and its pieces, the legal moves, the boards one move away, and a search
//! that walks at random until a piece stands where it is wanted.

pub mod board;
pub mod pieces;
pub mod moves;
pub mod dedup;
pub mod successors;
pub mod cycles;
pub mod search;
