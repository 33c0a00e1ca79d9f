//! Enumeration of quiet chess positions built from mirrored piece pairs.

pub mod attack;
pub mod board;
pub mod catalog;
pub mod combination;
pub mod fen;
pub mod moves;
pub mod pawns;
pub mod piece;
pub mod search;
