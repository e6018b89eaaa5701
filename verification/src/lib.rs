//! A chess attack-generation library built on 64-bit bitboards.
//!
//! The board is encoded as a `u64` with bit `i` standing for square `i`
//! (a1 = 0, b1 = 1, ..., h8 = 63).  Leaper attacks (king, knight, pawn) come
//! from precomputed tables; slider attacks (bishop, rook, queen) are computed
//! by the Hyperbola Quintessence occupancy-subtraction technique.  Positions
//! are decoded from FEN strings.

pub mod bitboard;
pub mod fen_parser;
pub mod moves;
pub mod piece;
pub mod position;
pub mod utils;
