//! Board squares and their coordinates.

use vstd::prelude::*;

verus! {

/// The file (column) of square `s`: 0 = a through 7 = h.
pub open spec fn file_of(s: u64) -> u64 {
    s % 8
}

/// The rank (row) of square `s`: 0 = rank 1 through 7 = rank 8.
pub open spec fn rank_of(s: u64) -> u64 {
    s / 8
}

/// The absolute difference of two coordinates.
pub open spec fn dist(a: u64, b: u64) -> u64 {
    if a <= b {
        (b - a) as u64
    } else {
        (a - b) as u64
    }
}

/// A board square, numbered 0 through 63 (a1 = 0, b1 = 1, ..., h8 = 63).
#[derive(Debug, Clone, Copy, PartialEq, Eq, Structural)]
pub struct Square(pub u8);

impl Square {
    /// A square is well formed when its index lies on the board.
    pub open spec fn wf(&self) -> bool {
        self.0 < 64
    }

    /// Builds a square from its file and rank, validating the bounds.
    pub fn from_file_rank(file: u8, rank: u8) -> (r: Option<Square>)
        ensures
            r is Some <==> (file < 8 && rank < 8),
            r matches Some(sq) ==> sq.wf() && file_of(sq.0 as u64) == file && rank_of(
                sq.0 as u64,
            ) == rank,
    {
        if file < 8 && rank < 8 {
            let sq = Square(rank * 8 + file);
            proof {
                assert(file < 8 && rank < 8 ==> (rank * 8 + file) % 8 == file && (rank * 8 + file)
                    / 8 == rank) by (nonlinear_arith);
            }
            Some(sq)
        } else {
            None
        }
    }
}

} // verus!
