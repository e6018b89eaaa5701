//! The position data model: colors, castling rights, and the full position a
//! FEN string decodes to.

use crate::bitboard::PiecePlacement;
use crate::moves::Square;
use vstd::prelude::*;

verus! {

/// The two sides of the game.
#[derive(Debug, Clone, Copy, PartialEq, Eq, Structural)]
pub enum Color {
    White,
    Black,
}

impl Color {
    /// The color's name.
    pub fn string(&self) -> (r: &'static str)
        ensures
            *self == Color::White ==> r@ == spec_white_name(),
            *self == Color::Black ==> r@ == spec_black_name(),
    {
        match self {
            Color::White => {
                proof {
                    reveal_strlit("White");
                    assert("White"@ =~= spec_white_name());
                }
                "White"
            },
            Color::Black => {
                proof {
                    reveal_strlit("Black");
                    assert("Black"@ =~= spec_black_name());
                }
                "Black"
            },
        }
    }

    /// Both colors, in a fixed order.
    pub fn iterator() -> (r: Vec<Color>)
        ensures
            r@ == seq![Color::White, Color::Black],
    {
        let colors = vec![Color::White, Color::Black];
        proof {
            assert(colors@ =~= seq![Color::White, Color::Black]);
        }
        colors
    }
}

pub open spec fn spec_white_name() -> Seq<char> {
    seq!['W', 'h', 'i', 't', 'e']
}

pub open spec fn spec_black_name() -> Seq<char> {
    seq!['B', 'l', 'a', 'c', 'k']
}

/// Whether a side may still castle king-side (first field) and queen-side
/// (second field).
#[derive(Debug, Clone, Copy, PartialEq, Eq, Structural)]
pub struct CastlingTypes(pub bool, pub bool);

/// The castling rights of both sides.  A side with neither right carries
/// `CastlingTypes(false, false)`.
#[derive(Debug, Clone, Copy, PartialEq, Eq, Structural)]
pub struct CastlingRights {
    pub white: CastlingTypes,
    pub black: CastlingTypes,
}

/// A chess position: piece placement, side to move, castling rights,
/// en-passant target and the two move clocks.  Built by the FEN decoder and
/// immutable thereafter.
#[derive(Debug, Clone, Copy, PartialEq, Eq, Structural)]
pub struct Position {
    pub piece_placement: PiecePlacement,
    pub active_color: Color,
    pub castling_rights: Option<CastlingRights>,
    pub en_passant_target: Option<Square>,
    pub half_move_clock: u16,
    pub full_move_number: u16,
}

impl Position {
    /// A position is well formed when its piece placement is and its
    /// en-passant target, if any, lies on the board.
    pub open spec fn wf(&self) -> bool {
        &&& self.piece_placement.wf()
        &&& (self.en_passant_target matches Some(sq) ==> sq.wf())
    }
}

} // verus!
