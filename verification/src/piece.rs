//! Piece types, the precomputed attack tables, and the attack generation
//! itself: table lookups for leapers, Hyperbola Quintessence for sliders.

use crate::bitboard::{
    bit, lemma_bit_ext, lemma_bit_ops, lemma_between_mask_bit, lemma_shift_one_single,
    lemma_nonzero_has_bit, lemma_sub_ray_fill, reverse_bits, shift_direction, shift_one, shift_seq,
    step_target, Bitboard, Direction,
};
use crate::moves::{dist, file_of, rank_of, Square};
use crate::position::Color;
use vstd::prelude::*;

verus! {

/// The six chess piece types.
#[derive(Debug, Clone, Copy, PartialEq, Eq, Structural)]
pub enum PieceType {
    Pawn,
    Knight,
    Bishop,
    Rook,
    Queen,
    King,
}

impl PieceType {
    /// The piece's name.
    pub fn string(&self) -> (r: &'static str)
        ensures
            r@ == spec_piece_name(*self),
    {
        match self {
            PieceType::Pawn => {
                proof {
                    reveal_strlit("Pawn");
                    assert("Pawn"@ =~= spec_piece_name(PieceType::Pawn));
                }
                "Pawn"
            },
            PieceType::Knight => {
                proof {
                    reveal_strlit("Knight");
                    assert("Knight"@ =~= spec_piece_name(PieceType::Knight));
                }
                "Knight"
            },
            PieceType::Bishop => {
                proof {
                    reveal_strlit("Bishop");
                    assert("Bishop"@ =~= spec_piece_name(PieceType::Bishop));
                }
                "Bishop"
            },
            PieceType::Rook => {
                proof {
                    reveal_strlit("Rook");
                    assert("Rook"@ =~= spec_piece_name(PieceType::Rook));
                }
                "Rook"
            },
            PieceType::Queen => {
                proof {
                    reveal_strlit("Queen");
                    assert("Queen"@ =~= spec_piece_name(PieceType::Queen));
                }
                "Queen"
            },
            PieceType::King => {
                proof {
                    reveal_strlit("King");
                    assert("King"@ =~= spec_piece_name(PieceType::King));
                }
                "King"
            },
        }
    }

    /// The figurine glyph of this piece in the given color.
    pub fn piece_rep(&self, color: &Color) -> (r: char)
        ensures
            r == spec_piece_rep(*self, *color),
    {
        match color {
            Color::White => match self {
                PieceType::Pawn => '\u{2659}',
                PieceType::Knight => '\u{2658}',
                PieceType::Bishop => '\u{2657}',
                PieceType::Rook => '\u{2656}',
                PieceType::Queen => '\u{2655}',
                PieceType::King => '\u{2654}',
            },
            Color::Black => match self {
                PieceType::Pawn => '\u{265F}',
                PieceType::Knight => '\u{265E}',
                PieceType::Bishop => '\u{265D}',
                PieceType::Rook => '\u{265C}',
                PieceType::Queen => '\u{265B}',
                PieceType::King => '\u{265A}',
            },
        }
    }

    /// Whether the piece's attack range is blocked by occupancy (bishop,
    /// rook, queen) rather than fixed (pawn, knight, king).
    pub fn is_slider(&self) -> (r: bool)
        ensures
            r == spec_is_slider(*self),
    {
        match self {
            PieceType::Pawn | PieceType::Knight | PieceType::King => false,
            PieceType::Bishop | PieceType::Rook | PieceType::Queen => true,
        }
    }

    /// All six piece types, in a fixed order.
    pub fn iterator() -> (r: Vec<PieceType>)
        ensures
            r@ == seq![
                PieceType::Pawn,
                PieceType::Knight,
                PieceType::Bishop,
                PieceType::Rook,
                PieceType::Queen,
                PieceType::King,
            ],
    {
        let pieces = vec![
            PieceType::Pawn,
            PieceType::Knight,
            PieceType::Bishop,
            PieceType::Rook,
            PieceType::Queen,
            PieceType::King,
        ];
        proof {
            assert(pieces@ =~= seq![
                PieceType::Pawn,
                PieceType::Knight,
                PieceType::Bishop,
                PieceType::Rook,
                PieceType::Queen,
                PieceType::King,
            ]);
        }
        pieces
    }

    /// Returns the combined attack bitboard of a piece standing on `square`,
    /// given the occupancy of its own side and of the opponent.  The result is
    /// the raw geometric attack set: squares occupied by friendly pieces are
    /// not excluded (callers wanting capture targets subtract them).
    pub fn attact_bitboard(
        &self,
        color: &Color,
        square: &Square,
        our_squares: &Bitboard,
        opponent_squares: &Bitboard,
        tables: &AttackTables,
    ) -> (r: Bitboard)
        requires
            tables.wf(),
            square.wf(),
        ensures
            forall|t: u64|
                t < 64 ==> (bit(r, t) <==> spec_attacks(
                    *self,
                    *color,
                    square.0 as u64,
                    *our_squares | *opponent_squares,
                    t,
                )),
    {
        let all_occupied: u64 = *our_squares | *opponent_squares;
        proof {
            lemma_bit_ops();
        }
        match self {
            PieceType::King => tables.king_attacks(square),
            PieceType::Queen => {
                Slider::Diagonal.slider_attacks(square, &all_occupied, tables)
                    | Slider::AntiDiagonal.slider_attacks(square, &all_occupied, tables)
                    | Slider::File.slider_attacks(square, &all_occupied, tables)
                    | Slider::Rank.slider_attacks(square, &all_occupied, tables)
            },
            PieceType::Rook => {
                Slider::File.slider_attacks(square, &all_occupied, tables) | Slider::Rank
                    .slider_attacks(square, &all_occupied, tables)
            },
            PieceType::Bishop => {
                Slider::Diagonal.slider_attacks(square, &all_occupied, tables)
                    | Slider::AntiDiagonal.slider_attacks(square, &all_occupied, tables)
            },
            PieceType::Knight => tables.knight_attacks(square),
            PieceType::Pawn => tables.pawn_attacks(color, square),
        }
    }
}

pub open spec fn spec_piece_name(p: PieceType) -> Seq<char> {
    match p {
        PieceType::Pawn => seq!['P', 'a', 'w', 'n'],
        PieceType::Knight => seq!['K', 'n', 'i', 'g', 'h', 't'],
        PieceType::Bishop => seq!['B', 'i', 's', 'h', 'o', 'p'],
        PieceType::Rook => seq!['R', 'o', 'o', 'k'],
        PieceType::Queen => seq!['Q', 'u', 'e', 'e', 'n'],
        PieceType::King => seq!['K', 'i', 'n', 'g'],
    }
}

pub open spec fn spec_piece_rep(p: PieceType, c: Color) -> char {
    match c {
        Color::White => match p {
            PieceType::Pawn => '\u{2659}',
            PieceType::Knight => '\u{2658}',
            PieceType::Bishop => '\u{2657}',
            PieceType::Rook => '\u{2656}',
            PieceType::Queen => '\u{2655}',
            PieceType::King => '\u{2654}',
        },
        Color::Black => match p {
            PieceType::Pawn => '\u{265F}',
            PieceType::Knight => '\u{265E}',
            PieceType::Bishop => '\u{265D}',
            PieceType::Rook => '\u{265C}',
            PieceType::Queen => '\u{265B}',
            PieceType::King => '\u{265A}',
        },
    }
}

pub open spec fn spec_is_slider(p: PieceType) -> bool {
    match p {
        PieceType::Pawn | PieceType::Knight | PieceType::King => false,
        PieceType::Bishop | PieceType::Rook | PieceType::Queen => true,
    }
}

/// The four axes a slider can attack along.
#[derive(Debug, Clone, Copy, PartialEq, Eq, Structural)]
pub enum Slider {
    File,
    Rank,
    Diagonal,
    AntiDiagonal,
}

/// Whether squares `s` and `t` lie on the given axis line through `s`.
pub open spec fn on_line(axis: Slider, s: u64, t: u64) -> bool {
    match axis {
        Slider::File => file_of(t) == file_of(s),
        Slider::Rank => rank_of(t) == rank_of(s),
        Slider::Diagonal => file_of(t) + rank_of(s) == file_of(s) + rank_of(t),
        Slider::AntiDiagonal => file_of(t) + rank_of(t) == file_of(s) + rank_of(s),
    }
}

/// The Chebyshev distance of two squares: the greater of their file and rank
/// distances.
pub open spec fn chebyshev_distance(s: u64, t: u64) -> u64 {
    let df = dist(file_of(s), file_of(t));
    let dr = dist(rank_of(s), rank_of(t));
    if df <= dr {
        dr
    } else {
        df
    }
}

/// The squares a king attacks: Chebyshev distance exactly 1.
pub open spec fn king_reach(s: u64, t: u64) -> bool {
    chebyshev_distance(s, t) == 1
}

/// The squares a knight attacks: file and rank offsets of (1, 2) or (2, 1).
pub open spec fn knight_reach(s: u64, t: u64) -> bool {
    let df = dist(file_of(s), file_of(t));
    let dr = dist(rank_of(s), rank_of(t));
    (df == 1 && dr == 2) || (df == 2 && dr == 1)
}

/// The squares a pawn of the given color attacks: one rank forward, one file
/// aside.
pub open spec fn pawn_reach(c: Color, s: u64, t: u64) -> bool {
    dist(file_of(s), file_of(t)) == 1 && (match c {
        Color::White => rank_of(t) == rank_of(s) + 1,
        Color::Black => rank_of(t) + 1 == rank_of(s),
    })
}

/// The squares a slider on `s` attacks along `axis` under occupancy `occ`:
/// the squares of the line whose path from `s` crosses no occupied square.
/// The first occupied square of a ray is included, whatever its color.
pub open spec fn slider_attacked(axis: Slider, s: u64, occ: u64, t: u64) -> bool {
    &&& on_line(axis, s, t)
    &&& t != s
    &&& forall|u: u64|
        u < 64 && #[trigger] on_line(axis, s, u) && strictly_between(s, u, t) ==> !bit(occ, u)
}

/// Whether `u` lies strictly between `a` and `b` in square order.
pub open spec fn strictly_between(a: u64, u: u64, b: u64) -> bool {
    (a < u && u < b) || (b < u && u < a)
}

/// The king steps written as square arithmetic: one step in any of the eight
/// directions that stays on the board.
spec fn king_hits(s: u64, t: u64) -> bool {
    ||| (rank_of(s) > 0 && t + 8 == s)
    ||| (rank_of(s) < 7 && t == s + 8)
    ||| (file_of(s) < 7 && t == s + 1)
    ||| (file_of(s) > 0 && t + 1 == s)
    ||| (rank_of(s) < 7 && file_of(s) > 0 && t == s + 7)
    ||| (rank_of(s) < 7 && file_of(s) < 7 && t == s + 9)
    ||| (rank_of(s) > 0 && file_of(s) > 0 && t + 9 == s)
    ||| (rank_of(s) > 0 && file_of(s) < 7 && t + 7 == s)
}

/// The knight jumps written as square arithmetic: two masked single steps,
/// through the intermediate square each compound shift passes.
spec fn knight_hits(s: u64, t: u64) -> bool {
    ||| (rank_of(s) > 0 && rank_of((s - 8) as u64) > 0 && file_of((s - 8) as u64) > 0 && t + 17
        == s)
    ||| (rank_of(s) > 0 && rank_of((s - 8) as u64) > 0 && file_of((s - 8) as u64) < 7 && t + 15
        == s)
    ||| (file_of(s) < 7 && rank_of((s + 1) as u64) > 0 && file_of((s + 1) as u64) < 7 && t + 6
        == s)
    ||| (file_of(s) < 7 && rank_of((s + 1) as u64) < 7 && file_of((s + 1) as u64) < 7 && t == s
        + 10)
    ||| (rank_of(s) < 7 && rank_of((s + 8) as u64) < 7 && file_of((s + 8) as u64) > 0 && t == s
        + 15)
    ||| (rank_of(s) < 7 && rank_of((s + 8) as u64) < 7 && file_of((s + 8) as u64) < 7 && t == s
        + 17)
    ||| (file_of(s) > 0 && rank_of((s - 1) as u64) > 0 && file_of((s - 1) as u64) > 0 && t + 10
        == s)
    ||| (file_of(s) > 0 && rank_of((s - 1) as u64) < 7 && file_of((s - 1) as u64) > 0 && t == s
        + 6)
}

/// The pawn captures written as square arithmetic: one diagonal step forward,
/// where forward depends on the color.
spec fn pawn_hits(white: bool, s: u64, t: u64) -> bool {
    if white {
        (rank_of(s) < 7 && file_of(s) > 0 && t == s + 7) || (rank_of(s) < 7 && file_of(s) < 7 && t
            == s + 9)
    } else {
        (rank_of(s) > 0 && file_of(s) > 0 && t + 9 == s) || (rank_of(s) > 0 && file_of(s) < 7 && t
            + 7 == s)
    }
}

proof fn lemma_king_hits_reach(s: u64, t: u64)
    by (bit_vector)
    requires
        s < 64,
        t < 64,
    ensures
        king_hits(s, t) <==> king_reach(s, t),
{
}

proof fn lemma_knight_hits_reach(s: u64, t: u64)
    by (bit_vector)
    requires
        s < 64,
        t < 64,
    ensures
        knight_hits(s, t) <==> knight_reach(s, t),
{
}

proof fn lemma_pawn_hits_reach(s: u64, t: u64)
    by (bit_vector)
    requires
        s < 64,
        t < 64,
    ensures
        pawn_hits(true, s, t) <==> (dist(file_of(s), file_of(t)) == 1 && rank_of(t) == rank_of(s)
            + 1),
        pawn_hits(false, s, t) <==> (dist(file_of(s), file_of(t)) == 1 && rank_of(t) + 1 == rank_of(
            s,
        )),
{
}

/// Bounds a square's coordinates put on its index.
proof fn lemma_square_coord_bounds(s: u64)
    by (bit_vector)
    requires
        s < 64,
    ensures
        rank_of(s) <= 7 && file_of(s) <= 7,
        rank_of(s) < 7 <==> s < 56,
        rank_of(s) > 0 <==> s >= 8,
        file_of(s) < 7 ==> s <= 62,
        file_of(s) > 0 ==> s >= 1,
        rank_of(s) < 7 && file_of(s) < 7 ==> s <= 54,
        rank_of(s) > 0 && file_of(s) > 0 ==> s >= 9,
{
}

proof fn lemma_shift_seq_one(b: u64, d: Direction)
    ensures
        shift_seq(b, seq![d]) == shift_one(b, d),
{
    reveal_with_fuel(shift_seq, 2);
    assert(seq![d].drop_first() =~= Seq::<Direction>::empty());
}

proof fn lemma_shift_seq_two(b: u64, d1: Direction, d2: Direction)
    ensures
        shift_seq(b, seq![d1, d2]) == shift_one(shift_one(b, d1), d2),
{
    reveal_with_fuel(shift_seq, 3);
    assert(seq![d1, d2].drop_first() =~= seq![d2]);
    assert(seq![d2].drop_first() =~= Seq::<Direction>::empty());
}

/// One king-attack table entry: the union of the eight single-step shifts of
/// the square's singleton bitboard.
fn king_entry(s: u64) -> (e: u64)
    requires
        s < 64,
    ensures
        forall|t: u64| t < 64 ==> (bit(e, t) <==> king_reach(s, t)),
{
    let square_bb: u64 = 1u64 << s;
    let dirs_s = [Direction::South];
    let dirs_n = [Direction::North];
    let dirs_e = [Direction::East];
    let dirs_w = [Direction::West];
    let dirs_nw = [Direction::NorthWest];
    let dirs_ne = [Direction::NorthEast];
    let dirs_sw = [Direction::SouthWest];
    let dirs_se = [Direction::SouthEast];
    let e = shift_direction(&square_bb, &dirs_s) | shift_direction(&square_bb, &dirs_n)
        | shift_direction(&square_bb, &dirs_e) | shift_direction(&square_bb, &dirs_w)
        | shift_direction(&square_bb, &dirs_nw) | shift_direction(&square_bb, &dirs_ne)
        | shift_direction(&square_bb, &dirs_sw) | shift_direction(&square_bb, &dirs_se);
    proof {
        assert(dirs_s@ =~= seq![Direction::South]);
        assert(dirs_n@ =~= seq![Direction::North]);
        assert(dirs_e@ =~= seq![Direction::East]);
        assert(dirs_w@ =~= seq![Direction::West]);
        assert(dirs_nw@ =~= seq![Direction::NorthWest]);
        assert(dirs_ne@ =~= seq![Direction::NorthEast]);
        assert(dirs_sw@ =~= seq![Direction::SouthWest]);
        assert(dirs_se@ =~= seq![Direction::SouthEast]);
        lemma_shift_seq_one(square_bb, Direction::South);
        lemma_shift_seq_one(square_bb, Direction::North);
        lemma_shift_seq_one(square_bb, Direction::East);
        lemma_shift_seq_one(square_bb, Direction::West);
        lemma_shift_seq_one(square_bb, Direction::NorthWest);
        lemma_shift_seq_one(square_bb, Direction::NorthEast);
        lemma_shift_seq_one(square_bb, Direction::SouthWest);
        lemma_shift_seq_one(square_bb, Direction::SouthEast);
        lemma_shift_one_single(s, Direction::South);
        lemma_shift_one_single(s, Direction::North);
        lemma_shift_one_single(s, Direction::East);
        lemma_shift_one_single(s, Direction::West);
        lemma_shift_one_single(s, Direction::NorthWest);
        lemma_shift_one_single(s, Direction::NorthEast);
        lemma_shift_one_single(s, Direction::SouthWest);
        lemma_shift_one_single(s, Direction::SouthEast);
        lemma_square_coord_bounds(s);
        assert forall|t: u64| t < 64 implies (bit(e, t) <==> king_reach(s, t)) by {
            lemma_bit_ops();
            assert(bit(e, t) <==> king_hits(s, t));
            lemma_king_hits_reach(s, t);
        }
    }
    e
}

/// One knight-attack table entry: the union of the eight compound shifts,
/// each expressed as two masked single steps.
fn knight_entry(s: u64) -> (e: u64)
    requires
        s < 64,
    ensures
        forall|t: u64| t < 64 ==> (bit(e, t) <==> knight_reach(s, t)),
{
    let square_bb: u64 = 1u64 << s;
    let dirs_ssw = [Direction::South, Direction::SouthWest];
    let dirs_sse = [Direction::South, Direction::SouthEast];
    let dirs_ese = [Direction::East, Direction::SouthEast];
    let dirs_ene = [Direction::East, Direction::NorthEast];
    let dirs_nnw = [Direction::North, Direction::NorthWest];
    let dirs_nne = [Direction::North, Direction::NorthEast];
    let dirs_wsw = [Direction::West, Direction::SouthWest];
    let dirs_wnw = [Direction::West, Direction::NorthWest];
    let e = shift_direction(&square_bb, &dirs_ssw) | shift_direction(&square_bb, &dirs_sse)
        | shift_direction(&square_bb, &dirs_ese) | shift_direction(&square_bb, &dirs_ene)
        | shift_direction(&square_bb, &dirs_nnw) | shift_direction(&square_bb, &dirs_nne)
        | shift_direction(&square_bb, &dirs_wsw) | shift_direction(&square_bb, &dirs_wnw);
    proof {
        assert(dirs_ssw@ =~= seq![Direction::South, Direction::SouthWest]);
        assert(dirs_sse@ =~= seq![Direction::South, Direction::SouthEast]);
        assert(dirs_ese@ =~= seq![Direction::East, Direction::SouthEast]);
        assert(dirs_ene@ =~= seq![Direction::East, Direction::NorthEast]);
        assert(dirs_nnw@ =~= seq![Direction::North, Direction::NorthWest]);
        assert(dirs_nne@ =~= seq![Direction::North, Direction::NorthEast]);
        assert(dirs_wsw@ =~= seq![Direction::West, Direction::SouthWest]);
        assert(dirs_wnw@ =~= seq![Direction::West, Direction::NorthWest]);
        lemma_knight_compound(square_bb, s, Direction::South, Direction::SouthWest);
        lemma_knight_compound(square_bb, s, Direction::South, Direction::SouthEast);
        lemma_knight_compound(square_bb, s, Direction::East, Direction::SouthEast);
        lemma_knight_compound(square_bb, s, Direction::East, Direction::NorthEast);
        lemma_knight_compound(square_bb, s, Direction::North, Direction::NorthWest);
        lemma_knight_compound(square_bb, s, Direction::North, Direction::NorthEast);
        lemma_knight_compound(square_bb, s, Direction::West, Direction::SouthWest);
        lemma_knight_compound(square_bb, s, Direction::West, Direction::NorthWest);
        lemma_square_coord_bounds(s);
        assert forall|t: u64| t < 64 implies (bit(e, t) <==> knight_reach(s, t)) by {
            lemma_bit_ops();
            assert(bit(e, t) <==> knight_hits(s, t));
            lemma_knight_hits_reach(s, t);
        }
    }
    e
}

/// A two-step compound shift of a singleton lands on the composed target.
proof fn lemma_knight_compound(square_bb: u64, s: u64, d1: Direction, d2: Direction)
    requires
        s < 64,
        square_bb == 1u64 << s,
    ensures
        shift_seq(square_bb, seq![d1, d2]) == (match step_target(s, d1) {
            Some(m) => match step_target(m, d2) {
                Some(t) => 1u64 << t,
                None => 0u64,
            },
            None => 0u64,
        }),
{
    lemma_shift_seq_two(square_bb, d1, d2);
    lemma_shift_one_single(s, d1);
    lemma_square_coord_bounds(s);
    match step_target(s, d1) {
        Some(m) => {
            lemma_square_coord_bounds(s);
            assert(m < 64) by {
                lemma_square_coord_bounds(s);
            }
            lemma_shift_one_single(m, d2);
        },
        None => {
            assert(shift_one(0u64, d2) == 0u64) by {
                lemma_shift_zero(d2);
            }
        },
    }
}

/// Shifting an empty bitboard gives an empty bitboard.
proof fn lemma_shift_zero(d: Direction)
    ensures
        shift_one(0u64, d) == 0u64,
{
    assert((0u64 << 8) == 0u64 && (0u64 >> 8) == 0u64 && ((0u64 << 1) & 0xfefe_fefe_fefe_fefeu64)
        == 0u64 && ((0u64 >> 1) & 0x7f7f_7f7f_7f7f_7f7fu64) == 0u64 && ((0u64 << 9)
        & 0xfefe_fefe_fefe_fefeu64) == 0u64 && ((0u64 >> 7) & 0xfefe_fefe_fefe_fefeu64) == 0u64 && (
    (0u64 >> 9) & 0x7f7f_7f7f_7f7f_7f7fu64) == 0u64 && ((0u64 << 7) & 0x7f7f_7f7f_7f7f_7f7fu64)
        == 0u64) by (bit_vector);
}

/// One pawn-attack table entry: the two forward diagonal single steps of the
/// given color.
fn pawn_entry(white: bool, s: u64) -> (e: u64)
    requires
        s < 64,
    ensures
        white ==> forall|t: u64|
            t < 64 ==> (bit(e, t) <==> pawn_reach(Color::White, s, t)),
        !white ==> forall|t: u64|
            t < 64 ==> (bit(e, t) <==> pawn_reach(Color::Black, s, t)),
{
    let square_bb: u64 = 1u64 << s;
    let (d1, d2) = if white {
        (Direction::NorthWest, Direction::NorthEast)
    } else {
        (Direction::SouthWest, Direction::SouthEast)
    };
    let dirs1 = [d1];
    let dirs2 = [d2];
    let e = shift_direction(&square_bb, &dirs1) | shift_direction(&square_bb, &dirs2);
    proof {
        assert(dirs1@ =~= seq![d1]);
        assert(dirs2@ =~= seq![d2]);
        lemma_shift_seq_one(square_bb, d1);
        lemma_shift_seq_one(square_bb, d2);
        lemma_shift_one_single(s, d1);
        lemma_shift_one_single(s, d2);
        lemma_square_coord_bounds(s);
        assert forall|t: u64| t < 64 implies (bit(e, t) <==> pawn_hits(white, s, t)) by {
            lemma_bit_ops();
        }
        assert forall|t: u64| t < 64 implies (bit(e, t) <==> (if white {
            pawn_reach(Color::White, s, t)
        } else {
            pawn_reach(Color::Black, s, t)
        })) by {
            lemma_pawn_hits_reach(s, t);
        }
    }
    e
}

/// One square's slider line mask along the given axis, excluding the square
/// itself.
fn line_mask_entry(axis: &Slider, s: u64) -> (m: u64)
    requires
        s < 64,
    ensures
        forall|t: u64| t < 64 ==> (bit(m, t) <==> (on_line(*axis, s, t) && t != s)),
{
    let mut m: u64 = 0;
    let mut t: u64 = 0;
    proof {
        lemma_bit_ops();
    }
    while t < 64
        invariant
            t <= 64,
            s < 64,
            forall|u: u64| u < 64 ==> (bit(m, u) <==> (u < t && on_line(*axis, s, u) && u != s)),
        decreases 64 - t,
    {
        let hit = match axis {
            Slider::File => t % 8 == s % 8,
            Slider::Rank => t / 8 == s / 8,
            Slider::Diagonal => t % 8 + s / 8 == s % 8 + t / 8,
            Slider::AntiDiagonal => t % 8 + t / 8 == s % 8 + s / 8,
        };
        proof {
            lemma_bit_ops();
        }
        if hit && t != s {
            m = m | (1u64 << t);
        }
        t = t + 1;
    }
    m
}

/// The per-square masks the slider attack formula needs: the square's own bit
/// and the four line masks through the square, each excluding the square.
#[derive(Debug, Clone, Copy, PartialEq, Eq, Structural)]
pub struct SquareMask {
    pub bit_mask: u64,
    pub file_ex: u64,
    pub rank_ex: u64,
    pub diagonal_ex: u64,
    pub anti_diagonal_ex: u64,
}

/// The precomputed attack tables: per-square king, knight and pawn attack
/// bitboards, and the per-square slider geometry masks.  Built once by
/// [`AttackTables::new`], immutable and shared read-only thereafter.
pub struct AttackTables {
    king: Vec<u64>,
    knight: Vec<u64>,
    pawn_white: Vec<u64>,
    pawn_black: Vec<u64>,
    masks: Vec<SquareMask>,
}

impl AttackTables {
    /// Every table entry holds exactly the attack set its square's geometry
    /// prescribes.
    pub closed spec fn wf(&self) -> bool {
        &&& self.king@.len() == 64
        &&& self.knight@.len() == 64
        &&& self.pawn_white@.len() == 64
        &&& self.pawn_black@.len() == 64
        &&& self.masks@.len() == 64
        &&& forall|s: u64, t: u64|
            s < 64 && t < 64 ==> (#[trigger] bit(self.king@[s as int], t) <==> king_reach(s, t))
        &&& forall|s: u64, t: u64|
            s < 64 && t < 64 ==> (#[trigger] bit(self.knight@[s as int], t) <==> knight_reach(s, t))
        &&& forall|s: u64, t: u64|
            s < 64 && t < 64 ==> (#[trigger] bit(self.pawn_white@[s as int], t) <==> pawn_reach(
                Color::White,
                s,
                t,
            ))
        &&& forall|s: u64, t: u64|
            s < 64 && t < 64 ==> (#[trigger] bit(self.pawn_black@[s as int], t) <==> pawn_reach(
                Color::Black,
                s,
                t,
            ))
        &&& forall|s: u64| s < 64 ==> (#[trigger] self.masks@[s as int]).bit_mask == 1u64 << s
        &&& forall|s: u64, t: u64|
            s < 64 && t < 64 ==> (#[trigger] bit(self.masks@[s as int].file_ex, t) <==> (on_line(
                Slider::File,
                s,
                t,
            ) && t != s))
        &&& forall|s: u64, t: u64|
            s < 64 && t < 64 ==> (#[trigger] bit(self.masks@[s as int].rank_ex, t) <==> (on_line(
                Slider::Rank,
                s,
                t,
            ) && t != s))
        &&& forall|s: u64, t: u64|
            s < 64 && t < 64 ==> (#[trigger] bit(self.masks@[s as int].diagonal_ex, t) <==> (
            on_line(Slider::Diagonal, s, t) && t != s))
        &&& forall|s: u64, t: u64|
            s < 64 && t < 64 ==> (#[trigger] bit(self.masks@[s as int].anti_diagonal_ex, t) <==> (
            on_line(Slider::AntiDiagonal, s, t) && t != s))
    }

    /// Builds all attack tables, square by square, from the shift primitives.
    pub fn new() -> (r: AttackTables)
        ensures
            r.wf(),
    {
        let mut king: Vec<u64> = Vec::new();
        let mut knight: Vec<u64> = Vec::new();
        let mut pawn_white: Vec<u64> = Vec::new();
        let mut pawn_black: Vec<u64> = Vec::new();
        let mut masks: Vec<SquareMask> = Vec::new();
        let mut s: u64 = 0;
        while s < 64
            invariant
                s <= 64,
                king@.len() == s,
                knight@.len() == s,
                pawn_white@.len() == s,
                pawn_black@.len() == s,
                masks@.len() == s,
                forall|i: u64, t: u64|
                    i < s && t < 64 ==> (#[trigger] bit(king@[i as int], t) <==> king_reach(i, t)),
                forall|i: u64, t: u64|
                    i < s && t < 64 ==> (#[trigger] bit(knight@[i as int], t) <==> knight_reach(
                        i,
                        t,
                    )),
                forall|i: u64, t: u64|
                    i < s && t < 64 ==> (#[trigger] bit(pawn_white@[i as int], t) <==> pawn_reach(
                        Color::White,
                        i,
                        t,
                    )),
                forall|i: u64, t: u64|
                    i < s && t < 64 ==> (#[trigger] bit(pawn_black@[i as int], t) <==> pawn_reach(
                        Color::Black,
                        i,
                        t,
                    )),
                forall|i: u64| i < s ==> (#[trigger] masks@[i as int]).bit_mask == 1u64 << i,
                forall|i: u64, t: u64|
                    i < s && t < 64 ==> (#[trigger] bit(masks@[i as int].file_ex, t) <==> (on_line(
                        Slider::File,
                        i,
                        t,
                    ) && t != i)),
                forall|i: u64, t: u64|
                    i < s && t < 64 ==> (#[trigger] bit(masks@[i as int].rank_ex, t) <==> (on_line(
                        Slider::Rank,
                        i,
                        t,
                    ) && t != i)),
                forall|i: u64, t: u64|
                    i < s && t < 64 ==> (#[trigger] bit(masks@[i as int].diagonal_ex, t) <==> (
                    on_line(Slider::Diagonal, i, t) && t != i)),
                forall|i: u64, t: u64|
                    i < s && t < 64 ==> (#[trigger] bit(masks@[i as int].anti_diagonal_ex, t) <==> (
                    on_line(Slider::AntiDiagonal, i, t) && t != i)),
            decreases 64 - s,
        {
            king.push(king_entry(s));
            knight.push(knight_entry(s));
            pawn_white.push(pawn_entry(true, s));
            pawn_black.push(pawn_entry(false, s));
            let mask = SquareMask {
                bit_mask: 1u64 << s,
                file_ex: line_mask_entry(&Slider::File, s),
                rank_ex: line_mask_entry(&Slider::Rank, s),
                diagonal_ex: line_mask_entry(&Slider::Diagonal, s),
                anti_diagonal_ex: line_mask_entry(&Slider::AntiDiagonal, s),
            };
            masks.push(mask);
            s = s + 1;
        }
        AttackTables { king, knight, pawn_white, pawn_black, masks }
    }

    /// Returns the king attack bitboard of a square: exactly the squares at
    /// Chebyshev distance 1 that exist on the board.
    pub fn king_attacks(&self, square: &Square) -> (r: u64)
        requires
            self.wf(),
            square.wf(),
        ensures
            forall|t: u64| t < 64 ==> (bit(r, t) <==> king_reach(square.0 as u64, t)),
    {
        self.king[square.0 as usize]
    }

    /// Returns the knight attack bitboard of a square: exactly the squares at
    /// file/rank offsets (1, 2) or (2, 1) that remain on the board.
    pub fn knight_attacks(&self, square: &Square) -> (r: u64)
        requires
            self.wf(),
            square.wf(),
        ensures
            forall|t: u64| t < 64 ==> (bit(r, t) <==> knight_reach(square.0 as u64, t)),
    {
        self.knight[square.0 as usize]
    }

    /// Returns the pawn attack bitboard of a square for the given color: the
    /// two forward diagonal capture squares.
    pub fn pawn_attacks(&self, color: &Color, square: &Square) -> (r: u64)
        requires
            self.wf(),
            square.wf(),
        ensures
            forall|t: u64| t < 64 ==> (bit(r, t) <==> pawn_reach(*color, square.0 as u64, t)),
    {
        match color {
            Color::White => self.pawn_white[square.0 as usize],
            Color::Black => self.pawn_black[square.0 as usize],
        }
    }

    /// Returns the per-square slider masks of a square.
    pub fn square_mask(&self, square: &Square) -> (r: SquareMask)
        requires
            self.wf(),
            square.wf(),
        ensures
            r.bit_mask == 1u64 << (square.0 as u64),
            forall|t: u64|
                t < 64 ==> (bit(r.file_ex, t) <==> (on_line(Slider::File, square.0 as u64, t) && t
                    != square.0 as u64)),
            forall|t: u64|
                t < 64 ==> (bit(r.rank_ex, t) <==> (on_line(Slider::Rank, square.0 as u64, t) && t
                    != square.0 as u64)),
            forall|t: u64|
                t < 64 ==> (bit(r.diagonal_ex, t) <==> (on_line(Slider::Diagonal, square.0 as u64, t)
                    && t != square.0 as u64)),
            forall|t: u64|
                t < 64 ==> (bit(r.anti_diagonal_ex, t) <==> (on_line(
                    Slider::AntiDiagonal,
                    square.0 as u64,
                    t,
                ) && t != square.0 as u64)),
    {
        self.masks[square.0 as usize]
    }
}

/// The attack set of a piece, square by square: table geometry for leapers,
/// axis visibility under the full occupancy for sliders.
pub open spec fn spec_attacks(piece: PieceType, color: Color, s: u64, occ: u64, t: u64) -> bool {
    match piece {
        PieceType::King => king_reach(s, t),
        PieceType::Knight => knight_reach(s, t),
        PieceType::Pawn => pawn_reach(color, s, t),
        PieceType::Rook => slider_attacked(Slider::File, s, occ, t) || slider_attacked(
            Slider::Rank,
            s,
            occ,
            t,
        ),
        PieceType::Bishop => slider_attacked(Slider::Diagonal, s, occ, t) || slider_attacked(
            Slider::AntiDiagonal,
            s,
            occ,
            t,
        ),
        PieceType::Queen => slider_attacked(Slider::File, s, occ, t) || slider_attacked(
            Slider::Rank,
            s,
            occ,
            t,
        ) || slider_attacked(Slider::Diagonal, s, occ, t) || slider_attacked(
            Slider::AntiDiagonal,
            s,
            occ,
            t,
        ),
    }
}

/// A bitboard and a mask meet nowhere exactly when no position carries a set
/// bit of both.
proof fn lemma_and_zero(x: u64, y: u64)
    ensures
        (x & y == 0) <==> (forall|u: u64| u < 64 ==> !(bit(x, u) && bit(y, u))),
{
    lemma_bit_ops();
    if x & y == 0 {
        assert forall|u: u64| u < 64 implies !(bit(x, u) && bit(y, u)) by {
            assert(!bit(0u64, u));
        }
    } else {
        let t = lemma_nonzero_has_bit(x & y);
        assert(bit(x, t) && bit(y, t));
    }
}

/// The per-bit reading of the Hyperbola Quintessence computation: given the
/// line mask, the masked occupancy, the two wrapping differences and the three
/// bit reversals, the result bit at `t` says that `t` is visible from `s`
/// along the line.
proof fn lemma_hyperbola_bit(
    axis: Slider,
    s: u64,
    occ: u64,
    m: u64,
    line: u64,
    forward: u64,
    rline: u64,
    reverse: u64,
    rrev: u64,
    r: u64,
    t: u64,
)
    requires
        s < 64,
        t < 64,
        forall|u: u64| u < 64 ==> (bit(m, u) <==> (on_line(axis, s, u) && u != s)),
        line == occ & m,
        forward + (1u64 << s) == line || forward + (1u64 << s) == line + 0x1_0000_0000_0000_0000,
        forall|u: u64| u < 64 ==> (bit(rline, u) <==> bit(line, (63 - u) as u64)),
        reverse + (1u64 << ((63 - s) as u64)) == rline || reverse + (1u64 << ((63 - s) as u64))
            == rline + 0x1_0000_0000_0000_0000,
        forall|u: u64| u < 64 ==> (bit(rrev, u) <==> bit(reverse, (63 - u) as u64)),
        r == (forward ^ rrev) & m,
    ensures
        bit(r, t) <==> slider_attacked(axis, s, occ, t),
{
    lemma_bit_ops();
    let rs: u64 = (63 - s) as u64;
    let rt: u64 = (63 - t) as u64;
    assert(!bit(line, s));
    assert((line >> s) & 1 == 0);
    assert(!bit(rline, rs));
    assert((rline >> rs) & 1 == 0);
    lemma_sub_ray_fill(line, s, forward, t);
    lemma_sub_ray_fill(rline, rs, reverse, rt);
    // the two one-directional fills, read over the original bit order
    let up = t >= s && line & crate::bitboard::between_mask(s, t) == 0;
    let down = t <= s && rline & crate::bitboard::between_mask(rs, rt) == 0;
    assert(bit(forward ^ line, t) <==> up);
    assert(bit(reverse ^ rline, rt) <==> down);
    // unfold the xor structure: the result bit is the two fills' difference
    assert(bit(forward, t) <==> (up != bit(line, t)));
    assert(bit(rrev, t) <==> bit(reverse, rt));
    assert(bit(reverse, rt) <==> (down != bit(rline, rt)));
    assert(bit(rline, rt) <==> bit(line, t));
    assert(bit(r, t) <==> ((up != down) && bit(m, t)));
    // read the interval conditions as quantified no-blocker conditions
    lemma_and_zero(line, crate::bitboard::between_mask(s, t));
    lemma_and_zero(rline, crate::bitboard::between_mask(rs, rt));
    assert forall|u: u64| u < 64 implies (bit(crate::bitboard::between_mask(s, t), u) <==> (s < u
        && u < t)) by {
        lemma_between_mask_bit(s, t, u);
    }
    assert forall|u: u64| u < 64 implies (bit(crate::bitboard::between_mask(rs, rt), u) <==> (rs
        < u && u < rt)) by {
        lemma_between_mask_bit(rs, rt, u);
    }
    let up_clear = forall|u: u64| u < 64 && s < u && u < t ==> !#[trigger] bit(line, u);
    let down_clear = forall|u: u64| u < 64 && t < u && u < s ==> !#[trigger] bit(line, u);
    assert((line & crate::bitboard::between_mask(s, t) == 0) <==> up_clear);
    assert((rline & crate::bitboard::between_mask(rs, rt) == 0) <==> down_clear) by {
        if rline & crate::bitboard::between_mask(rs, rt) == 0 {
            assert forall|u: u64| u < 64 && t < u && u < s implies !#[trigger] bit(line, u) by {
                let v: u64 = (63 - u) as u64;
                assert(!(bit(rline, v) && bit(crate::bitboard::between_mask(rs, rt), v)));
                assert(bit(rline, v) <==> bit(line, u));
            }
        }
        if down_clear {
            assert forall|v: u64| v < 64 implies !(bit(rline, v) && bit(
                crate::bitboard::between_mask(rs, rt),
                v,
            )) by {
                if rs < v && v < rt {
                    let u: u64 = (63 - v) as u64;
                    assert(t < u && u < s);
                    assert(bit(rline, v) <==> bit(line, u));
                }
            }
        }
    }
    // tie the line's blockers to the occupancy's blockers on the line
    assert forall|u: u64| u < 64 implies (bit(line, u) <==> (bit(occ, u) && on_line(axis, s, u)
        && u != s)) by {}
    if t == s {
        assert(!bit(m, t));
        assert(!slider_attacked(axis, s, occ, t));
    } else if t > s {
        assert(!down);
        assert(bit(r, t) <==> (bit(m, t) && up));
        assert((bit(m, t) && up) <==> slider_attacked(axis, s, occ, t)) by {
            if bit(m, t) && up {
                assert forall|u: u64|
                    u < 64 && #[trigger] on_line(axis, s, u) && strictly_between(s, u, t) implies !bit(
                    occ,
                    u,
                ) by {
                    assert(s < u && u < t);
                    assert(!bit(line, u));
                }
            }
            if slider_attacked(axis, s, occ, t) {
                assert forall|u: u64| u < 64 && s < u && u < t implies !#[trigger] bit(line, u) by {
                    if bit(line, u) {
                        assert(on_line(axis, s, u) && strictly_between(s, u, t) && bit(occ, u));
                    }
                }
            }
        }
    } else {
        assert(!up);
        assert(bit(r, t) <==> (bit(m, t) && down));
        assert((bit(m, t) && down) <==> slider_attacked(axis, s, occ, t)) by {
            if bit(m, t) && down {
                assert forall|u: u64|
                    u < 64 && #[trigger] on_line(axis, s, u) && strictly_between(s, u, t) implies !bit(
                    occ,
                    u,
                ) by {
                    assert(t < u && u < s);
                    assert(!bit(line, u));
                }
            }
            if slider_attacked(axis, s, occ, t) {
                assert forall|u: u64| u < 64 && t < u && u < s implies !#[trigger] bit(line, u) by {
                    if bit(line, u) {
                        assert(on_line(axis, s, u) && strictly_between(s, u, t) && bit(occ, u));
                    }
                }
            }
        }
    }
}

impl Slider {
    /// Computes this axis's attack set from `square` under the given full
    /// occupancy with the Hyperbola Quintessence occupancy-subtraction
    /// technique: no loop over ray squares, one arithmetic pass per axis.
    pub fn slider_attacks(
        &self,
        square: &Square,
        occupied_squares: &Bitboard,
        tables: &AttackTables,
    ) -> (r: Bitboard)
        requires
            square.wf(),
            tables.wf(),
        ensures
            forall|t: u64|
                t < 64 ==> (bit(r, t) <==> slider_attacked(
                    *self,
                    square.0 as u64,
                    *occupied_squares,
                    t,
                )),
    {
        let ghost s: u64 = square.0 as u64;
        let square_mask = tables.square_mask(square);
        let m = match self {
            Slider::File => square_mask.file_ex,
            Slider::Rank => square_mask.rank_ex,
            Slider::Diagonal => square_mask.diagonal_ex,
            Slider::AntiDiagonal => square_mask.anti_diagonal_ex,
        };
        // (o - 2r): mask the line and subtract the square's bit, in both
        // bit orders
        let line = *occupied_squares & m;
        let rline = reverse_bits(line);
        let forward = line.wrapping_sub(square_mask.bit_mask);
        let rbm = reverse_bits(square_mask.bit_mask);
        let reverse = rline.wrapping_sub(rbm);
        // (o - 2r) ^ rev(o' - 2r'), restricted to the line
        let rrev = reverse_bits(reverse);
        let result = (forward ^ rrev) & m;
        proof {
            lemma_bit_ops();
            assert(rbm == 1u64 << ((63 - s) as u64)) by {
                assert forall|u: u64| u < 64 implies (bit(rbm, u) <==> bit(
                    1u64 << ((63 - s) as u64),
                    u,
                )) by {
                    assert(bit(rbm, u) <==> bit(1u64 << s, (63 - u) as u64));
                }
                lemma_bit_ext(rbm, 1u64 << ((63 - s) as u64));
            }
            assert forall|t: u64| t < 64 implies (bit(result, t) <==> slider_attacked(
                *self,
                s,
                *occupied_squares,
                t,
            )) by {
                lemma_hyperbola_bit(
                    *self,
                    s,
                    *occupied_squares,
                    m,
                    line,
                    forward,
                    rline,
                    reverse,
                    rrev,
                    result,
                    t,
                );
            }
        }
        result
    }
}

/// On an empty board a slider attack set along an axis is the full line
/// through the square, with no truncation.
pub proof fn lemma_slider_attacks_empty_board(axis: Slider, s: u64, t: u64)
    requires
        s < 64,
        t < 64,
    ensures
        slider_attacked(axis, s, 0u64, t) <==> (on_line(axis, s, t) && t != s),
{
    lemma_bit_ops();
}

/// A single blocking piece truncates the ray it stands on: the squares past
/// it are lost, the blocker's own square stays attacked.
pub proof fn lemma_slider_attacks_single_blocker(axis: Slider, s: u64, b: u64, t: u64)
    requires
        s < 64,
        t < 64,
        b < 64,
    ensures
        slider_attacked(axis, s, 1u64 << b, t) <==> (on_line(axis, s, t) && t != s && !(on_line(
            axis,
            s,
            b,
        ) && strictly_between(s, b, t))),
        on_line(axis, s, b) && b != s ==> slider_attacked(axis, s, 1u64 << b, b),
{
    lemma_bit_ops();
    if on_line(axis, s, t) && t != s && !(on_line(axis, s, b) && strictly_between(s, b, t)) {
        assert forall|u: u64|
            u < 64 && #[trigger] on_line(axis, s, u) && strictly_between(s, u, t) implies !bit(
            1u64 << b,
            u,
        ) by {}
    }
}

/// On an empty board a rook's attack set is the full cross through its
/// square, and a bishop's the full diagonal pair, with no truncation.
pub proof fn lemma_rook_bishop_empty_board(c: Color, s: u64, t: u64)
    requires
        s < 64,
        t < 64,
    ensures
        spec_attacks(PieceType::Rook, c, s, 0u64, t) <==> ((on_line(Slider::File, s, t) || on_line(
            Slider::Rank,
            s,
            t,
        )) && t != s),
        spec_attacks(PieceType::Bishop, c, s, 0u64, t) <==> ((on_line(Slider::Diagonal, s, t)
            || on_line(Slider::AntiDiagonal, s, t)) && t != s),
{
    lemma_slider_attacks_empty_board(Slider::File, s, t);
    lemma_slider_attacks_empty_board(Slider::Rank, s, t);
    lemma_slider_attacks_empty_board(Slider::Diagonal, s, t);
    lemma_slider_attacks_empty_board(Slider::AntiDiagonal, s, t);
}

/// The slider attack contract pins its result: any two bitboards that both
/// meet it for the same square, axis and occupancy are equal.  Hence the
/// computation is pure, and repeating it cannot change the answer.
pub proof fn lemma_slider_attacks_deterministic(axis: Slider, s: u64, occ: u64, r1: u64, r2: u64)
    requires
        forall|t: u64| t < 64 ==> (bit(r1, t) <==> slider_attacked(axis, s, occ, t)),
        forall|t: u64| t < 64 ==> (bit(r2, t) <==> slider_attacked(axis, s, occ, t)),
    ensures
        r1 == r2,
{
    lemma_bit_ext(r1, r2);
}

} // verus!
