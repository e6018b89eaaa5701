//! Bitboard primitives: the 64-bit board encoding, per-bit reasoning helpers,
//! and the directional shift operations with edge-wrap masking.

use crate::moves::{file_of, rank_of, Square};
use crate::piece::PieceType;
use crate::position::Color;
use crate::utils::log2n;
use vstd::arithmetic::power2::pow2;
use vstd::bits::{lemma_u64_shl_is_mul, lemma_u64_shr_is_div};
use vstd::prelude::*;

verus! {

/// A bitboard: a 64-bit set of board squares, bit `i` standing for square `i`
/// (a1 = 0, b1 = 1, ..., h8 = 63).
pub type Bitboard = u64;

/// True when bit `i` of `b` is set.
pub open spec fn bit(b: u64, i: u64) -> bool
    recommends
        i < 64,
{
    (b >> i) & 1 == 1
}

/// Mask of the bit positions strictly below `i`.
pub open spec fn below_mask(i: u64) -> u64
    recommends
        i < 64,
{
    ((1u64 << i) - 1) as u64
}

/// Mask of the bit positions strictly between `lo` and `hi`.
pub open spec fn between_mask(lo: u64, hi: u64) -> u64
    recommends
        lo < 64,
        hi < 64,
{
    below_mask(hi) & !(below_mask(lo) | (1u64 << lo))
}

/// Bitwise operations described bit by bit.
pub proof fn lemma_bit_ops()
    by (bit_vector)
    ensures
        forall|x: u64, y: u64, t: u64|
            t < 64 ==> (#[trigger] bit(x | y, t) <==> bit(x, t) || bit(y, t)),
        forall|x: u64, y: u64, t: u64|
            t < 64 ==> (#[trigger] bit(x & y, t) <==> bit(x, t) && bit(y, t)),
        forall|x: u64, y: u64, t: u64|
            t < 64 ==> (#[trigger] bit(x ^ y, t) <==> (bit(x, t) != bit(y, t))),
        forall|x: u64, t: u64| t < 64 ==> (#[trigger] bit(!x, t) <==> !bit(x, t)),
        forall|s: u64, t: u64| s < 64 && t < 64 ==> (#[trigger] bit(1u64 << s, t) <==> t == s),
        forall|t: u64| t < 64 ==> !#[trigger] bit(0u64, t),
        forall|x: u64, t: u64| t < 64 && #[trigger] bit(x, t) ==> x != 0,
        forall|x: u64, t: u64| t < 64 && !#[trigger] bit(x, t) ==> (x >> t) & 1 == 0,
{
}

/// The bits of `between_mask` are exactly the positions strictly between its bounds.
pub proof fn lemma_between_mask_bit(lo: u64, hi: u64, u: u64)
    by (bit_vector)
    requires
        lo < 64,
        hi < 64,
        u < 64,
    ensures
        bit(between_mask(lo, hi), u) <==> lo < u && u < hi,
{
}

/// The bits of `below_mask` are exactly the positions below its bound.
pub proof fn lemma_below_mask_bit(lo: u64, u: u64)
    by (bit_vector)
    requires
        lo < 64,
        u < 64,
    ensures
        bit(below_mask(lo), u) <==> u < lo,
{
}

/// A nonzero bitboard has a set bit at or above position `i`.
proof fn lemma_nonzero_has_bit_from(x: u64, i: u64) -> (t: u64)
    requires
        i < 64,
        x >> i != 0,
    ensures
        i <= t < 64,
        bit(x, t),
    decreases 64 - i,
{
    if (x >> i) & 1 == 1 {
        i
    } else {
        assert(i < 63 && x >> ((i + 1) as u64) != 0) by (bit_vector)
            requires
                i < 64,
                x >> i != 0,
                (x >> i) & 1 != 1,
        ;
        lemma_nonzero_has_bit_from(x, (i + 1) as u64)
    }
}

/// A nonzero bitboard has a set bit.
pub proof fn lemma_nonzero_has_bit(x: u64) -> (t: u64)
    requires
        x != 0,
    ensures
        t < 64,
        bit(x, t),
{
    assert(x >> 0u64 == x) by (bit_vector);
    lemma_nonzero_has_bit_from(x, 0)
}

/// Two bitboards with the same bits are equal.
pub proof fn lemma_bit_ext(x: u64, y: u64)
    requires
        forall|t: u64| t < 64 ==> (bit(x, t) <==> bit(y, t)),
    ensures
        x == y,
{
    if x != y {
        assert(x ^ y != 0) by (bit_vector)
            requires
                x != y,
        ;
        let t = lemma_nonzero_has_bit(x ^ y);
        lemma_bit_ops();
        assert(bit(x, t) != bit(y, t));
        assert(false);
    }
}

/// The occupancy-subtraction identity behind Hyperbola Quintessence: with
/// `line` a set of blockers that does not contain `s`, and `f` the wrapping
/// difference `line - 2^s`, the changed bits `f ^ line` are exactly the
/// positions from `s` upward until (and including) the first blocker.
pub proof fn lemma_sub_ray_fill(line: u64, s: u64, f: u64, t: u64)
    by (bit_vector)
    requires
        s < 64,
        t < 64,
        (line >> s) & 1 == 0,
        f + (1u64 << s) == line || f + (1u64 << s) == line + 0x1_0000_0000_0000_0000,
    ensures
        bit(f ^ line, t) <==> (t >= s && line & between_mask(s, t) == 0),
{
}

/// Mask of every square outside the a-file; applied after a shift with an
/// eastward component to clear bits that would wrap onto the a-file.
pub const NOT_A_FILE: u64 = 0xfefe_fefe_fefe_fefe;

/// Mask of every square outside the h-file; applied after a shift with a
/// westward component to clear bits that would wrap onto the h-file.
pub const NOT_H_FILE: u64 = 0x7f7f_7f7f_7f7f_7f7f;

/// The eight compass directions a board step can take.
#[derive(Debug, Clone, Copy, PartialEq, Eq, Structural)]
pub enum Direction {
    North,
    East,
    South,
    West,
    NorthEast,
    SouthEast,
    SouthWest,
    NorthWest,
}

impl Direction {
    /// The signed bit offset of one step in this direction.
    pub open spec fn spec_offset(&self) -> i64 {
        match self {
            Direction::North => 8i64,
            Direction::East => 1i64,
            Direction::South => -8i64,
            Direction::West => -1i64,
            Direction::NorthEast => 9i64,
            Direction::SouthEast => -7i64,
            Direction::SouthWest => -9i64,
            Direction::NorthWest => 7i64,
        }
    }

    /// Returns the signed bit offset of one step in this direction.
    #[verifier::when_used_as_spec(spec_offset)]
    pub fn offset(&self) -> (r: i64)
        ensures
            r == self.spec_offset(),
    {
        match self {
            Direction::North => 8,
            Direction::East => 1,
            Direction::South => -8,
            Direction::West => -1,
            Direction::NorthEast => 9,
            Direction::SouthEast => -7,
            Direction::SouthWest => -9,
            Direction::NorthWest => 7,
        }
    }
}

/// One single-step shift of a whole bitboard, with edge-wrap masking: a step
/// with an eastward component clears what would land on the a-file, a step
/// with a westward component clears what would land on the h-file.
pub open spec fn shift_one(b: u64, d: Direction) -> u64 {
    match d {
        Direction::North => b << 8,
        Direction::East => (b << 1) & NOT_A_FILE,
        Direction::South => b >> 8,
        Direction::West => (b >> 1) & NOT_H_FILE,
        Direction::NorthEast => (b << 9) & NOT_A_FILE,
        Direction::SouthEast => (b >> 7) & NOT_A_FILE,
        Direction::SouthWest => (b >> 9) & NOT_H_FILE,
        Direction::NorthWest => (b << 7) & NOT_H_FILE,
    }
}

/// Sequential application of single-step shifts, each independently masked.
pub open spec fn shift_seq(b: u64, ds: Seq<Direction>) -> u64
    decreases ds.len(),
{
    if ds.len() == 0 {
        b
    } else {
        shift_seq(shift_one(b, ds[0]), ds.drop_first())
    }
}

proof fn lemma_shift_seq_snoc(b: u64, ds: Seq<Direction>, d: Direction)
    ensures
        shift_seq(b, ds.push(d)) == shift_one(shift_seq(b, ds), d),
    decreases ds.len(),
{
    reveal_with_fuel(shift_seq, 3);
    if ds.len() == 0 {
        assert(ds.push(d)[0] == d);
        assert(ds.push(d).drop_first() =~= Seq::<Direction>::empty());
    } else {
        assert(ds.push(d)[0] == ds[0]);
        assert(ds.push(d).drop_first() =~= ds.drop_first().push(d));
        lemma_shift_seq_snoc(shift_one(b, ds[0]), ds.drop_first(), d);
    }
}

/// Shifts a bitboard by a signed bit offset.
pub fn bit_shift(bitboard: &u64, n: i64) -> (r: u64)
    requires
        -63 <= n <= 63,
    ensures
        n >= 0 ==> r == *bitboard << n as u64,
        n < 0 ==> r == *bitboard >> (-n) as u64,
{
    if n >= 0 {
        *bitboard << (n as u64)
    } else {
        *bitboard >> ((-n) as u64)
    }
}

/// Shifts all set bits one step per given direction, in sequence, masking away
/// any bit that would wrap around a file edge at each step.
pub fn shift_direction(bitboard: &u64, directions: &[Direction]) -> (r: u64)
    ensures
        r == shift_seq(*bitboard, directions@),
{
    let mut transformed_bitboard: u64 = *bitboard;
    let n = directions.len();
    let mut idx: usize = 0;
    while idx < n
        invariant
            idx <= n,
            n == directions@.len(),
            transformed_bitboard == shift_seq(*bitboard, directions@.take(idx as int)),
        decreases n - idx,
    {
        let direction = directions[idx];
        let stepped = match direction {
            Direction::West | Direction::NorthWest | Direction::SouthWest => {
                bit_shift(&transformed_bitboard, direction.offset()) & NOT_H_FILE
            },
            Direction::East | Direction::NorthEast | Direction::SouthEast => {
                bit_shift(&transformed_bitboard, direction.offset()) & NOT_A_FILE
            },
            Direction::North | Direction::South => {
                bit_shift(&transformed_bitboard, direction.offset())
            },
        };
        proof {
            assert(stepped == shift_one(transformed_bitboard, directions@[idx as int]));
            lemma_shift_seq_snoc(*bitboard, directions@.take(idx as int), directions@[idx as int]);
            assert(directions@.take(idx as int).push(directions@[idx as int]) =~= directions@.take(
                idx as int + 1,
            ));
        }
        transformed_bitboard = stepped;
        idx = idx + 1;
    }
    proof {
        assert(directions@.take(n as int) =~= directions@);
    }
    transformed_bitboard
}

/// The square a single step sends `s` to, or `None` when the step leaves the
/// board.
pub open spec fn step_target(s: u64, d: Direction) -> Option<u64> {
    match d {
        Direction::North => if rank_of(s) < 7 {
            Some((s + 8) as u64)
        } else {
            None
        },
        Direction::East => if file_of(s) < 7 {
            Some((s + 1) as u64)
        } else {
            None
        },
        Direction::South => if rank_of(s) > 0 {
            Some((s - 8) as u64)
        } else {
            None
        },
        Direction::West => if file_of(s) > 0 {
            Some((s - 1) as u64)
        } else {
            None
        },
        Direction::NorthEast => if rank_of(s) < 7 && file_of(s) < 7 {
            Some((s + 9) as u64)
        } else {
            None
        },
        Direction::SouthEast => if rank_of(s) > 0 && file_of(s) < 7 {
            Some((s - 7) as u64)
        } else {
            None
        },
        Direction::SouthWest => if rank_of(s) > 0 && file_of(s) > 0 {
            Some((s - 9) as u64)
        } else {
            None
        },
        Direction::NorthWest => if rank_of(s) < 7 && file_of(s) > 0 {
            Some((s + 7) as u64)
        } else {
            None
        },
    }
}

/// A single-square bitboard lands on the step's target square, or vanishes
/// when the step would leave the board or wrap around a file edge.
pub proof fn lemma_shift_one_single(s: u64, d: Direction)
    requires
        s < 64,
    ensures
        shift_one(1u64 << s, d) == (match step_target(s, d) {
            Some(t) => 1u64 << t,
            None => 0u64,
        }),
{
    match d {
        Direction::North => {
            assert((1u64 << s) << 8 == (if s / 8 < 7 {
                1u64 << ((s + 8) as u64)
            } else {
                0u64
            })) by (bit_vector)
                requires
                    s < 64,
            ;
        },
        Direction::East => {
            assert(((1u64 << s) << 1) & 0xfefe_fefe_fefe_fefeu64 == (if s % 8 < 7 {
                1u64 << ((s + 1) as u64)
            } else {
                0u64
            })) by (bit_vector)
                requires
                    s < 64,
            ;
        },
        Direction::South => {
            assert((1u64 << s) >> 8 == (if s / 8 > 0 {
                1u64 << ((s - 8) as u64)
            } else {
                0u64
            })) by (bit_vector)
                requires
                    s < 64,
            ;
        },
        Direction::West => {
            assert(((1u64 << s) >> 1) & 0x7f7f_7f7f_7f7f_7f7fu64 == (if s % 8 > 0 {
                1u64 << ((s - 1) as u64)
            } else {
                0u64
            })) by (bit_vector)
                requires
                    s < 64,
            ;
        },
        Direction::NorthEast => {
            assert(((1u64 << s) << 9) & 0xfefe_fefe_fefe_fefeu64 == (if s / 8 < 7 && s % 8 < 7 {
                1u64 << ((s + 9) as u64)
            } else {
                0u64
            })) by (bit_vector)
                requires
                    s < 64,
            ;
        },
        Direction::SouthEast => {
            assert(((1u64 << s) >> 7) & 0xfefe_fefe_fefe_fefeu64 == (if s / 8 > 0 && s % 8 < 7 {
                1u64 << ((s - 7) as u64)
            } else {
                0u64
            })) by (bit_vector)
                requires
                    s < 64,
            ;
        },
        Direction::SouthWest => {
            assert(((1u64 << s) >> 9) & 0x7f7f_7f7f_7f7f_7f7fu64 == (if s / 8 > 0 && s % 8 > 0 {
                1u64 << ((s - 9) as u64)
            } else {
                0u64
            })) by (bit_vector)
                requires
                    s < 64,
            ;
        },
        Direction::NorthWest => {
            assert(((1u64 << s) << 7) & 0x7f7f_7f7f_7f7f_7f7fu64 == (if s / 8 < 7 && s % 8 > 0 {
                1u64 << ((s + 7) as u64)
            } else {
                0u64
            })) by (bit_vector)
                requires
                    s < 64,
            ;
        },
    }
}

/// Reverses the bit order of a bitboard: bit `i` moves to bit `63 - i`.
pub fn reverse_bits(b: u64) -> (r: u64)
    ensures
        forall|t: u64| t < 64 ==> (bit(r, t) <==> bit(b, (63 - t) as u64)),
{
    proof {
        lemma_bit_ops();
    }
    let mut r: u64 = 0;
    let mut i: u64 = 0;
    while i < 64
        invariant
            i <= 64,
            forall|t: u64|
                t < 64 ==> (bit(r, t) <==> (63 - t < i && bit(b, (63 - t) as u64))),
        decreases 64 - i,
    {
        proof {
            lemma_bit_ops();
        }
        if (b >> i) & 1 == 1 {
            r = r | (1u64 << (63 - i));
        }
        i = i + 1;
    }
    r
}

/// Removes our own pieces from an attack set.
pub fn remove_pieces(bitboard: &u64, our_squares: &u64) -> (r: u64)
    ensures
        forall|t: u64| t < 64 ==> (bit(r, t) <==> (bit(*bitboard, t) && !bit(*our_squares, t))),
{
    proof {
        lemma_bit_ops();
    }
    *bitboard & !*our_squares
}

/// The square of the least-significant set bit of a nonempty bitboard.
pub fn left_most_significant_square(bitboard: &u64) -> (r: Square)
    requires
        *bitboard != 0,
    ensures
        r.wf(),
        bit(*bitboard, r.0 as u64),
        forall|u: u64| u < r.0 ==> !bit(*bitboard, u),
{
    let negated = (0u64).wrapping_sub(*bitboard);
    let lsb = *bitboard & negated;
    proof {
        assert(negated + *bitboard == 0x1_0000_0000_0000_0000);
        assert(lsb != 0) by (bit_vector)
            requires
                negated + *bitboard == 0x1_0000_0000_0000_0000,
                lsb == *bitboard & negated,
        ;
    }
    let k = match log2n(&lsb) {
        Some(k) => k,
        None => {
            proof {
                assert(false);
            }
            0
        },
    };
    proof {
        lemma_u64_shl_is_mul(1u64, k);
        assert(pow2((k + 1) as nat) == 2 * pow2(k as nat)) by {
            vstd::arithmetic::power2::lemma_pow2_unfold((k + 1) as nat);
        }
        if k < 63 {
            lemma_u64_shr_is_div(lsb, (k + 1) as u64);
            vstd::arithmetic::div_mod::lemma_basic_div(lsb as int, pow2((k + 1) as nat) as int);
        }
        assert((*bitboard >> k) & 1 == 1 && *bitboard & below_mask(k) == 0) by (bit_vector)
            requires
                k < 64,
                negated + *bitboard == 0x1_0000_0000_0000_0000,
                lsb == *bitboard & negated,
                (1u64 << k) <= lsb,
                k < 63 ==> lsb >> ((k + 1) as u64) == 0,
        ;
        lemma_bit_ops();
        assert forall|u: u64| u < k implies !bit(*bitboard, u) by {
            lemma_below_mask_bit(k, u);
            assert(bit(*bitboard & below_mask(k), u) <==> (bit(*bitboard, u) && bit(
                below_mask(k),
                u,
            )));
        }
    }
    Square(k as u8)
}

/// The character standing for square `sq` in a rendered bitboard.
pub open spec fn board_cell(bb: u64, sq: u64) -> char {
    if bit(bb, sq) {
        '1'
    } else {
        '.'
    }
}

/// Renders a bitboard as eight lines, top rank first, files a through h left
/// to right: `1` for a set bit, `.` for a clear one, one space after each
/// cell, one newline after each line.
pub fn bitboard_representation(bb: Bitboard) -> (r: String)
    ensures
        r@.len() == 136,
        forall|row: int, f: int|
            #![trigger r@[row * 17 + 2 * f]]
            0 <= row < 8 && 0 <= f < 8 ==> r@[row * 17 + 2 * f] == board_cell(
                bb,
                (8 * (7 - row) + f) as u64,
            ) && r@[row * 17 + 2 * f + 1] == ' ',
        forall|row: int| 0 <= row < 8 ==> #[trigger] r@[row * 17 + 16] == '\n',
{
    let mut out = String::new();
    let mut row: u64 = 0;
    while row < 8
        invariant
            row <= 8,
            out@.len() == row * 17,
            forall|rr: int, f: int|
                #![trigger out@[rr * 17 + 2 * f]]
                0 <= rr < row && 0 <= f < 8 ==> out@[rr * 17 + 2 * f] == board_cell(
                    bb,
                    (8 * (7 - rr) + f) as u64,
                ) && out@[rr * 17 + 2 * f + 1] == ' ',
            forall|rr: int| 0 <= rr < row ==> #[trigger] out@[rr * 17 + 16] == '\n',
        decreases 8 - row,
    {
        let mut f: u64 = 0;
        while f < 8
            invariant
                row < 8,
                f <= 8,
                out@.len() == row * 17 + 2 * f,
                forall|rr: int, ff: int|
                    #![trigger out@[rr * 17 + 2 * ff]]
                    0 <= rr < row && 0 <= ff < 8 ==> out@[rr * 17 + 2 * ff] == board_cell(
                        bb,
                        (8 * (7 - rr) + ff) as u64,
                    ) && out@[rr * 17 + 2 * ff + 1] == ' ',
                forall|rr: int| 0 <= rr < row ==> #[trigger] out@[rr * 17 + 16] == '\n',
                forall|ff: int|
                    #![trigger out@[row * 17 + 2 * ff]]
                    0 <= ff < f ==> out@[row * 17 + 2 * ff] == board_cell(
                        bb,
                        (8 * (7 - row) + ff) as u64,
                    ) && out@[row * 17 + 2 * ff + 1] == ' ',
            decreases 8 - f,
        {
            let sq: u64 = 8 * (7 - row) + f;
            if (bb >> sq) & 1 == 1 {
                proof {
                    reveal_strlit("1 ");
                    assert("1 "@ =~= seq!['1', ' ']);
                }
                out.append("1 ");
            } else {
                proof {
                    reveal_strlit(". ");
                    assert(". "@ =~= seq!['.', ' ']);
                }
                out.append(". ");
            }
            f = f + 1;
        }
        proof {
            reveal_strlit("\n");
            assert("\n"@ =~= seq!['\n']);
        }
        out.append("\n");
        row = row + 1;
    }
    out
}

/// The six piece bitboards of one color.
#[derive(Debug, Clone, Copy, PartialEq, Eq, Structural)]
pub struct PieceBitboard {
    pub pawn: u64,
    pub knight: u64,
    pub bishop: u64,
    pub rook: u64,
    pub queen: u64,
    pub king: u64,
}

impl PieceBitboard {
    /// The bitboard of one piece type.
    pub open spec fn spec_get(&self, piece: PieceType) -> u64 {
        match piece {
            PieceType::Pawn => self.pawn,
            PieceType::Knight => self.knight,
            PieceType::Bishop => self.bishop,
            PieceType::Rook => self.rook,
            PieceType::Queen => self.queen,
            PieceType::King => self.king,
        }
    }

    /// Returns the bitboard of one piece type.
    pub fn get(&self, piece: &PieceType) -> (r: u64)
        ensures
            r == self.spec_get(*piece),
    {
        match piece {
            PieceType::Pawn => self.pawn,
            PieceType::Knight => self.knight,
            PieceType::Bishop => self.bishop,
            PieceType::Rook => self.rook,
            PieceType::Queen => self.queen,
            PieceType::King => self.king,
        }
    }

    /// The empty board half: no pieces of any type.
    pub fn empty() -> (r: PieceBitboard)
        ensures
            forall|p: PieceType| r.spec_get(p) == 0u64,
    {
        PieceBitboard { pawn: 0, knight: 0, bishop: 0, rook: 0, queen: 0, king: 0 }
    }

    /// All squares this color occupies.
    pub open spec fn spec_occupied(&self) -> u64 {
        self.pawn | self.knight | self.bishop | self.rook | self.queen | self.king
    }

    /// Returns all squares this color occupies.
    pub fn occupied(&self) -> (r: u64)
        ensures
            r == self.spec_occupied(),
            forall|t: u64|
                t < 64 ==> (bit(r, t) <==> exists|p: PieceType| bit(#[trigger] self.spec_get(p), t)),
    {
        proof {
            lemma_bit_ops();
            assert forall|t: u64| t < 64 implies (bit(self.spec_occupied(), t) <==> exists|p: PieceType|
                bit(#[trigger] self.spec_get(p), t)) by {
                if bit(self.spec_occupied(), t) {
                    if bit(self.pawn, t) {
                        assert(bit(self.spec_get(PieceType::Pawn), t));
                    } else if bit(self.knight, t) {
                        assert(bit(self.spec_get(PieceType::Knight), t));
                    } else if bit(self.bishop, t) {
                        assert(bit(self.spec_get(PieceType::Bishop), t));
                    } else if bit(self.rook, t) {
                        assert(bit(self.spec_get(PieceType::Rook), t));
                    } else if bit(self.queen, t) {
                        assert(bit(self.spec_get(PieceType::Queen), t));
                    } else {
                        assert(bit(self.spec_get(PieceType::King), t));
                    }
                }
            }
        }
        self.pawn | self.knight | self.bishop | self.rook | self.queen | self.king
    }

    /// No square holds two piece types of this color.
    pub open spec fn wf(&self) -> bool {
        forall|p1: PieceType, p2: PieceType, t: u64|
            p1 != p2 && t < 64 ==> !(#[trigger] bit(self.spec_get(p1), t) && #[trigger] bit(
                self.spec_get(p2),
                t,
            ))
    }
}

/// The piece bitboards of both colors.
#[derive(Debug, Clone, Copy, PartialEq, Eq, Structural)]
pub struct PiecePlacement {
    pub white: PieceBitboard,
    pub black: PieceBitboard,
}

impl PiecePlacement {
    /// The piece bitboards of one color.
    pub open spec fn spec_get(&self, color: Color) -> PieceBitboard {
        match color {
            Color::White => self.white,
            Color::Black => self.black,
        }
    }

    /// Returns the piece bitboards of one color.
    pub fn get(&self, color: &Color) -> (r: &PieceBitboard)
        ensures
            *r == self.spec_get(*color),
    {
        match color {
            Color::White => &self.white,
            Color::Black => &self.black,
        }
    }

    /// No square holds two pieces: each color's bitboards are pairwise
    /// disjoint, and no square is occupied by both colors.
    pub open spec fn wf(&self) -> bool {
        &&& self.white.wf()
        &&& self.black.wf()
        &&& forall|t: u64|
            t < 64 ==> !(bit(self.white.spec_occupied(), t) && bit(self.black.spec_occupied(), t))
    }
}

} // verus!
