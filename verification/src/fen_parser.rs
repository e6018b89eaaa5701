//! The FEN decoder: a single pass over the six whitespace-separated fields of
//! a FEN string, producing a fully validated [`Position`] or a typed error.

use crate::bitboard::{bit, lemma_bit_ext, lemma_bit_ops, PieceBitboard, PiecePlacement};
use crate::moves::{file_of, rank_of, Square};
use crate::piece::PieceType;
use crate::position::{CastlingRights, CastlingTypes, Color, Position};
use vstd::prelude::*;
use vstd::string::StrSliceExecFns;

verus! {

/// The ways a FEN string can be rejected.
#[derive(Debug, Clone, Copy, PartialEq, Eq, Structural)]
pub enum FenError {
    /// Wrong field count, wrong rank count, or a rank that does not express
    /// exactly eight files.
    MalformedInput,
    /// An unrecognized piece letter, an unrecognized castling letter, or an
    /// empty-square count outside 1 through 8.
    InvalidCharacter,
    /// An active-color field other than `w` or `b`.
    InvalidColor,
    /// An en-passant target outside a1 through h8, or of the wrong length.
    InvalidCoordinate,
    /// A clock field that is not a non-negative 16-bit integer.
    InvalidNumber,
}

/// The whitespace characters that separate FEN fields.
pub open spec fn is_ws(c: char) -> bool {
    c == ' ' || c == '\t' || c == '\n' || c == '\r'
}

/// The leading whitespace of `s` removed.
pub open spec fn skip_ws(s: Seq<char>) -> Seq<char>
    decreases s.len(),
{
    if s.len() > 0 && is_ws(s[0]) {
        skip_ws(s.drop_first())
    } else {
        s
    }
}

/// The leading run of non-whitespace characters of `s`.
pub open spec fn take_word(s: Seq<char>) -> Seq<char>
    decreases s.len(),
{
    if s.len() > 0 && !is_ws(s[0]) {
        seq![s[0]] + take_word(s.drop_first())
    } else {
        Seq::empty()
    }
}

/// `s` with its leading run of non-whitespace characters removed.
pub open spec fn drop_word(s: Seq<char>) -> Seq<char>
    decreases s.len(),
{
    if s.len() > 0 && !is_ws(s[0]) {
        drop_word(s.drop_first())
    } else {
        s
    }
}

proof fn lemma_skip_ws_len(s: Seq<char>)
    ensures
        skip_ws(s).len() <= s.len(),
    decreases s.len(),
{
    if s.len() > 0 && is_ws(s[0]) {
        lemma_skip_ws_len(s.drop_first());
    }
}

proof fn lemma_drop_word_len(s: Seq<char>)
    ensures
        drop_word(s).len() <= s.len(),
    decreases s.len(),
{
    if s.len() > 0 && !is_ws(s[0]) {
        lemma_drop_word_len(s.drop_first());
    }
}

/// The maximal whitespace-separated words of `s`, in order.
pub open spec fn split_ws(s: Seq<char>) -> Seq<Seq<char>>
    decreases s.len(),
    via split_ws_decreases
{
    let w = skip_ws(s);
    if w.len() == 0 {
        Seq::empty()
    } else {
        seq![take_word(w)] + split_ws(drop_word(w))
    }
}

#[via_fn]
proof fn split_ws_decreases(s: Seq<char>) {
    lemma_skip_ws_len(s);
    let w = skip_ws(s);
    if w.len() > 0 {
        if is_ws(w[0]) {
            lemma_skip_ws_head(s);
        }
        lemma_drop_word_len(w.drop_first());
    }
}

/// What `skip_ws` leaves never starts with whitespace.
proof fn lemma_skip_ws_head(s: Seq<char>)
    ensures
        skip_ws(s).len() > 0 ==> !is_ws(skip_ws(s)[0]),
    decreases s.len(),
{
    if s.len() > 0 && is_ws(s[0]) {
        lemma_skip_ws_head(s.drop_first());
    }
}

/// On a sequence whose first `k` characters are non-whitespace and whose
/// character `k`, if any, is whitespace, the word functions split at `k`.
proof fn lemma_word_prefix(s: Seq<char>, k: int)
    requires
        0 <= k <= s.len(),
        forall|i: int| 0 <= i < k ==> !is_ws(#[trigger] s[i]),
        k < s.len() ==> is_ws(s[k]),
    ensures
        take_word(s) == s.take(k),
        drop_word(s) == s.skip(k),
    decreases k,
{
    if k == 0 {
        assert(s.take(0) =~= Seq::<char>::empty());
        assert(s.skip(0) =~= s);
    } else {
        lemma_word_prefix(s.drop_first(), k - 1);
        assert(seq![s[0]] + s.drop_first().take(k - 1) =~= s.take(k));
        assert(s.drop_first().skip(k - 1) =~= s.skip(k));
    }
}

/// Returns whether `c` separates FEN fields.
fn is_ws_char(c: char) -> (r: bool)
    ensures
        r == is_ws(c),
{
    c == ' ' || c == '\t' || c == '\n' || c == '\r'
}

/// Collects the characters of a string slice.
fn chars_of(s: &str) -> (v: Vec<char>)
    ensures
        v@ == s@,
{
    let n = s.unicode_len();
    let mut v: Vec<char> = Vec::new();
    let mut i: usize = 0;
    while i < n
        invariant
            i <= n,
            n == s@.len(),
            v@ =~= s@.take(i as int),
        decreases n - i,
    {
        v.push(s.get_char(i));
        proof {
            assert(v@ =~= s@.take(i as int + 1));
        }
        i = i + 1;
    }
    proof {
        assert(v@ =~= s@);
    }
    v
}

/// Splits the characters into maximal whitespace-separated words.
fn split_whitespace_chars(v: &Vec<char>) -> (words: Vec<Vec<char>>)
    ensures
        words@.map_values(|w: Vec<char>| w@) == split_ws(v@),
{
    let n = v.len();
    let mut words: Vec<Vec<char>> = Vec::new();
    let mut pos: usize = 0;
    proof {
        assert(v@.skip(0) =~= v@);
        assert(words@.map_values(|w: Vec<char>| w@) + split_ws(v@) =~= split_ws(v@));
    }
    while pos < n
        invariant
            pos <= n,
            n == v@.len(),
            split_ws(v@) == words@.map_values(|w: Vec<char>| w@) + split_ws(
                v@.skip(pos as int),
            ),
        decreases n - pos,
    {
        if is_ws_char(v[pos]) {
            proof {
                assert(v@.skip(pos as int).drop_first() =~= v@.skip(pos as int + 1));
                assert(skip_ws(v@.skip(pos as int)) == skip_ws(v@.skip(pos as int + 1)));
            }
            pos = pos + 1;
        } else {
            let start = pos;
            let mut word: Vec<char> = Vec::new();
            while pos < n && !is_ws_char(v[pos])
                invariant
                    start <= pos <= n,
                    n == v@.len(),
                    word@ =~= v@.subrange(start as int, pos as int),
                    forall|i: int| start <= i < pos ==> !is_ws(#[trigger] v@[i]),
                decreases n - pos,
            {
                word.push(v[pos]);
                proof {
                    assert(word@ =~= v@.subrange(start as int, pos as int + 1));
                }
                pos = pos + 1;
            }
            proof {
                let s = v@.skip(start as int);
                let k = pos - start;
                assert(forall|i: int|
                    0 <= i < k ==> !is_ws(#[trigger] s[i]) && s[i] == v@[start + i]);
                lemma_word_prefix(s, k);
                assert(skip_ws(s) == s);
                assert(take_word(s) =~= word@);
                assert(drop_word(s) =~= v@.skip(pos as int));
                assert(split_ws(s) == seq![word@] + split_ws(v@.skip(pos as int)));
                assert((words@.push(word)).map_values(|w: Vec<char>| w@) =~= words@.map_values(
                    |w: Vec<char>| w@,
                ).push(word@));
                assert(words@.map_values(|w: Vec<char>| w@).push(word@) + split_ws(
                    v@.skip(pos as int),
                ) =~= words@.map_values(|w: Vec<char>| w@) + (seq![word@] + split_ws(
                    v@.skip(pos as int),
                )));
            }
            words.push(word);
        }
    }
    proof {
        assert(v@.skip(n as int) =~= Seq::<char>::empty());
        assert(split_ws(v@.skip(n as int)) =~= Seq::<Seq<char>>::empty());
        assert(words@.map_values(|w: Vec<char>| w@) + Seq::<Seq<char>>::empty() =~= words@
            .map_values(|w: Vec<char>| w@));
    }
    words
}

/// What the active-color field means: `w` or `b`, anything else rejected.
pub open spec fn spec_parse_active_color(w: Seq<char>) -> Result<Color, FenError> {
    if w.len() == 1 && w[0] == 'w' {
        Ok(Color::White)
    } else if w.len() == 1 && w[0] == 'b' {
        Ok(Color::Black)
    } else {
        Err(FenError::InvalidColor)
    }
}

/// Parses the active-color field.
fn parse_active_color(w: &Vec<char>) -> (r: Result<Color, FenError>)
    ensures
        r == spec_parse_active_color(w@),
{
    if w.len() == 1 {
        let c = w[0];
        if c == 'w' {
            return Ok(Color::White);
        }
        if c == 'b' {
            return Ok(Color::Black);
        }
    }
    Err(FenError::InvalidColor)
}

/// Whether `c` is a decimal digit.
pub open spec fn is_digit(c: char) -> bool {
    0x30 <= c as u32 <= 0x39
}

/// The numeric value of a digit character.
pub open spec fn digit_val(c: char) -> int {
    c as u32 - 0x30
}

/// The number a digit string denotes, most significant digit first.
pub open spec fn digits_val(w: Seq<char>) -> int
    decreases w.len(),
{
    if w.len() == 0 {
        0
    } else {
        digits_val(w.drop_last()) * 10 + digit_val(w.last())
    }
}

/// What a clock field means: a string of decimal digits whose value fits in
/// 16 bits; anything else is rejected.
pub open spec fn spec_parse_u16(w: Seq<char>) -> Result<u16, FenError> {
    if w.len() > 0 && (forall|i: int| 0 <= i < w.len() ==> is_digit(#[trigger] w[i]))
        && digits_val(w) <= 65535 {
        Ok(digits_val(w) as u16)
    } else {
        Err(FenError::InvalidNumber)
    }
}

/// Once a digit prefix exceeds the 16-bit range, the whole string's value
/// does too.
proof fn lemma_digits_val_large(w: Seq<char>, k: int)
    requires
        0 <= k <= w.len(),
        digits_val(w.take(k)) > 65535,
    ensures
        digits_val(w) > 65535,
    decreases w.len() - k,
{
    if k == w.len() {
        assert(w.take(k) =~= w);
    } else {
        assert(w.take(k + 1).drop_last() =~= w.take(k));
        assert(w.take(k + 1).last() == w[k]);
        assert(digit_val(w[k]) >= -0x30);
        lemma_digits_val_large(w, k + 1);
    }
}

/// Parses a clock field as a non-negative 16-bit integer.
fn parse_u16_int(w: &Vec<char>) -> (r: Result<u16, FenError>)
    ensures
        r == spec_parse_u16(w@),
{
    let n = w.len();
    if n == 0 {
        return Err(FenError::InvalidNumber);
    }
    let mut acc: u32 = 0;
    let mut i: usize = 0;
    while i < n
        invariant
            i <= n,
            n == w@.len(),
            forall|j: int| 0 <= j < i ==> is_digit(#[trigger] w@[j]),
            acc == digits_val(w@.take(i as int)),
            acc <= 65535,
        decreases n - i,
    {
        let cc = w[i] as u32;
        if cc < 0x30 || cc > 0x39 {
            return Err(FenError::InvalidNumber);
        }
        proof {
            assert(w@.take(i as int + 1).drop_last() =~= w@.take(i as int));
            assert(w@.take(i as int + 1).last() == w@[i as int]);
        }
        acc = acc * 10 + (cc - 0x30);
        if acc > 65535 {
            proof {
                lemma_digits_val_large(w@, i as int + 1);
            }
            return Err(FenError::InvalidNumber);
        }
        i = i + 1;
    }
    proof {
        assert(w@.take(n as int) =~= w@);
    }
    Ok(acc as u16)
}

/// What the en-passant field means: `-` for no target, else a file letter
/// `a` through `h` followed by a rank digit `1` through `8`.
pub open spec fn spec_parse_en_passant(w: Seq<char>) -> Result<Option<Square>, FenError> {
    if w.len() == 1 && w[0] == '-' {
        Ok(None)
    } else if w.len() == 2 && 0x61 <= w[0] as u32 <= 0x68 && 0x31 <= w[1] as u32 <= 0x38 {
        Ok(Some(Square((((w[1] as u32 - 0x31) * 8 + (w[0] as u32 - 0x61))) as u8)))
    } else {
        Err(FenError::InvalidCoordinate)
    }
}

/// Parses the en-passant target field.
fn parse_en_passant_target(w: &Vec<char>) -> (r: Result<Option<Square>, FenError>)
    ensures
        r == spec_parse_en_passant(w@),
        r matches Ok(Some(sq)) ==> sq.wf(),
{
    if w.len() == 1 && w[0] == '-' {
        return Ok(None);
    }
    if w.len() != 2 {
        return Err(FenError::InvalidCoordinate);
    }
    let fc = w[0] as u32;
    let rc = w[1] as u32;
    if fc < 0x61 || fc > 0x68 || rc < 0x31 || rc > 0x38 {
        return Err(FenError::InvalidCoordinate);
    }
    Ok(Some(Square(((rc - 0x31) * 8 + (fc - 0x61)) as u8)))
}

/// Whether `c` grants a castling right.
pub open spec fn is_castling_char(c: char) -> bool {
    c == 'K' || c == 'Q' || c == 'k' || c == 'q'
}

/// What the castling field means: `-` for no rights; otherwise at most four
/// characters from `K`, `Q`, `k`, `q` (duplicates tolerated), each granting
/// its side's right.
pub open spec fn spec_parse_castling(w: Seq<char>) -> Result<Option<CastlingRights>, FenError> {
    if w.len() == 1 && w[0] == '-' {
        Ok(None)
    } else if w.len() > 4 {
        Err(FenError::MalformedInput)
    } else if exists|i: int| 0 <= i < w.len() && !is_castling_char(#[trigger] w[i]) {
        Err(FenError::InvalidCharacter)
    } else if w.len() == 0 {
        Ok(None)
    } else {
        Ok(
            Some(
                CastlingRights {
                    white: CastlingTypes(w.contains('K'), w.contains('Q')),
                    black: CastlingTypes(w.contains('k'), w.contains('q')),
                },
            ),
        )
    }
}

/// Parses the castling-rights field.
fn parse_castling_rights(w: &Vec<char>) -> (r: Result<Option<CastlingRights>, FenError>)
    ensures
        r == spec_parse_castling(w@),
{
    let n = w.len();
    if n == 1 && w[0] == '-' {
        return Ok(None);
    }
    if n > 4 {
        return Err(FenError::MalformedInput);
    }
    if n == 0 {
        return Ok(None);
    }
    let mut white_king_side = false;
    let mut white_queen_side = false;
    let mut black_king_side = false;
    let mut black_queen_side = false;
    let mut i: usize = 0;
    while i < n
        invariant
            i <= n,
            n == w@.len(),
            1 <= n <= 4,
            !(n == 1 && w@[0] == '-'),
            forall|j: int| 0 <= j < i ==> is_castling_char(#[trigger] w@[j]),
            white_king_side == exists|j: int| 0 <= j < i && w@[j] == 'K',
            white_queen_side == exists|j: int| 0 <= j < i && w@[j] == 'Q',
            black_king_side == exists|j: int| 0 <= j < i && w@[j] == 'k',
            black_queen_side == exists|j: int| 0 <= j < i && w@[j] == 'q',
        decreases n - i,
    {
        let c = w[i];
        if c == 'K' {
            white_king_side = true;
        } else if c == 'Q' {
            white_queen_side = true;
        } else if c == 'k' {
            black_king_side = true;
        } else if c == 'q' {
            black_queen_side = true;
        } else {
            proof {
                assert(!is_castling_char(w@[i as int]));
                assert(exists|j: int| 0 <= j < w@.len() && !is_castling_char(#[trigger] w@[j]));
            }
            return Err(FenError::InvalidCharacter);
        }
        i = i + 1;
    }
    Ok(
        Some(
            CastlingRights {
                white: CastlingTypes(white_king_side, white_queen_side),
                black: CastlingTypes(black_king_side, black_queen_side),
            },
        ),
    )
}

/// The piece a placement character denotes: uppercase white, lowercase black.
pub open spec fn piece_of_char(c: char) -> Option<(Color, PieceType)> {
    if c == 'P' {
        Some((Color::White, PieceType::Pawn))
    } else if c == 'N' {
        Some((Color::White, PieceType::Knight))
    } else if c == 'B' {
        Some((Color::White, PieceType::Bishop))
    } else if c == 'R' {
        Some((Color::White, PieceType::Rook))
    } else if c == 'Q' {
        Some((Color::White, PieceType::Queen))
    } else if c == 'K' {
        Some((Color::White, PieceType::King))
    } else if c == 'p' {
        Some((Color::Black, PieceType::Pawn))
    } else if c == 'n' {
        Some((Color::Black, PieceType::Knight))
    } else if c == 'b' {
        Some((Color::Black, PieceType::Bishop))
    } else if c == 'r' {
        Some((Color::Black, PieceType::Rook))
    } else if c == 'q' {
        Some((Color::Black, PieceType::Queen))
    } else if c == 'k' {
        Some((Color::Black, PieceType::King))
    } else {
        None
    }
}

/// The number of consecutive empty files a digit character denotes, 1
/// through 8.
pub open spec fn empty_count_of_char(c: char) -> Option<int> {
    if 0x31 <= c as u32 <= 0x38 {
        Some((c as u32 - 0x30) as int)
    } else {
        None
    }
}

/// Scans one rank string left to right with `k` files already filled and
/// yields the remaining files' contents: a piece letter fills one file, a
/// digit that many empty files.  Any other character is rejected, as is a
/// rank that overflows eight files or leaves files unfilled.
pub open spec fn rank_scan(w: Seq<char>, k: int) -> Result<
    Seq<Option<(Color, PieceType)>>,
    FenError,
>
    decreases w.len(),
{
    if w.len() == 0 {
        if k == 8 {
            Ok(Seq::empty())
        } else {
            Err(FenError::MalformedInput)
        }
    } else {
        match piece_of_char(w[0]) {
            Some(p) => {
                if k + 1 > 8 {
                    Err(FenError::MalformedInput)
                } else {
                    match rank_scan(w.drop_first(), k + 1) {
                        Ok(rest) => Ok(seq![Some(p)] + rest),
                        Err(e) => Err(e),
                    }
                }
            },
            None => {
                match empty_count_of_char(w[0]) {
                    Some(d) => {
                        if k + d > 8 {
                            Err(FenError::MalformedInput)
                        } else {
                            match rank_scan(w.drop_first(), k + d) {
                                Ok(rest) => Ok(
                                    Seq::new(d as nat, |j: int| None::<(Color, PieceType)>) + rest,
                                ),
                                Err(e) => Err(e),
                            }
                        }
                    },
                    None => Err(FenError::InvalidCharacter),
                }
            },
        }
    }
}

/// The characters of `s` before its first `/`.
pub open spec fn take_rank(s: Seq<char>) -> Seq<char>
    decreases s.len(),
{
    if s.len() == 0 {
        s
    } else if s[0] == '/' {
        Seq::empty()
    } else {
        seq![s[0]] + take_rank(s.drop_first())
    }
}

/// `s` split at each `/`, empty pieces kept.
pub open spec fn split_slash(s: Seq<char>) -> Seq<Seq<char>>
    decreases s.len(),
{
    let h = take_rank(s);
    if h.len() >= s.len() {
        seq![s]
    } else {
        seq![h] + split_slash(s.skip(h.len() as int + 1))
    }
}

/// On a sequence whose first `j` characters are not `/` and whose character
/// `j`, if any, is `/`, `take_rank` yields exactly that prefix.
proof fn lemma_rank_prefix(s: Seq<char>, j: int)
    requires
        0 <= j <= s.len(),
        forall|i: int| 0 <= i < j ==> #[trigger] s[i] != '/',
        j < s.len() ==> s[j] == '/',
    ensures
        take_rank(s) == s.take(j),
    decreases j,
{
    if j == 0 {
        assert(s.take(0) =~= Seq::<char>::empty());
        if s.len() == 0 {
            assert(s.take(0) =~= s);
        }
    } else {
        lemma_rank_prefix(s.drop_first(), j - 1);
        assert(seq![s[0]] + s.drop_first().take(j - 1) =~= s.take(j));
    }
}

/// The first rejection among the ranks, scanned top rank first.
pub open spec fn ranks_ok(ranks: Seq<Seq<char>>) -> Result<(), FenError>
    decreases ranks.len(),
{
    if ranks.len() == 0 {
        Ok(())
    } else {
        match rank_scan(ranks[0], 0) {
            Ok(_) => ranks_ok(ranks.drop_first()),
            Err(e) => Err(e),
        }
    }
}

proof fn lemma_ranks_ok_skip(ranks: Seq<Seq<char>>, i: int)
    requires
        0 <= i <= ranks.len(),
        forall|j: int| 0 <= j < i ==> (#[trigger] rank_scan(ranks[j], 0)) is Ok,
    ensures
        ranks_ok(ranks) == ranks_ok(ranks.skip(i)),
    decreases i,
{
    if i == 0 {
        assert(ranks.skip(0) =~= ranks);
    } else {
        assert(rank_scan(ranks[0], 0) is Ok);
        lemma_ranks_ok_skip(ranks.drop_first(), i - 1);
        assert(ranks.drop_first().skip(i - 1) =~= ranks.skip(i));
    }
}

/// The piece standing on square `sq` according to a placement field: ranks
/// are listed top rank first, files left to right within a rank.
pub open spec fn board_at(field: Seq<char>, sq: u64) -> Option<(Color, PieceType)> {
    let ranks = split_slash(field);
    let i = 7 - rank_of(sq);
    if 0 <= i < ranks.len() {
        match rank_scan(ranks[i], 0) {
            Ok(row) => {
                if file_of(sq) < row.len() {
                    row[file_of(sq) as int]
                } else {
                    None
                }
            },
            Err(_) => None,
        }
    } else {
        None
    }
}

/// The bitboard of squares below `n` that a placement field gives to the
/// given color and piece type.
pub open spec fn placement_bits(field: Seq<char>, c: Color, pt: PieceType, n: int) -> u64
    decreases n,
{
    if n <= 0 {
        0u64
    } else {
        placement_bits(field, c, pt, n - 1) | (if board_at(field, (n - 1) as u64) == Some(
            (c, pt),
        ) {
            1u64 << ((n - 1) as u64)
        } else {
            0u64
        })
    }
}

proof fn lemma_placement_bits_bit(field: Seq<char>, c: Color, pt: PieceType, n: int, t: u64)
    requires
        0 <= n <= 64,
        t < 64,
    ensures
        bit(placement_bits(field, c, pt, n), t) <==> (t < n && board_at(field, t) == Some(
            (c, pt),
        )),
    decreases n,
{
    lemma_bit_ops();
    if n > 0 {
        lemma_placement_bits_bit(field, c, pt, n - 1, t);
    }
}

/// What the placement field means: exactly eight `/`-separated ranks, each
/// expressing exactly eight files, assembled into the two sides' piece
/// bitboards.
pub open spec fn spec_parse_placement(field: Seq<char>) -> Result<PiecePlacement, FenError> {
    let ranks = split_slash(field);
    if ranks.len() != 8 {
        Err(FenError::MalformedInput)
    } else {
        match ranks_ok(ranks) {
            Err(e) => Err(e),
            Ok(unit) => Ok(
                PiecePlacement {
                    white: PieceBitboard {
                        pawn: placement_bits(field, Color::White, PieceType::Pawn, 64),
                        knight: placement_bits(field, Color::White, PieceType::Knight, 64),
                        bishop: placement_bits(field, Color::White, PieceType::Bishop, 64),
                        rook: placement_bits(field, Color::White, PieceType::Rook, 64),
                        queen: placement_bits(field, Color::White, PieceType::Queen, 64),
                        king: placement_bits(field, Color::White, PieceType::King, 64),
                    },
                    black: PieceBitboard {
                        pawn: placement_bits(field, Color::Black, PieceType::Pawn, 64),
                        knight: placement_bits(field, Color::Black, PieceType::Knight, 64),
                        bishop: placement_bits(field, Color::Black, PieceType::Bishop, 64),
                        rook: placement_bits(field, Color::Black, PieceType::Rook, 64),
                        queen: placement_bits(field, Color::Black, PieceType::Queen, 64),
                        king: placement_bits(field, Color::Black, PieceType::King, 64),
                    },
                },
            ),
        }
    }
}

/// Splits the characters at each `/`, empty pieces kept.
fn split_slash_chars(v: &Vec<char>) -> (ranks: Vec<Vec<char>>)
    ensures
        ranks@.map_values(|w: Vec<char>| w@) == split_slash(v@),
{
    let n = v.len();
    let mut ranks: Vec<Vec<char>> = Vec::new();
    let mut pos: usize = 0;
    proof {
        assert(v@.skip(0) =~= v@);
        assert(ranks@.map_values(|w: Vec<char>| w@) + split_slash(v@) =~= split_slash(v@));
    }
    let mut done = false;
    while !done
        invariant
            pos <= n,
            n == v@.len(),
            !done ==> split_slash(v@) == ranks@.map_values(|w: Vec<char>| w@) + split_slash(
                v@.skip(pos as int),
            ),
            done ==> split_slash(v@) == ranks@.map_values(|w: Vec<char>| w@),
        decreases n - pos, (if done { 0int } else { 1int }),
    {
        let start = pos;
        let mut rank: Vec<char> = Vec::new();
        while pos < n && v[pos] != '/'
            invariant
                start <= pos <= n,
                n == v@.len(),
                rank@ =~= v@.subrange(start as int, pos as int),
                forall|i: int| start <= i < pos ==> #[trigger] v@[i] != '/',
            decreases n - pos,
        {
            rank.push(v[pos]);
            proof {
                assert(rank@ =~= v@.subrange(start as int, pos as int + 1));
            }
            pos = pos + 1;
        }
        proof {
            let s = v@.skip(start as int);
            let j = pos - start;
            assert(forall|i: int| 0 <= i < j ==> #[trigger] s[i] != '/');
            lemma_rank_prefix(s, j);
            assert(take_rank(s) =~= rank@);
            if pos < n {
                assert(s.skip(j + 1) =~= v@.skip(pos as int + 1));
                assert(split_slash(s) == seq![rank@] + split_slash(v@.skip(pos as int + 1)));
            } else {
                assert(s =~= rank@);
                assert(split_slash(s) == seq![rank@]);
            }
            assert((ranks@.push(rank)).map_values(|w: Vec<char>| w@) =~= ranks@.map_values(
                |w: Vec<char>| w@,
            ).push(rank@));
            assert(ranks@.map_values(|w: Vec<char>| w@).push(rank@) + split_slash(
                v@.skip(pos as int + 1),
            ) =~= ranks@.map_values(|w: Vec<char>| w@) + (seq![rank@] + split_slash(
                v@.skip(pos as int + 1),
            )));
            assert(ranks@.map_values(|w: Vec<char>| w@).push(rank@) =~= ranks@.map_values(
                |w: Vec<char>| w@,
            ) + seq![rank@]);
        }
        ranks.push(rank);
        if pos < n {
            pos = pos + 1;
        } else {
            done = true;
        }
    }
    ranks
}

/// Returns the piece a placement character denotes.
fn piece_of(c: char) -> (r: Option<(Color, PieceType)>)
    ensures
        r == piece_of_char(c),
{
    if c == 'P' {
        Some((Color::White, PieceType::Pawn))
    } else if c == 'N' {
        Some((Color::White, PieceType::Knight))
    } else if c == 'B' {
        Some((Color::White, PieceType::Bishop))
    } else if c == 'R' {
        Some((Color::White, PieceType::Rook))
    } else if c == 'Q' {
        Some((Color::White, PieceType::Queen))
    } else if c == 'K' {
        Some((Color::White, PieceType::King))
    } else if c == 'p' {
        Some((Color::Black, PieceType::Pawn))
    } else if c == 'n' {
        Some((Color::Black, PieceType::Knight))
    } else if c == 'b' {
        Some((Color::Black, PieceType::Bishop))
    } else if c == 'r' {
        Some((Color::Black, PieceType::Rook))
    } else if c == 'q' {
        Some((Color::Black, PieceType::Queen))
    } else if c == 'k' {
        Some((Color::Black, PieceType::King))
    } else {
        None
    }
}

/// The bitboard one side's half of an accumulating placement gives a piece
/// type of a color.
spec fn side_get(white: PieceBitboard, black: PieceBitboard, c: Color, pt: PieceType) -> u64 {
    match c {
        Color::White => white.spec_get(pt),
        Color::Black => black.spec_get(pt),
    }
}

/// Adds one square to one piece bitboard, leaving the others unchanged.
fn add_piece(pb: PieceBitboard, pt: &PieceType, index: u64) -> (r: PieceBitboard)
    requires
        index < 64,
    ensures
        r.spec_get(*pt) == pb.spec_get(*pt) | (1u64 << index),
        forall|p: PieceType| p != *pt ==> r.spec_get(p) == pb.spec_get(p),
{
    let mut r = pb;
    match pt {
        PieceType::Pawn => r.pawn = r.pawn | (1u64 << index),
        PieceType::Knight => r.knight = r.knight | (1u64 << index),
        PieceType::Bishop => r.bishop = r.bishop | (1u64 << index),
        PieceType::Rook => r.rook = r.rook | (1u64 << index),
        PieceType::Queen => r.queen = r.queen | (1u64 << index),
        PieceType::King => r.king = r.king | (1u64 << index),
    }
    r
}

/// The coordinates of the square at row `i` from the top and file `k`.
proof fn lemma_rank_file_index(i: u64, k: u64)
    by (bit_vector)
    requires
        i < 8,
        k < 8,
    ensures
        (8 * (7 - i) + k) < 64,
        rank_of((8 * (7 - i) + k) as u64) == 7 - i,
        file_of((8 * (7 - i) + k) as u64) == k,
{
}

/// Every square's rank stays on the board.
proof fn lemma_rank_bound(sq: u64)
    by (bit_vector)
    requires
        sq < 64,
    ensures
        rank_of(sq) <= 7,
        file_of(sq) <= 7,
{
}

/// Parses the piece-placement field into the two sides' piece bitboards.
fn parse_piece_placement(w: &Vec<char>) -> (r: Result<PiecePlacement, FenError>)
    ensures
        r == spec_parse_placement(w@),
        r matches Ok(pp) ==> pp.wf(),
{
    let ranks = split_slash_chars(w);
    let ghost rv = ranks@.map_values(|x: Vec<char>| x@);
    if ranks.len() != 8 {
        return Err(FenError::MalformedInput);
    }
    let mut white = PieceBitboard::empty();
    let mut black = PieceBitboard::empty();
    proof {
        lemma_bit_ops();
    }
    let mut i: usize = 0;
    while i < 8
        invariant
            i <= 8,
            ranks@.len() == 8,
            rv == ranks@.map_values(|x: Vec<char>| x@),
            rv == split_slash(w@),
            forall|j: int| 0 <= j < i ==> (#[trigger] rank_scan(rv[j], 0)) is Ok,
            forall|c: Color, pt: PieceType, sq: u64|
                sq < 64 ==> ((#[trigger] bit(side_get(white, black, c, pt), sq)) <==> (7 - rank_of(
                    sq,
                ) < i && board_at(w@, sq) == Some((c, pt)))),
        decreases 8 - i,
    {
        let rank = &ranks[i];
        let ghost rseq = rv[i as int];
        proof {
            assert(rank@ == rseq);
        }
        let m = rank.len();
        let mut j: usize = 0;
        let mut k: u64 = 0;
        let ghost mut prefix: Seq<Option<(Color, PieceType)>> = Seq::empty();
        proof {
            assert(rseq.skip(0) =~= rseq);
            let first = rank_scan(rseq, 0);
            if first is Ok {
                assert(prefix + first->Ok_0 =~= first->Ok_0);
            }
        }
        while j < m
            invariant
                j <= m,
                i < 8,
                k <= 8,
                m == rseq.len(),
                rank@ == rseq,
                ranks@.len() == 8,
                rv == ranks@.map_values(|x: Vec<char>| x@),
                rv == split_slash(w@),
                rseq == rv[i as int],
                prefix.len() == k,
                rank_scan(rv[i as int], 0) == (match rank_scan(rseq.skip(j as int), k as int) {
                    Ok(rest) => Ok::<_, FenError>(prefix + rest),
                    Err(e) => Err(e),
                }),
                forall|jj: int| 0 <= jj < i ==> (#[trigger] rank_scan(rv[jj], 0)) is Ok,
                forall|c: Color, pt: PieceType, sq: u64|
                    sq < 64 ==> ((#[trigger] bit(side_get(white, black, c, pt), sq)) <==> ((7
                        - rank_of(sq) < i && board_at(w@, sq) == Some((c, pt))) || (7 - rank_of(sq)
                        == i && file_of(sq) < k && prefix[file_of(sq) as int] == Some((c, pt))))),
            decreases m - j,
        {
            proof {
                lemma_bit_ops();
                assert(rseq.skip(j as int)[0] == rseq[j as int]);
                assert(rseq.skip(j as int).drop_first() =~= rseq.skip(j as int + 1));
            }
            let c = rank[j];
            match piece_of(c) {
                Some((col, pt)) => {
                    if k >= 8 {
                        proof {
                            lemma_ranks_ok_skip(rv, i as int);
                            assert(rv.skip(i as int)[0] == rv[i as int]);
                        }
                        return Err(FenError::MalformedInput);
                    }
                    let index: u64 = 8 * (7 - i as u64) + k;
                    let ghost prefix0 = prefix;
                    let ghost white0 = white;
                    let ghost black0 = black;
                    proof {
                        lemma_rank_file_index(i as u64, k);
                    }
                    match col {
                        Color::White => {
                            white = add_piece(white, &pt, index);
                        },
                        Color::Black => {
                            black = add_piece(black, &pt, index);
                        },
                    }
                    proof {
                        prefix = prefix.push(Some((col, pt)));
                        let next = rank_scan(rseq.skip(j as int + 1), k as int + 1);
                        if next is Ok {
                            assert(prefix0 + (seq![Some((col, pt))] + next->Ok_0) =~= prefix
                                + next->Ok_0);
                        }
                        assert forall|cc: Color, pp: PieceType, sq: u64| sq < 64 implies ((
                        #[trigger] bit(side_get(white, black, cc, pp), sq)) <==> ((7 - rank_of(sq)
                            < i && board_at(w@, sq) == Some((cc, pp))) || (7 - rank_of(sq) == i
                            && file_of(sq) < k + 1 && prefix[file_of(sq) as int] == Some(
                            (cc, pp),
                        )))) by {
                            lemma_rank_bound(sq);
                            assert(bit(side_get(white0, black0, cc, pp), sq) <==> ((7 - rank_of(sq)
                                < i && board_at(w@, sq) == Some((cc, pp))) || (7 - rank_of(sq) == i
                                && file_of(sq) < k && prefix0[file_of(sq) as int] == Some(
                                (cc, pp),
                            ))));
                            assert(bit(side_get(white, black, cc, pp), sq) <==> (bit(
                                side_get(white0, black0, cc, pp),
                                sq,
                            ) || (sq == index && cc == col && pp == pt)));
                            if 7 - rank_of(sq) == i && file_of(sq) == k {
                                lemma_rank_file_index(i as u64, k);
                                assert(sq == index);
                            }
                        }
                    }
                    k = k + 1;
                },
                None => {
                    let cc32 = c as u32;
                    if 0x31 <= cc32 && cc32 <= 0x38 {
                        let d: u64 = (cc32 - 0x30) as u64;
                        if k + d > 8 {
                            proof {
                                lemma_ranks_ok_skip(rv, i as int);
                                assert(rv.skip(i as int)[0] == rv[i as int]);
                            }
                            return Err(FenError::MalformedInput);
                        }
                        let ghost prefix0 = prefix;
                        proof {
                            prefix = prefix + Seq::new(
                                d as nat,
                                |x: int| None::<(Color, PieceType)>,
                            );
                            let next = rank_scan(rseq.skip(j as int + 1), k as int + d as int);
                            if next is Ok {
                                assert(prefix0 + (Seq::new(
                                    d as nat,
                                    |x: int| None::<(Color, PieceType)>,
                                ) + next->Ok_0) =~= prefix + next->Ok_0);
                            }
                        }
                        k = k + d;
                    } else {
                        proof {
                            lemma_ranks_ok_skip(rv, i as int);
                            assert(rv.skip(i as int)[0] == rv[i as int]);
                        }
                        return Err(FenError::InvalidCharacter);
                    }
                },
            }
            j = j + 1;
        }
        if k != 8 {
            proof {
                assert(rseq.skip(m as int) =~= Seq::<char>::empty());
                lemma_ranks_ok_skip(rv, i as int);
                assert(rv.skip(i as int)[0] == rv[i as int]);
            }
            return Err(FenError::MalformedInput);
        }
        proof {
            assert(rseq.skip(m as int) =~= Seq::<char>::empty());
            assert(prefix + Seq::<Option<(Color, PieceType)>>::empty() =~= prefix);
            assert(rank_scan(rv[i as int], 0) == Ok::<_, FenError>(prefix));
            assert forall|c: Color, pt: PieceType, sq: u64| sq < 64 implies ((#[trigger] bit(
                side_get(white, black, c, pt),
                sq,
            )) <==> (7 - rank_of(sq) < i + 1 && board_at(w@, sq) == Some((c, pt)))) by {
                lemma_rank_bound(sq);
                if 7 - rank_of(sq) == i {
                    assert(board_at(w@, sq) == (if file_of(sq) < prefix.len() {
                        prefix[file_of(sq) as int]
                    } else {
                        None::<(Color, PieceType)>
                    }));
                }
            }
        }
        i = i + 1;
    }
    proof {
        lemma_ranks_ok_skip(rv, 8);
        assert(rv.skip(8) =~= Seq::<Seq<char>>::empty());
        assert(ranks_ok(rv) is Ok);
    }
    let pp = PiecePlacement { white, black };
    proof {
        let spp = spec_parse_placement(w@);
        assert(spp is Ok);
        let sv = spp->Ok_0;
        assert forall|c: Color, pt: PieceType, t: u64| t < 64 implies (#[trigger] bit(
            side_get(white, black, c, pt),
            t,
        ) <==> bit(side_get(sv.white, sv.black, c, pt), t)) by {
            lemma_placement_bits_bit(w@, c, pt, 64, t);
            lemma_rank_bound(t);
        }
        assert forall|c: Color, pt: PieceType| true implies #[trigger] side_get(
            white,
            black,
            c,
            pt,
        ) == side_get(sv.white, sv.black, c, pt) by {
            lemma_bit_ext(side_get(white, black, c, pt), side_get(sv.white, sv.black, c, pt));
        }
        assert(side_get(white, black, Color::White, PieceType::Pawn) == side_get(
            sv.white,
            sv.black,
            Color::White,
            PieceType::Pawn,
        ));
        assert(side_get(white, black, Color::White, PieceType::Knight) == side_get(
            sv.white,
            sv.black,
            Color::White,
            PieceType::Knight,
        ));
        assert(side_get(white, black, Color::White, PieceType::Bishop) == side_get(
            sv.white,
            sv.black,
            Color::White,
            PieceType::Bishop,
        ));
        assert(side_get(white, black, Color::White, PieceType::Rook) == side_get(
            sv.white,
            sv.black,
            Color::White,
            PieceType::Rook,
        ));
        assert(side_get(white, black, Color::White, PieceType::Queen) == side_get(
            sv.white,
            sv.black,
            Color::White,
            PieceType::Queen,
        ));
        assert(side_get(white, black, Color::White, PieceType::King) == side_get(
            sv.white,
            sv.black,
            Color::White,
            PieceType::King,
        ));
        assert(side_get(white, black, Color::Black, PieceType::Pawn) == side_get(
            sv.white,
            sv.black,
            Color::Black,
            PieceType::Pawn,
        ));
        assert(side_get(white, black, Color::Black, PieceType::Knight) == side_get(
            sv.white,
            sv.black,
            Color::Black,
            PieceType::Knight,
        ));
        assert(side_get(white, black, Color::Black, PieceType::Bishop) == side_get(
            sv.white,
            sv.black,
            Color::Black,
            PieceType::Bishop,
        ));
        assert(side_get(white, black, Color::Black, PieceType::Rook) == side_get(
            sv.white,
            sv.black,
            Color::Black,
            PieceType::Rook,
        ));
        assert(side_get(white, black, Color::Black, PieceType::Queen) == side_get(
            sv.white,
            sv.black,
            Color::Black,
            PieceType::Queen,
        ));
        assert(side_get(white, black, Color::Black, PieceType::King) == side_get(
            sv.white,
            sv.black,
            Color::Black,
            PieceType::King,
        ));
        assert(pp == sv);
        // the parsed placement is well formed: the board maps each square to
        // at most one piece
        assert forall|p1: PieceType, p2: PieceType, t: u64|
            p1 != p2 && t < 64 implies !(#[trigger] bit(pp.white.spec_get(p1), t)
            && #[trigger] bit(pp.white.spec_get(p2), t)) by {
            assert(bit(side_get(white, black, Color::White, p1), t) ==> board_at(w@, t) == Some(
                (Color::White, p1),
            ));
            assert(bit(side_get(white, black, Color::White, p2), t) ==> board_at(w@, t) == Some(
                (Color::White, p2),
            ));
        }
        assert forall|p1: PieceType, p2: PieceType, t: u64|
            p1 != p2 && t < 64 implies !(#[trigger] bit(pp.black.spec_get(p1), t)
            && #[trigger] bit(pp.black.spec_get(p2), t)) by {
            assert(bit(side_get(white, black, Color::Black, p1), t) ==> board_at(w@, t) == Some(
                (Color::Black, p1),
            ));
            assert(bit(side_get(white, black, Color::Black, p2), t) ==> board_at(w@, t) == Some(
                (Color::Black, p2),
            ));
        }
        assert forall|t: u64|
            t < 64 implies !(bit(pp.white.spec_occupied(), t) && bit(
            pp.black.spec_occupied(),
            t,
        )) by {
            lemma_bit_ops();
            if bit(pp.white.spec_occupied(), t) && bit(pp.black.spec_occupied(), t) {
                assert(bit(white.pawn, t) || bit(white.knight, t) || bit(white.bishop, t) || bit(
                    white.rook,
                    t,
                ) || bit(white.queen, t) || bit(white.king, t));
                assert(bit(black.pawn, t) || bit(black.knight, t) || bit(black.bishop, t) || bit(
                    black.rook,
                    t,
                ) || bit(black.queen, t) || bit(black.king, t));
                assert((board_at(w@, t) matches Some(p) && p.0 == Color::White)) by {
                    if bit(white.pawn, t) {
                        assert(bit(side_get(white, black, Color::White, PieceType::Pawn), t));
                    } else if bit(white.knight, t) {
                        assert(bit(side_get(white, black, Color::White, PieceType::Knight), t));
                    } else if bit(white.bishop, t) {
                        assert(bit(side_get(white, black, Color::White, PieceType::Bishop), t));
                    } else if bit(white.rook, t) {
                        assert(bit(side_get(white, black, Color::White, PieceType::Rook), t));
                    } else if bit(white.queen, t) {
                        assert(bit(side_get(white, black, Color::White, PieceType::Queen), t));
                    } else {
                        assert(bit(side_get(white, black, Color::White, PieceType::King), t));
                    }
                }
                assert((board_at(w@, t) matches Some(p) && p.0 == Color::Black)) by {
                    if bit(black.pawn, t) {
                        assert(bit(side_get(white, black, Color::Black, PieceType::Pawn), t));
                    } else if bit(black.knight, t) {
                        assert(bit(side_get(white, black, Color::Black, PieceType::Knight), t));
                    } else if bit(black.bishop, t) {
                        assert(bit(side_get(white, black, Color::Black, PieceType::Bishop), t));
                    } else if bit(black.rook, t) {
                        assert(bit(side_get(white, black, Color::Black, PieceType::Rook), t));
                    } else if bit(black.queen, t) {
                        assert(bit(side_get(white, black, Color::Black, PieceType::Queen), t));
                    } else {
                        assert(bit(side_get(white, black, Color::Black, PieceType::King), t));
                    }
                }
                assert(false);
            }
        }
    }
    Ok(pp)
}

/// Decodes a FEN string into a [`Position`], or rejects it with the first
/// failing field's error: the six whitespace-separated fields are piece
/// placement, active color, castling rights, en-passant target, half-move
/// clock and full-move number.  On success the returned position is well
/// formed: no square holds two pieces and the en-passant target lies on the
/// board.
pub fn parse_fen(fen: &str) -> (r: Result<Position, FenError>)
    ensures
        r == spec_parse_fen(fen@),
        r matches Ok(p) ==> p.wf(),
{
    let v = chars_of(fen);
    let components = split_whitespace_chars(&v);
    if components.len() != 6 {
        return Err(FenError::MalformedInput);
    }
    let piece_placement = match parse_piece_placement(&components[0]) {
        Ok(x) => x,
        Err(e) => {
            return Err(e);
        },
    };
    let active_color = match parse_active_color(&components[1]) {
        Ok(x) => x,
        Err(e) => {
            return Err(e);
        },
    };
    let castling_rights = match parse_castling_rights(&components[2]) {
        Ok(x) => x,
        Err(e) => {
            return Err(e);
        },
    };
    let en_passant_target = match parse_en_passant_target(&components[3]) {
        Ok(x) => x,
        Err(e) => {
            return Err(e);
        },
    };
    let half_move_clock = match parse_u16_int(&components[4]) {
        Ok(x) => x,
        Err(e) => {
            return Err(e);
        },
    };
    let full_move_number = match parse_u16_int(&components[5]) {
        Ok(x) => x,
        Err(e) => {
            return Err(e);
        },
    };
    Ok(
        Position {
            piece_placement,
            active_color,
            castling_rights,
            en_passant_target,
            half_move_clock,
            full_move_number,
        },
    )
}

/// What a whole FEN string means: six whitespace-separated fields, decoded in
/// order; the first rejected field decides the error.
pub open spec fn spec_parse_fen(s: Seq<char>) -> Result<Position, FenError> {
    let fields = split_ws(s);
    if fields.len() != 6 {
        Err(FenError::MalformedInput)
    } else {
        match spec_parse_placement(fields[0]) {
            Err(e) => Err(e),
            Ok(pp) => match spec_parse_active_color(fields[1]) {
                Err(e) => Err(e),
                Ok(ac) => match spec_parse_castling(fields[2]) {
                    Err(e) => Err(e),
                    Ok(cr) => match spec_parse_en_passant(fields[3]) {
                        Err(e) => Err(e),
                        Ok(ep) => match spec_parse_u16(fields[4]) {
                            Err(e) => Err(e),
                            Ok(hm) => match spec_parse_u16(fields[5]) {
                                Err(e) => Err(e),
                                Ok(fm) => Ok(
                                    Position {
                                        piece_placement: pp,
                                        active_color: ac,
                                        castling_rights: cr,
                                        en_passant_target: ep,
                                        half_move_clock: hm,
                                        full_move_number: fm,
                                    },
                                ),
                            },
                        },
                    },
                },
            },
        }
    }
}

} // verus!
