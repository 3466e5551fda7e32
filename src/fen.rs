//! FEN text: field splitting, piece placement, and decimal numbers.
use vstd::prelude::*;
use vstd::string::*;

use crate::constants::{BISHOP_ID, KING_ID, KNIGHT_ID, PAWN_ID, QUEEN_ID, ROOK_ID};

verus! {

/// Why a FEN string was refused.
#[derive(Clone, Copy, PartialEq, Eq, Structural, Debug)]
pub enum FenError {
    /// The separator is empty.
    EmptySeparator,
    /// The number of fields is not six.
    FieldCount,
    /// The piece placement has a bad character, a bad digit run, or not eight
    /// ranks of eight squares.
    Placement,
    /// The side to move is neither "w" nor "b".
    Side,
    /// The castling field is neither "-" nor letters of "KQkq".
    Castling,
    /// The en-passant field is neither "-" nor a square.
    EnPassant,
    /// A move counter is not a decimal number that fits 32 bits.
    Counter,
}

/// Whether `sep` occurs in `s` at position `i`.
pub open spec fn occurs_at(s: Seq<char>, sep: Seq<char>, i: int) -> bool {
    0 <= i && i + sep.len() <= s.len() && s.subrange(i, i + sep.len()) == sep
}

/// The fields of `s` between the occurrences of `sep`, scanning from `i`
/// with the current field starting at `start`; occurrences are taken left
/// to right without overlap.
pub open spec fn split_from(s: Seq<char>, sep: Seq<char>, start: int, i: int) -> Seq<Seq<char>>
    decreases s.len() - i,
{
    if sep.len() == 0 || i < start || start < 0 || i + sep.len() > s.len() {
        seq![s.subrange(start, s.len() as int)]
    } else if occurs_at(s, sep, i) {
        seq![s.subrange(start, i)] + split_from(s, sep, i + sep.len(), i + sep.len())
    } else {
        split_from(s, sep, start, i + 1)
    }
}

/// The fields of `s` separated by `sep`.
pub open spec fn split_spec(s: Seq<char>, sep: Seq<char>) -> Seq<Seq<char>> {
    split_from(s, sep, 0, 0)
}

/// The characters of `s`.
pub fn str_chars(s: &str) -> (r: Vec<char>)
    ensures
        r@ == s@,
{
    let n = s.unicode_len();
    let mut r: Vec<char> = Vec::new();
    let mut i: usize = 0;
    while i < n
        invariant
            n == s@.len(),
            i <= n,
            r@ == s@.subrange(0, i as int),
        decreases n - i,
    {
        r.push(s.get_char(i));
        i = i + 1;
        assert(r@ =~= s@.subrange(0, i as int));
    }
    assert(r@ =~= s@);
    r
}

fn matches_at(s: &Vec<char>, sep: &Vec<char>, i: usize) -> (r: bool)
    requires
        i + sep.len() <= s.len(),
    ensures
        r == occurs_at(s@, sep@, i as int),
{
    let mut k: usize = 0;
    while k < sep.len()
        invariant
            i + sep.len() <= s.len(),
            k <= sep.len(),
            forall|j: int| 0 <= j < k ==> s@[i + j] == sep@[j],
        decreases sep.len() - k,
    {
        if s[i + k] != sep[k] {
            assert(s@.subrange(i as int, i + sep.len())[k as int] != sep@[k as int]);
            return false;
        }
        k = k + 1;
    }
    assert(s@.subrange(i as int, i + sep.len()) =~= sep@);
    true
}

fn slice_chars(s: &Vec<char>, start: usize, end: usize) -> (r: Vec<char>)
    requires
        start <= end <= s.len(),
    ensures
        r@ == s@.subrange(start as int, end as int),
{
    let mut r: Vec<char> = Vec::new();
    let mut k: usize = start;
    while k < end
        invariant
            start <= k <= end <= s.len(),
            r@ == s@.subrange(start as int, k as int),
        decreases end - k,
    {
        r.push(s[k]);
        k = k + 1;
        assert(r@ =~= s@.subrange(start as int, k as int));
    }
    r
}

/// The character sequences held by a vector of fields.
pub open spec fn fields_view(v: Seq<Vec<char>>) -> Seq<Seq<char>> {
    Seq::new(v.len(), |i: int| v[i]@)
}

/// Splits `s` at each occurrence of the non-empty `sep`.
pub fn split_fields(s: &Vec<char>, sep: &Vec<char>) -> (r: Vec<Vec<char>>)
    requires
        sep.len() > 0,
    ensures
        fields_view(r@) == split_spec(s@, sep@),
{
    let mut r: Vec<Vec<char>> = Vec::new();
    let mut start: usize = 0;
    let mut i: usize = 0;
    while i < s.len() && sep.len() <= s.len() - i
        invariant
            sep.len() > 0,
            start <= i,
            i <= s.len(),
            fields_view(r@) + split_from(s@, sep@, start as int, i as int) == split_spec(s@, sep@),
        decreases s.len() - i,
    {
        if matches_at(s, sep, i) {
            let field = slice_chars(s, start, i);
            let ghost before = fields_view(r@);
            r.push(field);
            assert(fields_view(r@) =~= before.push(field@));
            assert(fields_view(r@) + split_from(s@, sep@, (i + sep.len()) as int, (i + sep.len()) as int)
                =~= before + split_from(s@, sep@, start as int, i as int));
            i = i + sep.len();
            start = i;
        } else {
            i = i + 1;
        }
    }
    let field = slice_chars(s, start, s.len());
    let ghost before = fields_view(r@);
    r.push(field);
    assert(fields_view(r@) =~= before.push(field@));
    assert(split_from(s@, sep@, start as int, i as int) == seq![s@.subrange(start as int, s.len() as int)]);
    assert(fields_view(r@) =~= before + split_from(s@, sep@, start as int, i as int));
    r
}

/// The mailbox code of a FEN piece letter: `color << 3 | piece`, white for
/// upper case; 0 for any other character.
pub open spec fn piece_code(c: char) -> u8 {
    if c == 'p' {
        PAWN_ID
    } else if c == 'n' {
        KNIGHT_ID
    } else if c == 'b' {
        BISHOP_ID
    } else if c == 'r' {
        ROOK_ID
    } else if c == 'q' {
        QUEEN_ID
    } else if c == 'k' {
        KING_ID
    } else if c == 'P' {
        (8 + PAWN_ID) as u8
    } else if c == 'N' {
        (8 + KNIGHT_ID) as u8
    } else if c == 'B' {
        (8 + BISHOP_ID) as u8
    } else if c == 'R' {
        (8 + ROOK_ID) as u8
    } else if c == 'Q' {
        (8 + QUEEN_ID) as u8
    } else if c == 'K' {
        (8 + KING_ID) as u8
    } else {
        0
    }
}

pub fn piece_code_of(c: char) -> (r: u8)
    ensures
        r == piece_code(c),
{
    match c {
        'p' => PAWN_ID,
        'n' => KNIGHT_ID,
        'b' => BISHOP_ID,
        'r' => ROOK_ID,
        'q' => QUEEN_ID,
        'k' => KING_ID,
        'P' => 8 + PAWN_ID,
        'N' => 8 + KNIGHT_ID,
        'B' => 8 + BISHOP_ID,
        'R' => 8 + ROOK_ID,
        'Q' => 8 + QUEEN_ID,
        'K' => 8 + KING_ID,
        _ => 0,
    }
}

/// The board described by a piece placement read from position `i`, at
/// (row, col), with `acc` holding what was read so far; `None` when the
/// placement is malformed. Ranks are separated by '/', each holds exactly
/// eight squares, and digits 1-8 stand for runs of empty squares.
pub open spec fn place_from(s: Seq<char>, i: int, row: int, col: int, acc: Seq<u8>) -> Option<
    Seq<u8>,
>
    decreases s.len() - i,
{
    if i < 0 || i >= s.len() {
        if row == 7 && col == 8 {
            Some(acc)
        } else {
            None
        }
    } else {
        let c = s[i];
        if c == '/' {
            if col == 8 && row < 7 {
                place_from(s, i + 1, row + 1, 0, acc)
            } else {
                None
            }
        } else if '1' <= c <= '8' {
            let d = c as int - '0' as int;
            if col + d <= 8 {
                place_from(s, i + 1, row, col + d, acc)
            } else {
                None
            }
        } else if piece_code(c) != 0 {
            if 0 <= col < 8 && 0 <= row < 8 {
                place_from(s, i + 1, row, col + 1, acc.update(row * 8 + col, piece_code(c)))
            } else {
                None
            }
        } else {
            None
        }
    }
}

/// The 64 mailbox codes that a FEN piece placement describes, square 0 (a8)
/// first.
pub open spec fn placement_spec(s: Seq<char>) -> Option<Seq<u8>> {
    place_from(s, 0, 0, 0, Seq::new(64, |i: int| 0u8))
}

/// Reads a FEN piece placement into 64 mailbox codes.
pub fn parse_placement(s: &Vec<char>) -> (r: Option<[u8; 64]>)
    ensures
        r matches Some(b) ==> placement_spec(s@) == Some(b@),
        r is None <==> placement_spec(s@) is None,
{
    let mut board: [u8; 64] = [0u8; 64];
    let mut row: usize = 0;
    let mut col: usize = 0;
    let mut i: usize = 0;
    assert(board@ =~= Seq::new(64, |i: int| 0u8));
    while i < s.len()
        invariant
            i <= s.len(),
            row < 8,
            col <= 8,
            place_from(s@, i as int, row as int, col as int, board@) == placement_spec(s@),
        decreases s.len() - i,
    {
        let c = s[i];
        if c == '/' {
            if col == 8 && row < 7 {
                row = row + 1;
                col = 0;
            } else {
                return None;
            }
        } else if '1' <= c && c <= '8' {
            let d = (c as u32 - '0' as u32) as usize;
            if col + d <= 8 {
                col = col + d;
            } else {
                return None;
            }
        } else {
            let code = piece_code_of(c);
            if code != 0 {
                if col < 8 {
                    board[row * 8 + col] = code;
                    col = col + 1;
                } else {
                    return None;
                }
            } else {
                return None;
            }
        }
        i = i + 1;
    }
    if row == 7 && col == 8 {
        Some(board)
    } else {
        None
    }
}

/// The value of a non-empty run of decimal digits, if it is one.
pub open spec fn decimal_value(s: Seq<char>) -> Option<nat>
    decreases s.len(),
{
    if s.len() == 0 {
        None
    } else {
        let c = s.last();
        if !('0' <= c <= '9') {
            None
        } else if s.len() == 1 {
            Some((c as int - '0' as int) as nat)
        } else {
            match decimal_value(s.drop_last()) {
                Some(v) => Some((v * 10 + (c as int - '0' as int)) as nat),
                None => None,
            }
        }
    }
}

proof fn lemma_decimal_extend(s: Seq<char>, n: int)
    requires
        1 <= n <= s.len(),
    ensures
        decimal_value(s.subrange(0, n)) is None ==> decimal_value(s) is None,
        decimal_value(s) matches Some(w) ==> (decimal_value(s.subrange(0, n)) matches Some(u)
            && u <= w),
    decreases s.len(),
{
    if s.len() == n {
        assert(s.subrange(0, n) =~= s);
    } else {
        let t = s.drop_last();
        assert(t.subrange(0, n) =~= s.subrange(0, n));
        lemma_decimal_extend(t, n);
    }
}

/// Reads a decimal number no larger than `max`.
pub fn parse_decimal(s: &Vec<char>, max: u32) -> (r: Option<u32>)
    ensures
        r matches Some(v) ==> decimal_value(s@) == Some(v as nat),
        r is None <==> (decimal_value(s@) matches Some(v) ==> v > max) ,
{
    if s.len() == 0 {
        return None;
    }
    let mut value: u32 = 0;
    let mut i: usize = 0;
    while i < s.len()
        invariant
            0 < s.len(),
            i <= s.len(),
            value <= max,
            i == 0 ==> value == 0,
            i > 0 ==> decimal_value(s@.subrange(0, i as int)) == Some(value as nat),
            forall|j: int| 0 <= j < i ==> '0' <= #[trigger] s@[j] <= '9',
        decreases s.len() - i,
    {
        let c = s[i];
        assert(s@.subrange(0, i + 1).drop_last() =~= s@.subrange(0, i as int));
        assert(s@.subrange(0, i + 1).last() == c);
        if !('0' <= c && c <= '9') {
            proof {
                lemma_decimal_extend(s@, i + 1);
            }
            return None;
        }
        let d = c as u32 - '0' as u32;
        if d > max || value > (max - d) / 10 {
            proof {
                assert(value * 10 + d > max) by (nonlinear_arith)
                    requires
                        d > max || value > (max - d) / 10,
                        d <= 9,
                ;
                lemma_decimal_extend(s@, i + 1);
            }
            return None;
        }
        assert(value * 10 + d <= max) by (nonlinear_arith)
            requires
                d <= max,
                value <= (max - d) / 10,
        ;
        value = value * 10 + d;
        i = i + 1;
    }
    assert(s@.subrange(0, s.len() as int) =~= s@);
    Some(value)
}

} // verus!
