//! Per-piece and per-color bitboards with side to move, castling rights and
//! the en-passant file; FEN in and out, move application, and attack sets.
use vstd::prelude::*;

use crate::chess_move::{
    get_captured_piece_flag, get_castle_flag, get_color_flag, get_en_passant_flag,
    get_piece_flag, get_promotion_flag, square_name, Move,
};
use crate::constants::{
    BISHOP_ID, BLACK_ID, EMPTY_ID, KING_ID, KNIGHT_ID, PAWN_ID, QUEEN_ID, ROOK_ID, WHITE_ID,
};
use crate::magic::Slider;
use crate::mailbox::{abs_diff, castle_rook_squares, en_passant_victim, promoted_piece};
use crate::move_generator::{
    generate_king_moves, generate_knight_moves, generate_pawn_attacks, generate_sliding_moves,
    king_spec, knight_spec, pawn_attack_spec, slider_union, AttackTables,
};
use crate::fen::{
    parse_placement, piece_code, place_from, placement_spec, split_fields, split_spec, str_chars,
    FenError,
};
use crate::mailbox::promotion_of;
use crate::utility::{
    fill_between_indices, has_sq, index_to_square, lemma_clear_square, lemma_set_square,
    push_char, sq, square_spec, square_to_string,
};

verus! {

/// Per-piece and per-color bitboards, the en-passant file mask, and the
/// flags byte: bit 0 black queen-side castling, bit 1 black king-side,
/// bit 2 white queen-side, bit 3 white king-side, bit 4 side to move
/// (1 for white).
#[derive(Clone, Copy, Debug)]
pub struct Bitboard {
    pub white_board: u64,
    pub black_board: u64,
    pub pawn_board: u64,
    pub knight_board: u64,
    pub bishop_board: u64,
    pub rook_board: u64,
    pub queen_board: u64,
    pub king_board: u64,
    pub en_passant: u8,
    pub flags: u8,
}

/// The four position fields of FEN, held inline in a `smallvec::SmallVec`.
#[verifier::external_body]
pub struct FenFields {
    fields: smallvec::SmallVec<[String; 4]>,
}

/// The text of each field held in a list of FEN fields, in order.
pub uninterp spec fn fen_fields_of(v: FenFields) -> Seq<Seq<char>>;

/// Relies on `smallvec::SmallVec::new`: an empty list.
#[verifier::external_body]
fn fields_new() -> (r: FenFields)
    ensures
        fen_fields_of(r) == Seq::<Seq<char>>::empty(),
{
    FenFields { fields: smallvec::SmallVec::new() }
}

/// Relies on `smallvec::SmallVec::push`: appends one element at the end.
#[verifier::external_body]
fn fields_push(v: &mut FenFields, s: String)
    ensures
        fen_fields_of(*final(v)) == fen_fields_of(*old(v)).push(s@),
{
    v.fields.push(s)
}

/// Relies on indexing a `smallvec::SmallVec` (through its slice): the
/// element at position `i`.
#[verifier::external_body]
pub fn fen_field(v: &FenFields, i: usize) -> (r: &String)
    requires
        i < fen_fields_of(*v).len(),
    ensures
        r@ == fen_fields_of(*v)[i as int],
{
    &v.fields[i]
}

pub const TURN_F_INDEX: u8 = 4;
pub const WKCASTLE_F_INDEX: u8 = 3;
pub const WQCASTLE_F_INDEX: u8 = 2;
pub const BKCASTLE_F_INDEX: u8 = 1;
pub const BQCASTLE_F_INDEX: u8 = 0;

/// The board of piece kind `p` (0 for no kind).
pub open spec fn piece_board(bb: Bitboard, p: u8) -> u64 {
    if p == PAWN_ID {
        bb.pawn_board
    } else if p == KNIGHT_ID {
        bb.knight_board
    } else if p == BISHOP_ID {
        bb.bishop_board
    } else if p == ROOK_ID {
        bb.rook_board
    } else if p == QUEEN_ID {
        bb.queen_board
    } else if p == KING_ID {
        bb.king_board
    } else {
        0
    }
}

/// The board of color `c` (0 for no color).
pub open spec fn color_board(bb: Bitboard, c: u8) -> u64 {
    if c == WHITE_ID {
        bb.white_board
    } else if c == BLACK_ID {
        bb.black_board
    } else {
        0
    }
}

pub open spec fn occupancy(bb: Bitboard) -> u64 {
    bb.white_board | bb.black_board
}

/// The side to move: 1 for white, 0 for black.
pub open spec fn turn(bb: Bitboard) -> u8 {
    ((bb.flags >> 4u8) & 1u8) as u8
}

pub open spec fn opposite(c: u8) -> u8 {
    if c == WHITE_ID {
        BLACK_ID
    } else {
        WHITE_ID
    }
}

pub open spec fn with_piece_board(bb: Bitboard, p: u8, v: u64) -> Bitboard {
    if p == PAWN_ID {
        Bitboard { pawn_board: v, ..bb }
    } else if p == KNIGHT_ID {
        Bitboard { knight_board: v, ..bb }
    } else if p == BISHOP_ID {
        Bitboard { bishop_board: v, ..bb }
    } else if p == ROOK_ID {
        Bitboard { rook_board: v, ..bb }
    } else if p == QUEEN_ID {
        Bitboard { queen_board: v, ..bb }
    } else if p == KING_ID {
        Bitboard { king_board: v, ..bb }
    } else {
        bb
    }
}

pub open spec fn with_color_board(bb: Bitboard, c: u8, v: u64) -> Bitboard {
    if c == WHITE_ID {
        Bitboard { white_board: v, ..bb }
    } else if c == BLACK_ID {
        Bitboard { black_board: v, ..bb }
    } else {
        bb
    }
}

/// `bb` with square `i` taken out of the boards of piece `p` and color `c`.
pub open spec fn remove_spec(bb: Bitboard, p: u8, c: u8, i: int) -> Bitboard {
    let b1 = with_piece_board(bb, p, piece_board(bb, p) & !sq(i));
    with_color_board(b1, c, color_board(b1, c) & !sq(i))
}

/// `bb` with square `i` put into the boards of piece `p` and color `c`.
pub open spec fn add_spec(bb: Bitboard, p: u8, c: u8, i: int) -> Bitboard {
    let b1 = with_piece_board(bb, p, piece_board(bb, p) | sq(i));
    with_color_board(b1, c, color_board(b1, c) | sq(i))
}

/// The pieces after a move described by `flags` (see `pack_flags`).
pub open spec fn placement_after(bb: Bitboard, m: Move, flags: u16) -> Bitboard {
    let piece = (flags & 7u16) as u8;
    let color = ((flags >> 3u16) & 1u16) as u8;
    let captured = ((flags >> 4u16) & 7u16) as u8;
    let s = m.start_index as int;
    let t = m.end_index as int;
    if flags & 256u16 != 0 {
        let b1 = remove_spec(bb, PAWN_ID, opposite(color), en_passant_victim(s, t));
        let b2 = add_spec(
            b1,
            if flags & 512u16 != 0 {
                promoted_piece(m)
            } else {
                PAWN_ID
            },
            color,
            t,
        );
        remove_spec(b2, PAWN_ID, color, s)
    } else if flags & 128u16 != 0 {
        let (rook_from, rook_to) = castle_rook_squares(s, t);
        let b1 = remove_spec(bb, KING_ID, color, s);
        let b2 = add_spec(b1, KING_ID, color, t);
        let b3 = remove_spec(b2, ROOK_ID, color, rook_from);
        add_spec(b3, ROOK_ID, color, rook_to)
    } else {
        let b1 = remove_spec(bb, piece, color, s);
        let b2 = if captured != EMPTY_ID {
            remove_spec(b1, captured, opposite(color), t)
        } else {
            b1
        };
        add_spec(
            b2,
            if flags & 512u16 != 0 {
                promoted_piece(m)
            } else {
                piece
            },
            color,
            t,
        )
    }
}

/// The en-passant file mask after a move: the file of a pawn that just
/// advanced two ranks next to an opposing pawn, 0 otherwise.
pub open spec fn en_passant_after(placed: Bitboard, m: Move, flags: u16) -> u8 {
    let piece = (flags & 7u16) as u8;
    let color = ((flags >> 3u16) & 1u16) as u8;
    let s = m.start_index as int;
    let t = m.end_index as int;
    let enemies = placed.pawn_board & color_board(placed, opposite(color));
    if piece == PAWN_ID && abs_diff(s / 8, t / 8) == 2 && ((t % 8 > 0 && has_sq(enemies, t - 1)) || (
    t % 8 < 7 && has_sq(enemies, t + 1))) {
        (1u8 << ((t % 8) as u8)) as u8
    } else {
        0
    }
}

/// The castling bit lost when a move starts or ends on square `i`.
pub open spec fn corner_right(i: int) -> u8 {
    if i == 63 {
        8
    } else if i == 56 {
        4
    } else if i == 7 {
        2
    } else if i == 0 {
        1
    } else {
        0
    }
}

/// The flags byte after a move: a king move drops both of its side's
/// castling rights, a move from or to a rook's home corner drops that
/// corner's right, and the side to move changes.
pub open spec fn flags_after(old_flags: u8, m: Move, flags: u16) -> u8 {
    let piece = (flags & 7u16) as u8;
    let color = ((flags >> 3u16) & 1u16) as u8;
    let king_rights: u8 = if piece == KING_ID {
        if color == WHITE_ID {
            12
        } else {
            3
        }
    } else {
        0
    };
    let clear = king_rights | corner_right(m.start_index as int) | corner_right(m.end_index as int);
    ((old_flags & !clear) ^ 16u8) as u8
}

/// The bitboards after a move described by `flags`.
pub open spec fn bitboard_after(bb: Bitboard, m: Move, flags: u16) -> Bitboard {
    let placed = placement_after(bb, m, flags);
    Bitboard {
        en_passant: en_passant_after(placed, m, flags),
        flags: flags_after(bb.flags, m, flags),
        ..placed
    }
}

/// Squares attacked by the pieces of color `c`.
pub open spec fn attacked_spec(bb: Bitboard, c: u8) -> u64 {
    let own = color_board(bb, c);
    let occ = occupancy(bb);
    knight_spec(bb.knight_board & own) | king_spec(bb.king_board & own) | pawn_attack_spec(
        bb.pawn_board & own,
        c,
    ) | slider_union(Slider::Rook, (bb.rook_board | bb.queen_board) & own, occ, 64)
        | slider_union(Slider::Bishop, (bb.bishop_board | bb.queen_board) & own, occ, 64)
}

/// Whether a king of color `c` stands on a square the other side attacks.
pub open spec fn in_check_spec(bb: Bitboard, c: u8) -> bool {
    (bb.king_board & color_board(bb, c)) & attacked_spec(bb, opposite(c)) != 0
}

/// Square `j` of the bitboards holds what mailbox code `e` describes.
pub open spec fn square_agrees(bb: Bitboard, e: u8, j: int) -> bool {
    &&& (has_sq(bb.pawn_board, j) <==> (e != 0 && e % 8 == PAWN_ID))
    &&& (has_sq(bb.knight_board, j) <==> (e != 0 && e % 8 == KNIGHT_ID))
    &&& (has_sq(bb.bishop_board, j) <==> (e != 0 && e % 8 == BISHOP_ID))
    &&& (has_sq(bb.rook_board, j) <==> (e != 0 && e % 8 == ROOK_ID))
    &&& (has_sq(bb.queen_board, j) <==> (e != 0 && e % 8 == QUEEN_ID))
    &&& (has_sq(bb.king_board, j) <==> (e != 0 && e % 8 == KING_ID))
    &&& (has_sq(bb.white_board, j) <==> (e != 0 && e / 8 == WHITE_ID))
    &&& (has_sq(bb.black_board, j) <==> (e != 0 && e / 8 == BLACK_ID))
}

/// The bitboards agree with 64 mailbox codes.
pub open spec fn agrees(bb: Bitboard, codes: Seq<u8>) -> bool {
    &&& codes.len() == 64
    &&& forall|j: int| 0 <= j < 64 ==> #[trigger] square_agrees(bb, codes[j], j)
}

/// The FEN letter of piece kind `p`, upper case for white.
pub open spec fn piece_letter(p: u8, white: bool) -> char {
    if p == PAWN_ID {
        if white { 'P' } else { 'p' }
    } else if p == KNIGHT_ID {
        if white { 'N' } else { 'n' }
    } else if p == BISHOP_ID {
        if white { 'B' } else { 'b' }
    } else if p == ROOK_ID {
        if white { 'R' } else { 'r' }
    } else if p == QUEEN_ID {
        if white { 'Q' } else { 'q' }
    } else {
        if white { 'K' } else { 'k' }
    }
}

/// The kind of piece on square `i`, pawn first, if any.
pub open spec fn kind_at(bb: Bitboard, i: int) -> u8 {
    if has_sq(bb.pawn_board, i) {
        PAWN_ID
    } else if has_sq(bb.knight_board, i) {
        KNIGHT_ID
    } else if has_sq(bb.bishop_board, i) {
        BISHOP_ID
    } else if has_sq(bb.rook_board, i) {
        ROOK_ID
    } else if has_sq(bb.queen_board, i) {
        QUEEN_ID
    } else if has_sq(bb.king_board, i) {
        KING_ID
    } else {
        EMPTY_ID
    }
}

/// The letter FEN uses for what stands on square `i`, if anything.
pub open spec fn letter_spec(bb: Bitboard, i: int) -> Option<char> {
    if kind_at(bb, i) == EMPTY_ID {
        None
    } else {
        Some(piece_letter(kind_at(bb, i), has_sq(bb.white_board, i)))
    }
}

pub open spec fn digit_char(n: int) -> char {
    (n + '0' as int) as char
}

pub open spec fn blank_run(blank: int) -> Seq<char> {
    if blank > 0 {
        seq![digit_char(blank)]
    } else {
        Seq::empty()
    }
}

/// The FEN piece placement from square `i` on, with `blank` empty squares
/// pending on the current rank.
pub open spec fn placement_fen_from(bb: Bitboard, i: int, blank: int) -> Seq<char>
    decreases 64 - i,
{
    if i >= 64 {
        blank_run(blank)
    } else {
        let new_rank = i % 8 == 0 && i != 0;
        let prefix = if new_rank {
            blank_run(blank).push('/')
        } else {
            Seq::empty()
        };
        let pending = if new_rank {
            0
        } else {
            blank
        };
        match letter_spec(bb, i) {
            Some(c) => prefix + blank_run(pending).push(c) + placement_fen_from(bb, i + 1, 0),
            None => prefix + placement_fen_from(bb, i + 1, pending + 1),
        }
    }
}

pub open spec fn turn_fen(bb: Bitboard) -> Seq<char> {
    if turn(bb) == WHITE_ID {
        seq!['w']
    } else {
        seq!['b']
    }
}

pub open spec fn castle_fen(flags: u8) -> Seq<char> {
    let s = (if (flags >> 3u8) & 1u8 == 1u8 {
        seq!['K']
    } else {
        Seq::empty()
    }) + (if (flags >> 2u8) & 1u8 == 1u8 {
        seq!['Q']
    } else {
        Seq::empty()
    }) + (if (flags >> 1u8) & 1u8 == 1u8 {
        seq!['k']
    } else {
        Seq::empty()
    }) + (if flags & 1u8 == 1u8 {
        seq!['q']
    } else {
        Seq::empty()
    });
    if s.len() == 0 {
        seq!['-']
    } else {
        s
    }
}

pub open spec fn en_passant_fen(bb: Bitboard) -> Seq<char> {
    if bb.en_passant == 0 {
        seq!['-']
    } else {
        let row: int = if turn(bb) == WHITE_ID {
            2
        } else {
            5
        };
        square_name(row * 8 + vstd::std_specs::bits::u8_trailing_zeros(bb.en_passant) as int)
    }
}

/// The side-to-move field of FEN, as the color that moves.
pub open spec fn side_spec(f: Seq<char>) -> Option<u8> {
    if f == seq!['w'] {
        Some(WHITE_ID)
    } else if f == seq!['b'] {
        Some(BLACK_ID)
    } else {
        None
    }
}

pub open spec fn castle_bit(c: char) -> u8 {
    if c == 'K' {
        8
    } else if c == 'Q' {
        4
    } else if c == 'k' {
        2
    } else if c == 'q' {
        1
    } else {
        0
    }
}

pub open spec fn castle_bits(f: Seq<char>, n: int) -> u8
    decreases n,
{
    if n <= 0 {
        0
    } else {
        castle_bits(f, n - 1) | castle_bit(f[n - 1])
    }
}

/// The castling field of FEN: "-", or letters among "KQkq".
pub open spec fn castling_spec(f: Seq<char>) -> Option<u8> {
    if f == seq!['-'] {
        Some(0)
    } else if f.len() > 0 && forall|k: int| 0 <= k < f.len() ==> castle_bit(#[trigger] f[k]) != 0 {
        Some(castle_bits(f, f.len() as int))
    } else {
        None
    }
}

/// The en-passant field of FEN, as a file mask: "-", or a square.
pub open spec fn en_passant_spec(f: Seq<char>) -> Option<u8> {
    if f == seq!['-'] {
        Some(0)
    } else {
        match square_spec(f) {
            Some((_row, col)) => Some((1u8 << (col as u8)) as u8),
            None => None,
        }
    }
}

fn is_single(f: &Vec<char>, c: char) -> (r: bool)
    ensures
        r == (f@ == seq![c]),
{
    if f.len() == 1 && f[0] == c {
        assert(f@ =~= seq![c]);
        true
    } else {
        false
    }
}

fn square_of_chars(f: &Vec<char>) -> (r: Option<(u32, u32)>)
    ensures
        r == square_spec(f@),
{
    if f.len() != 2 {
        return None;
    }
    let first_char = f[0];
    let second_char = f[1];
    if 'a' <= first_char && first_char <= 'h' && '1' <= second_char && second_char <= '8' {
        Some((8 - (second_char as u32 - '0' as u32), first_char as u32 - 'a' as u32))
    } else {
        None
    }
}

pub(crate) fn parse_side(f: &Vec<char>) -> (r: Option<u8>)
    ensures
        r == side_spec(f@),
{
    if is_single(f, 'w') {
        Some(WHITE_ID)
    } else if is_single(f, 'b') {
        Some(BLACK_ID)
    } else {
        None
    }
}

pub(crate) fn parse_castling(f: &Vec<char>) -> (r: Option<u8>)
    ensures
        r == castling_spec(f@),
{
    if is_single(f, '-') {
        return Some(0);
    }
    if f.len() == 0 {
        return None;
    }
    let mut bits: u8 = 0;
    let mut k: usize = 0;
    while k < f.len()
        invariant
            f@ != seq!['-'],
            f.len() > 0,
            k <= f.len(),
            bits == castle_bits(f@, k as int),
            forall|j: int| 0 <= j < k ==> castle_bit(#[trigger] f@[j]) != 0,
        decreases f.len() - k,
    {
        let c = f[k];
        let b: u8 = if c == 'K' {
            8
        } else if c == 'Q' {
            4
        } else if c == 'k' {
            2
        } else if c == 'q' {
            1
        } else {
            0
        };
        if b == 0 {
            assert(castle_bit(f@[k as int]) == 0);
            return None;
        }
        bits = bits | b;
        k = k + 1;
    }
    Some(bits)
}

pub(crate) fn parse_en_passant(f: &Vec<char>) -> (r: Option<u8>)
    ensures
        r == en_passant_spec(f@),
{
    if is_single(f, '-') {
        return Some(0);
    }
    match square_of_chars(f) {
        Some((_row, col)) => Some(1u8 << (col as u8)),
        None => None,
    }
}

impl Bitboard {
    fn remove_piece_from_board(&mut self, piece_id: u8, color_id: u8, index: u32)
        requires
            index < 64,
        ensures
            *final(self) == remove_spec(*old(self), piece_id, color_id, index as int),
    {
        let mask = !(1u64 << (index as u64));
        if piece_id == PAWN_ID {
            self.pawn_board = self.pawn_board & mask;
        } else if piece_id == KNIGHT_ID {
            self.knight_board = self.knight_board & mask;
        } else if piece_id == BISHOP_ID {
            self.bishop_board = self.bishop_board & mask;
        } else if piece_id == ROOK_ID {
            self.rook_board = self.rook_board & mask;
        } else if piece_id == QUEEN_ID {
            self.queen_board = self.queen_board & mask;
        } else if piece_id == KING_ID {
            self.king_board = self.king_board & mask;
        }
        if color_id == BLACK_ID {
            self.black_board = self.black_board & mask;
        } else if color_id == WHITE_ID {
            self.white_board = self.white_board & mask;
        }
    }

    fn add_piece_to_board(&mut self, piece_id: u8, color_id: u8, index: u32)
        requires
            index < 64,
        ensures
            *final(self) == add_spec(*old(self), piece_id, color_id, index as int),
    {
        let bit = 1u64 << (index as u64);
        if piece_id == PAWN_ID {
            self.pawn_board = self.pawn_board | bit;
        } else if piece_id == KNIGHT_ID {
            self.knight_board = self.knight_board | bit;
        } else if piece_id == BISHOP_ID {
            self.bishop_board = self.bishop_board | bit;
        } else if piece_id == ROOK_ID {
            self.rook_board = self.rook_board | bit;
        } else if piece_id == QUEEN_ID {
            self.queen_board = self.queen_board | bit;
        } else if piece_id == KING_ID {
            self.king_board = self.king_board | bit;
        }
        if color_id == BLACK_ID {
            self.black_board = self.black_board | bit;
        } else if color_id == WHITE_ID {
            self.white_board = self.white_board | bit;
        }
    }
}

impl Bitboard {
    /// The bitboards of 64 mailbox codes, with no castling right, no
    /// en-passant file, and black to move.
    pub fn from_codes(codes: &[u8; 64]) -> (r: Bitboard)
        ensures
            agrees(r, codes@),
            r.en_passant == 0,
            r.flags == 0,
    {
        let mut bb = Bitboard {
            white_board: 0,
            black_board: 0,
            pawn_board: 0,
            knight_board: 0,
            bishop_board: 0,
            rook_board: 0,
            queen_board: 0,
            king_board: 0,
            en_passant: 0,
            flags: 0,
        };
        proof {
            assert forall|j: int| 0 <= j < 64 implies #[trigger] square_agrees(bb, 0, j) by {
                lemma_empty_square(j);
            }
        }
        let mut i: u32 = 0;
        while i < 64
            invariant
                i <= 64,
                bb.en_passant == 0,
                bb.flags == 0,
                forall|j: int| 0 <= j < i ==> #[trigger] square_agrees(bb, codes@[j], j),
                forall|j: int| i <= j < 64 ==> #[trigger] square_agrees(bb, 0, j),
            decreases 64 - i,
        {
            let code = codes[i as usize];
            if code != 0 {
                let ghost before = bb;
                bb.add_piece_to_board(code % 8, code / 8, i);
                proof {
                    lemma_set_square(before.pawn_board, i as int);
                    lemma_set_square(before.knight_board, i as int);
                    lemma_set_square(before.bishop_board, i as int);
                    lemma_set_square(before.rook_board, i as int);
                    lemma_set_square(before.queen_board, i as int);
                    lemma_set_square(before.king_board, i as int);
                    lemma_set_square(before.white_board, i as int);
                    lemma_set_square(before.black_board, i as int);
                    assert(square_agrees(before, 0, i as int));
                    assert forall|j: int| 0 <= j < i + 1 implies #[trigger] square_agrees(bb, codes@[j], j) by {
                        if j < i {
                            assert(square_agrees(before, codes@[j], j));
                        }
                    }
                    assert forall|j: int| i + 1 <= j < 64 implies #[trigger] square_agrees(bb, 0, j) by {
                        assert(square_agrees(before, 0, j));
                    }
                }
            }
            i = i + 1;
        }
        assert(agrees(bb, codes@));
        bb
    }

    /// The board of piece kind `kind`.
    pub fn get_piece_board(&self, kind: u8) -> (r: u64)
        ensures
            r == piece_board(*self, kind),
    {
        if kind == PAWN_ID {
            self.pawn_board
        } else if kind == KNIGHT_ID {
            self.knight_board
        } else if kind == BISHOP_ID {
            self.bishop_board
        } else if kind == ROOK_ID {
            self.rook_board
        } else if kind == QUEEN_ID {
            self.queen_board
        } else if kind == KING_ID {
            self.king_board
        } else {
            0
        }
    }

    /// The board of color `color`.
    pub fn get_color_board(&self, color: u8) -> (r: u64)
        ensures
            r == color_board(*self, color),
    {
        if color == WHITE_ID {
            self.white_board
        } else if color == BLACK_ID {
            self.black_board
        } else {
            0
        }
    }

    /// The side to move: 1 for white, 0 for black.
    pub fn current_turn(&self) -> (r: u8)
        ensures
            r == turn(*self),
            r < 2,
    {
        let f = self.flags;
        assert((f >> 4u8) & 1u8 < 2) by (bit_vector);
        (f >> TURN_F_INDEX) & 1
    }

    fn letter_at(&self, i: u32) -> (r: Option<char>)
        requires
            i < 64,
        ensures
            r == letter_spec(*self, i as int),
    {
        let white = (self.white_board >> i) & 1 == 1;
        if (self.pawn_board >> i) & 1 == 1 {
            Some(if white { 'P' } else { 'p' })
        } else if (self.knight_board >> i) & 1 == 1 {
            Some(if white { 'N' } else { 'n' })
        } else if (self.bishop_board >> i) & 1 == 1 {
            Some(if white { 'B' } else { 'b' })
        } else if (self.rook_board >> i) & 1 == 1 {
            Some(if white { 'R' } else { 'r' })
        } else if (self.queen_board >> i) & 1 == 1 {
            Some(if white { 'Q' } else { 'q' })
        } else if (self.king_board >> i) & 1 == 1 {
            Some(if white { 'K' } else { 'k' })
        } else {
            None
        }
    }

    /// The piece placement field of FEN.
    pub fn board_to_fen(&self) -> (r: String)
        ensures
            r@ == placement_fen_from(*self, 0, 0),
    {
        let mut s = String::new();
        let mut blank: u32 = 0;
        let mut i: u32 = 0;
        while i < 64
            invariant
                i <= 64,
                blank <= 8,
                i % 8 != 0 ==> blank <= i % 8,
                i == 0 ==> blank == 0,
                s@ + placement_fen_from(*self, i as int, blank as int) == placement_fen_from(*self, 0, 0),
            decreases 64 - i,
        {
            let ghost s0 = s@;
            let ghost b0 = blank as int;
            let new_rank = i % 8 == 0 && i != 0;
            let mut pending = blank;
            if new_rank {
                if blank != 0 {
                    push_char(&mut s, (blank as u8 + 48u8) as char);
                }
                push_char(&mut s, '/');
                pending = 0;
            }
            let ghost prefix = if new_rank {
                blank_run(b0).push('/')
            } else {
                Seq::<char>::empty()
            };
            assert(s@ =~= s0 + prefix);
            match self.letter_at(i) {
                Some(c) => {
                    if pending != 0 {
                        push_char(&mut s, (pending as u8 + 48u8) as char);
                    }
                    push_char(&mut s, c);
                    blank = 0;
                    assert(s@ =~= s0 + prefix + blank_run(pending as int).push(c));
                    assert(s0 + placement_fen_from(*self, i as int, b0) =~= s@
                        + placement_fen_from(*self, i as int + 1, 0));
                },
                None => {
                    assert(pending <= i % 8);
                    assert((i + 1) % 8 == 0 || (i + 1) % 8 == i % 8 + 1);
                    blank = pending + 1;
                    assert(s0 + placement_fen_from(*self, i as int, b0) =~= s@
                        + placement_fen_from(*self, i as int + 1, blank as int));
                },
            }
            i = i + 1;
        }
        let ghost s0 = s@;
        if blank != 0 {
            push_char(&mut s, (blank as u8 + 48u8) as char);
        }
        assert(s@ =~= s0 + blank_run(blank as int));
        s
    }
}

proof fn lemma_empty_square(j: int)
    requires
        0 <= j < 64,
    ensures
        !has_sq(0u64, j),
{
    let y = j as u64;
    assert((0u64 >> y) & 1u64 == 0u64) by (bit_vector);
}

/// What the first four fields of a FEN string decode to: mailbox codes,
/// side to move, castling bits and en-passant file mask; or the first error.
pub open spec fn fen_fields_spec(fen: Seq<char>, sep: Seq<char>) -> Result<(Seq<u8>, u8, u8, u8), FenError> {
    if sep.len() == 0 {
        Err(FenError::EmptySeparator)
    } else {
        let f = split_spec(fen, sep);
        if f.len() != 6 {
            Err(FenError::FieldCount)
        } else {
            match placement_spec(f[0]) {
                None => Err(FenError::Placement),
                Some(codes) => match side_spec(f[1]) {
                    None => Err(FenError::Side),
                    Some(side) => match castling_spec(f[2]) {
                        None => Err(FenError::Castling),
                        Some(castle) => match en_passant_spec(f[3]) {
                            None => Err(FenError::EnPassant),
                            Some(ep) => Ok((codes, side, castle, ep)),
                        },
                    },
                },
            }
        }
    }
}

/// The bitboards hold what decoded FEN fields describe.
pub open spec fn holds_fen(bb: Bitboard, d: (Seq<u8>, u8, u8, u8)) -> bool {
    &&& agrees(bb, d.0)
    &&& bb.flags == d.2 | (d.1 << 4u8)
    &&& bb.en_passant == d.3
}

impl Bitboard {
    /// Reads the placement, side to move, castling rights and en-passant
    /// square of a FEN string whose fields are separated by `separator`.
    pub fn from_fen(fen: &str, separator: &str) -> (r: Result<Bitboard, FenError>)
        ensures
            match fen_fields_spec(fen@, separator@) {
                Err(e) => r == Err::<Bitboard, FenError>(e),
                Ok(d) => r matches Ok(bb) && holds_fen(bb, d),
            },
    {
        let sep = str_chars(separator);
        if sep.len() == 0 {
            return Err(FenError::EmptySeparator);
        }
        let chars = str_chars(fen);
        let fields = split_fields(&chars, &sep);
        if fields.len() != 6 {
            return Err(FenError::FieldCount);
        }
        assert(fields[0]@ == split_spec(fen@, separator@)[0]);
        assert(fields[1]@ == split_spec(fen@, separator@)[1]);
        assert(fields[2]@ == split_spec(fen@, separator@)[2]);
        assert(fields[3]@ == split_spec(fen@, separator@)[3]);
        let codes = match parse_placement(&fields[0]) {
            Some(codes) => codes,
            None => {
                return Err(FenError::Placement);
            },
        };
        let side = match parse_side(&fields[1]) {
            Some(side) => side,
            None => {
                return Err(FenError::Side);
            },
        };
        let castle = match parse_castling(&fields[2]) {
            Some(castle) => castle,
            None => {
                return Err(FenError::Castling);
            },
        };
        let en_passant = match parse_en_passant(&fields[3]) {
            Some(ep) => ep,
            None => {
                return Err(FenError::EnPassant);
            },
        };
        let mut bitboard = Bitboard::from_codes(&codes);
        let ghost placed = bitboard;
        bitboard.flags = castle | (side << TURN_F_INDEX);
        bitboard.en_passant = en_passant;
        assert forall|j: int| 0 <= j < 64 implies #[trigger] square_agrees(bitboard, codes@[j], j) by {
            assert(square_agrees(placed, codes@[j], j));
        }
        Ok(bitboard)
    }

    /// The four position fields of FEN: placement, side, castling, en passant.
    pub fn to_fen(&self) -> (r: FenFields)
        ensures
            fen_fields_of(r) == seq![
                placement_fen_from(*self, 0, 0),
                turn_fen(*self),
                castle_fen(self.flags),
                en_passant_fen(*self),
            ],
    {
        let board_field = self.board_to_fen();
        let turn_field = self.turn_to_fen();
        let castle_field = self.castle_to_fen();
        let en_passant_field = self.en_passant_to_fen();
        let mut r = fields_new();
        fields_push(&mut r, board_field);
        fields_push(&mut r, turn_field);
        fields_push(&mut r, castle_field);
        fields_push(&mut r, en_passant_field);
        assert(fen_fields_of(r) =~= seq![
            placement_fen_from(*self, 0, 0),
            turn_fen(*self),
            castle_fen(self.flags),
            en_passant_fen(*self),
        ]);
        r
    }

    pub fn turn_to_fen(&self) -> (r: String)
        ensures
            r@ == turn_fen(*self),
    {
        let mut s = String::new();
        if self.current_turn() == WHITE_ID {
            push_char(&mut s, 'w');
        } else {
            push_char(&mut s, 'b');
        }
        assert(s@ =~= turn_fen(*self));
        s
    }

    pub fn castle_to_fen(&self) -> (r: String)
        ensures
            r@ == castle_fen(self.flags),
    {
        let f = self.flags;
        let mut s = String::new();
        if (f >> 3) & 1 == 1 {
            push_char(&mut s, 'K');
        }
        let ghost s1 = s@;
        if (f >> 2) & 1 == 1 {
            push_char(&mut s, 'Q');
        }
        let ghost s2 = s@;
        if (f >> 1) & 1 == 1 {
            push_char(&mut s, 'k');
        }
        let ghost s3 = s@;
        if f & 1 == 1 {
            push_char(&mut s, 'q');
        }
        let ghost s4 = s@;
        assert(s4 =~= (if (f >> 3u8) & 1u8 == 1u8 {
            seq!['K']
        } else {
            Seq::empty()
        }) + (if (f >> 2u8) & 1u8 == 1u8 {
            seq!['Q']
        } else {
            Seq::empty()
        }) + (if (f >> 1u8) & 1u8 == 1u8 {
            seq!['k']
        } else {
            Seq::empty()
        }) + (if f & 1u8 == 1u8 {
            seq!['q']
        } else {
            Seq::empty()
        }));
        if s.as_str().unicode_len() == 0 {
            push_char(&mut s, '-');
            assert(s@ =~= seq!['-']);
        }
        s
    }

    pub fn en_passant_to_fen(&self) -> (r: String)
        ensures
            r@ == en_passant_fen(*self),
    {
        if self.en_passant == 0 {
            let mut s = String::new();
            push_char(&mut s, '-');
            assert(s@ =~= seq!['-']);
            return s;
        }
        let col = self.en_passant.trailing_zeros();
        proof {
            vstd::std_specs::bits::axiom_u8_trailing_zeros(self.en_passant);
        }
        // White to move means the pawn that can be taken is black's, on rank 6.
        let row: u32 = if self.current_turn() == WHITE_ID {
            2
        } else {
            5
        };
        let r = square_to_string(row, col);
        assert((row * 8 + col) as int % 8 == col as int && (row * 8 + col) as int / 8 == row as int);
        r
    }

    /// Applies a move described by `flags` (see `pack_flags`): captures,
    /// en passant, castling and promotion; then updates the en-passant file,
    /// the castling rights, and the side to move.
    pub fn move_piece(&mut self, move_: &Move, flags: u16)
        requires
            move_.start_index < 64,
            move_.end_index < 64,
        ensures
            *final(self) == bitboard_after(*old(self), *move_, flags),
    {
        let is_enpassant = get_en_passant_flag(flags);
        let is_castle = get_castle_flag(flags);
        let piece_id = get_piece_flag(flags);
        let color_id = get_color_flag(flags);
        let opposite_color = if color_id == WHITE_ID {
            BLACK_ID
        } else {
            WHITE_ID
        };
        let captured_piece_id = get_captured_piece_flag(flags);
        let old_flags = self.flags;
        let s = move_.start_index;
        let t = move_.end_index;
        if is_enpassant {
            let placed = if get_promotion_flag(flags) {
                promotion_of(move_)
            } else {
                PAWN_ID
            };
            self.en_passant_move(move_, color_id, placed);
        } else if is_castle {
            self.castle_move(move_, color_id);
        } else {
            self.remove_piece_from_board(piece_id, color_id, s);
            if captured_piece_id != EMPTY_ID {
                self.remove_piece_from_board(captured_piece_id, opposite_color, t);
            }
            let placed = if get_promotion_flag(flags) {
                promotion_of(move_)
            } else {
                piece_id
            };
            self.add_piece_to_board(placed, color_id, t);
        }
        assert(*self == placement_after(*old(self), *move_, flags));
        self.en_passant = self.next_en_passant(move_, piece_id, opposite_color);
        self.flags = next_flags(old_flags, move_, piece_id, color_id);
    }

    fn next_en_passant(&self, move_: &Move, piece_id: u8, opposite_color: u8) -> (r: u8)
        requires
            move_.start_index < 64,
            move_.end_index < 64,
        ensures
            forall|flags: u16|
                (flags & 7u16) as u8 == piece_id && opposite(((flags >> 3u16) & 1u16) as u8)
                    == opposite_color ==> r == #[trigger] en_passant_after(*self, *move_, flags),
    {
        let s = move_.start_index;
        let t = move_.end_index;
        let enemies = self.pawn_board & self.get_color_board(opposite_color);
        let start_row = s / 8;
        let end_row = t / 8;
        let end_col = t % 8;
        let two_ranks = if start_row >= end_row {
            start_row - end_row == 2
        } else {
            end_row - start_row == 2
        };
        if piece_id == PAWN_ID && two_ranks && ((end_col > 0 && (enemies >> ((t - 1) as u64)) & 1
            == 1) || (end_col < 7 && (enemies >> ((t + 1) as u64)) & 1 == 1)) {
            1u8 << (end_col as u8)
        } else {
            0
        }
    }

    fn en_passant_move(&mut self, move_: &Move, color_id: u8, placed: u8)
        requires
            move_.start_index < 64,
            move_.end_index < 64,
        ensures
            ({
                let s = move_.start_index as int;
                let t = move_.end_index as int;
                let b1 = remove_spec(*old(self), PAWN_ID, opposite(color_id), en_passant_victim(s, t));
                let b2 = add_spec(b1, placed, color_id, t);
                *final(self) == remove_spec(b2, PAWN_ID, color_id, s)
            }),
    {
        let s = move_.start_index;
        let t = move_.end_index;
        let opposite_color = if color_id == WHITE_ID {
            BLACK_ID
        } else {
            WHITE_ID
        };
        // The pawn taken stands on the mover's start rank, on the destination file.
        self.remove_piece_from_board(PAWN_ID, opposite_color, (s / 8) * 8 + t % 8);
        self.add_piece_to_board(placed, color_id, t);
        self.remove_piece_from_board(PAWN_ID, color_id, s);
    }

    fn castle_move(&mut self, move_: &Move, color_id: u8)
        requires
            move_.start_index < 64,
            move_.end_index < 64,
        ensures
            ({
                let (rook_from, rook_to) = castle_rook_squares(
                    move_.start_index as int,
                    move_.end_index as int,
                );
                let b1 = remove_spec(*old(self), KING_ID, color_id, move_.start_index as int);
                let b2 = add_spec(b1, KING_ID, color_id, move_.end_index as int);
                let b3 = remove_spec(b2, ROOK_ID, color_id, rook_from);
                *final(self) == add_spec(b3, ROOK_ID, color_id, rook_to)
            }),
    {
        let (row, _start_col) = index_to_square(move_.start_index);
        let (_end_row, end_col) = index_to_square(move_.end_index);
        let (rook_start_col, rook_end_col) = if end_col == 6 {
            (7u32, 5u32)
        } else {
            (0u32, 3u32)
        };
        self.remove_piece_from_board(KING_ID, color_id, move_.start_index);
        self.add_piece_to_board(KING_ID, color_id, move_.end_index);
        self.remove_piece_from_board(ROOK_ID, color_id, row * 8 + rook_start_col);
        self.add_piece_to_board(ROOK_ID, color_id, row * 8 + rook_end_col);
    }

    /// Squares attacked by the pieces of `color`.
    pub fn attacked_by(&self, tables: &AttackTables, color: u8) -> (r: u64)
        requires
            tables.wf(),
        ensures
            r == attacked_spec(*self, color),
    {
        let own = self.get_color_board(color);
        let occ = self.white_board | self.black_board;
        generate_knight_moves(self.knight_board & own) | generate_king_moves(self.king_board & own)
            | generate_pawn_attacks(self.pawn_board & own, color) | generate_sliding_moves(
            tables,
            (self.rook_board | self.queen_board) & own,
            occ,
            Slider::Rook,
        ) | generate_sliding_moves(
            tables,
            (self.bishop_board | self.queen_board) & own,
            occ,
            Slider::Bishop,
        )
    }

    /// Whether a king of `color` stands on a square the other side attacks.
    pub fn is_in_check(&self, tables: &AttackTables, color: u8) -> (r: bool)
        requires
            tables.wf(),
        ensures
            r == in_check_spec(*self, color),
    {
        let opponent = if color == WHITE_ID {
            BLACK_ID
        } else {
            WHITE_ID
        };
        (self.king_board & self.get_color_board(color)) & self.attacked_by(tables, opponent) != 0
    }

    /// Whether the other side attacks a square from the king's start to its
    /// end, both included.
    pub fn is_castle_in_check(&self, tables: &AttackTables, move_: Move, color: u8) -> (r: bool)
        requires
            tables.wf(),
            move_.start_index < 64,
            move_.end_index < 64,
        ensures
            r == (exists|k: int|
                0 <= k < 64 && ((move_.start_index <= k <= move_.end_index) || (move_.end_index <= k
                    <= move_.start_index)) && #[trigger] has_sq(attacked_spec(*self, opposite(color)), k)),
    {
        let opponent = if color == WHITE_ID {
            BLACK_ID
        } else {
            WHITE_ID
        };
        let path = fill_between_indices(move_.start_index, move_.end_index);
        let attacked = self.attacked_by(tables, opponent);
        let r = path & attacked != 0;
        proof {
            crate::utility::lemma_square_ops(path, attacked);
            crate::utility::lemma_zero_iff_empty(path & attacked);
            if r {
                let j = choose|j: int| 0 <= j < 64 && has_sq(path & attacked, j);
                assert(has_sq(attacked_spec(*self, opposite(color)), j));
            } else {
                assert forall|k: int|
                    0 <= k < 64 && ((move_.start_index <= k <= move_.end_index) || (move_.end_index
                        <= k <= move_.start_index)) implies !#[trigger] has_sq(
                    attacked_spec(*self, opposite(color)),
                    k,
                ) by {
                    assert(!has_sq(path & attacked, k));
                }
            }
        }
        r
    }
}

fn next_flags(old_flags: u8, move_: &Move, piece_id: u8, color_id: u8) -> (r: u8)
    ensures
        forall|flags: u16|
            (flags & 7u16) as u8 == piece_id && ((flags >> 3u16) & 1u16) as u8 == color_id ==> r
                == #[trigger] flags_after(old_flags, *move_, flags),
{
    let king_rights: u8 = if piece_id == KING_ID {
        if color_id == WHITE_ID {
            12
        } else {
            3
        }
    } else {
        0
    };
    let clear = king_rights | corner_of(move_.start_index) | corner_of(move_.end_index);
    (old_flags & !clear) ^ 16
}

fn corner_of(i: u32) -> (r: u8)
    ensures
        r == corner_right(i as int),
{
    if i == 63 {
        8
    } else if i == 56 {
        4
    } else if i == 7 {
        2
    } else if i == 0 {
        1
    } else {
        0
    }
}


/// One step of reading a piece placement: the state after character `c`.
pub open spec fn place_step(c: char, row: int, col: int, acc: Seq<u8>) -> Option<(int, int, Seq<u8>)> {
    if c == '/' {
        if col == 8 && row < 7 {
            Some((row + 1, 0, acc))
        } else {
            None
        }
    } else if '1' <= c <= '8' {
        let d = c as int - '0' as int;
        if col + d <= 8 {
            Some((row, col + d, acc))
        } else {
            None
        }
    } else if piece_code(c) != 0 {
        if 0 <= col < 8 && 0 <= row < 8 {
            Some((row, col + 1, acc.update(row * 8 + col, piece_code(c))))
        } else {
            None
        }
    } else {
        None
    }
}

proof fn lemma_place_shift(x: Seq<char>, k: int, row: int, col: int, acc: Seq<u8>)
    requires
        1 <= k <= x.len(),
    ensures
        place_from(x, k, row, col, acc) == place_from(x.subrange(1, x.len() as int), k - 1, row, col, acc),
    decreases x.len() - k,
{
    let y = x.subrange(1, x.len() as int);
    if k < x.len() {
        assert(x[k] == y[k - 1]);
        match place_step(x[k], row, col, acc) {
            Some((r, c, a)) => {
                lemma_place_shift(x, k + 1, r, c, a);
            },
            None => {},
        }
    }
}

proof fn lemma_place_first(x: Seq<char>, row: int, col: int, acc: Seq<u8>)
    requires
        x.len() > 0,
    ensures
        place_from(x, 0, row, col, acc) == match place_step(x[0], row, col, acc) {
            Some((r, c, a)) => place_from(x.drop_first(), 0, r, c, a),
            None => None,
        },
{
    match place_step(x[0], row, col, acc) {
        Some((r, c, a)) => {
            lemma_place_shift(x, 1, r, c, a);
            assert(x.subrange(1, x.len() as int) =~= x.drop_first());
        },
        None => {},
    }
}

/// Valid mailbox codes: empty, or a piece kind 1-6 of color 0 or 1.
pub open spec fn codes_valid(codes: Seq<u8>) -> bool {
    forall|j: int|
        0 <= j < codes.len() ==> (#[trigger] codes[j] == 0 || (1 <= codes[j] % 8 <= 6 && codes[j] / 8
            <= 1))
}

proof fn lemma_letter_code(bb: Bitboard, e: u8, i: int)
    requires
        square_agrees(bb, e, i),
        e == 0 || (1 <= e % 8 <= 6 && e / 8 <= 1),
    ensures
        letter_spec(bb, i) is None <==> e == 0,
        letter_spec(bb, i) matches Some(ch) ==> piece_code(ch) == e,
{
}

proof fn lemma_placement_from(
    bb: Bitboard,
    codes: Seq<u8>,
    i: int,
    bl: int,
    row: int,
    col: int,
    acc: Seq<u8>,
)
    requires
        agrees(bb, codes),
        codes_valid(codes),
        0 <= i <= 64,
        0 <= bl,
        if i % 8 == 0 && i != 0 {
            row == i / 8 - 1 && col == 8 - bl && bl <= 8
        } else {
            row == i / 8 && col == i % 8 - bl && bl <= i % 8
        },
        forall|j: int| i - bl <= j < i ==> codes[j] == 0,
        acc.len() == 64,
        forall|j: int| 0 <= j < 64 ==> #[trigger] acc[j] == (if j < i { codes[j] } else { 0 }),
    ensures
        place_from(placement_fen_from(bb, i, bl), 0, row, col, acc) == Some(codes),
    decreases 64 - i,
{
    let out = placement_fen_from(bb, i, bl);
    if i >= 64 {
        assert(acc =~= codes);
        if bl > 0 {
            lemma_place_first(out, row, col, acc);
            assert(out.drop_first() =~= Seq::<char>::empty());
        }
    } else {
        assert(square_agrees(bb, codes[i], i));
        assert(codes[i] == 0 || (1 <= codes[i] % 8 <= 6 && codes[i] / 8 <= 1));
        lemma_letter_code(bb, codes[i], i);
        let new_rank = i % 8 == 0 && i != 0;
        let pending = if new_rank {
            0
        } else {
            bl
        };
        let rest_row = i / 8;
        let prefix = if new_rank {
            blank_run(bl).push('/')
        } else {
            Seq::empty()
        };
        // After the prefix the reader stands on (i / 8, i % 8 - pending).
        let tail = out.subrange(prefix.len() as int, out.len() as int);
        if new_rank {
            if bl > 0 {
                lemma_place_first(out, row, col, acc);
                let o1 = out.drop_first();
                lemma_place_first(o1, row, 8, acc);
                assert(o1.drop_first() =~= tail);
            } else {
                lemma_place_first(out, row, col, acc);
                assert(out.drop_first() =~= tail);
            }
        } else {
            assert(out =~= tail);
        }
        assert(place_from(out, 0, row, col, acc) == place_from(tail, 0, rest_row, i % 8 - pending, acc));
        match letter_spec(bb, i) {
            Some(ch) => {
                let acc2 = acc.update(i, codes[i]);
                assert forall|j: int| 0 <= j < 64 implies #[trigger] acc2[j] == (if j < i + 1 {
                    codes[j]
                } else {
                    0
                }) by {}
                let rest = placement_fen_from(bb, i + 1, 0);
                if pending > 0 {
                    lemma_place_first(tail, rest_row, i % 8 - pending, acc);
                    let t1 = tail.drop_first();
                    lemma_place_first(t1, rest_row, i % 8, acc);
                    assert(t1.drop_first() =~= rest);
                } else {
                    lemma_place_first(tail, rest_row, i % 8, acc);
                    assert(tail.drop_first() =~= rest);
                }
                lemma_placement_from(bb, codes, i + 1, 0, if (i + 1) % 8 == 0 {
                    (i + 1) / 8 - 1
                } else {
                    (i + 1) / 8
                }, if (i + 1) % 8 == 0 {
                    8
                } else {
                    (i + 1) % 8
                }, acc2);
            },
            None => {
                assert(tail =~= placement_fen_from(bb, i + 1, pending + 1));
                lemma_placement_from(bb, codes, i + 1, pending + 1, rest_row, i % 8 - pending, acc);
            },
        }
    }
}

/// Printing a placement and reading it back gives the same board: for
/// bitboards that agree with valid mailbox codes, the FEN placement they
/// print reads back as exactly those codes.
pub proof fn lemma_placement_round_trip(bb: Bitboard, codes: Seq<u8>)
    requires
        agrees(bb, codes),
        codes_valid(codes),
    ensures
        placement_spec(placement_fen_from(bb, 0, 0)) == Some(codes),
{
    lemma_placement_from(bb, codes, 0, 0, 0, 0, Seq::new(64, |i: int| 0u8));
}

} // verus!
