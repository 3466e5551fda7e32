//! The position (bitboards and mailbox in step), fully legal move
//! generation, and the laws the generator obeys.
use vstd::prelude::*;
use vstd::string::*;

use crate::bitboard::{
    attacked_spec, bitboard_after, color_board, fen_fields_spec, holds_fen, in_check_spec,
    kind_at, occupancy, opposite, turn, Bitboard,
};
use crate::chess_move::{get_castle_flag, Move};
use crate::constants::{
    BISHOP_ID, BLACK_ID, EMPTY_ID, KING_ID, KNIGHT_ID, PAWN_ID, QUEEN_ID, ROOK_ID, START_FEN,
    WHITE_ID,
};
use crate::fen::{decimal_value, parse_decimal, split_fields, split_spec, str_chars, FenError};
use crate::magic::{ray_of, ray_walk, slider_attack, step, Slider};
use crate::mailbox::{flags_spec, mailbox_after, MailboxBoard};
use crate::move_generator::{
    generate_king_moves, generate_knight_moves, generate_pawn_attacks, generate_pawn_moves,
    king_spec, knight_spec, pawn_attack_spec, pawn_push_spec, AttackTables,
};
use crate::utility::{
    decimal_spec, get_indices_of_ones, has_sq, is_subset, on_board, push_char, push_decimal, sq,
};

verus! {

/// A position: bitboards and mailbox kept in step, and the two move counters
/// of FEN.
#[derive(Clone, Copy, Debug)]
pub struct Chessboard {
    pub bitboard: Bitboard,
    pub mailbox: MailboxBoard,
    pub halfmove_clock: u32,
    pub fullmove_number: u32,
}

impl Chessboard {
    /// The bitboards and the mailbox describe the same pieces.
    pub open spec fn wf(&self) -> bool {
        crate::bitboard::agrees(self.bitboard, self.mailbox@)
    }
}

/// The halfmove clock after a move described by `flags`: 0 after a pawn move
/// or a capture (en passant included), one more otherwise, saturating.
pub open spec fn halfmove_after(half: u32, flags: u16) -> u32 {
    let piece = (flags & 7u16) as u8;
    let captured = ((flags >> 4u16) & 7u16) as u8;
    if piece == PAWN_ID || captured != EMPTY_ID || flags & 256u16 != 0 {
        0
    } else if half == u32::MAX {
        half
    } else {
        (half + 1) as u32
    }
}

/// The fullmove number after a move described by `flags`: one more after
/// black moves, saturating.
pub open spec fn fullmove_after(full: u32, flags: u16) -> u32 {
    let color = ((flags >> 3u16) & 1u16) as u8;
    if color == BLACK_ID && full < u32::MAX {
        (full + 1) as u32
    } else {
        full
    }
}

/// The bitboards after playing `m` on `cb`.
pub open spec fn after_spec(cb: Chessboard, m: Move) -> Bitboard {
    bitboard_after(cb.bitboard, m, flags_spec(cb.mailbox@, m))
}

/// The own king square of `color`: the lowest one, 64 when there is none.
pub open spec fn king_square_spec(bb: Bitboard, color: u8) -> int {
    vstd::std_specs::bits::u64_trailing_zeros(bb.king_board & color_board(bb, color)) as int
}

/// The squares the piece on `p` attacks, for a piece of color `by`.
pub open spec fn piece_attack_spec(bb: Bitboard, p: int, by: u8) -> u64 {
    let k = kind_at(bb, p);
    let occ = occupancy(bb);
    if k == PAWN_ID {
        pawn_attack_spec(sq(p), by)
    } else if k == KNIGHT_ID {
        knight_spec(sq(p))
    } else if k == BISHOP_ID {
        slider_attack(Slider::Bishop, p, occ)
    } else if k == ROOK_ID {
        slider_attack(Slider::Rook, p, occ)
    } else if k == QUEEN_ID {
        slider_attack(Slider::Rook, p, occ) | slider_attack(Slider::Bishop, p, occ)
    } else if k == KING_ID {
        king_spec(sq(p))
    } else {
        0
    }
}

/// An opposing piece on `p` attacks the king of `color` on `k`.
pub open spec fn is_checker(bb: Bitboard, color: u8, k: int, p: int) -> bool {
    &&& 0 <= p < 64
    &&& has_sq(color_board(bb, opposite(color)), p)
    &&& has_sq(piece_attack_spec(bb, p, opposite(color)), k)
}

/// Two different opposing pieces attack the king of `color`.
pub open spec fn double_check_spec(bb: Bitboard, color: u8) -> bool {
    let k = king_square_spec(bb, color);
    &&& k < 64
    &&& exists|x: int, y: int|
        x != y && #[trigger] is_checker(bb, color, k, x) && #[trigger] is_checker(bb, color, k, y)
}

/// The pinner's kinds for a line: rook or queen on ranks and files, bishop or
/// queen on diagonals.
pub open spec fn line_pieces(bb: Bitboard, kind: Slider) -> u64 {
    match kind {
        Slider::Rook => bb.rook_board | bb.queen_board,
        Slider::Bishop => bb.bishop_board | bb.queen_board,
    }
}

/// Squares strictly between `k` and `p` on a line of `kind`.
pub open spec fn between_spec(kind: Slider, k: int, p: int) -> u64 {
    slider_attack(kind, k, sq(p)) & slider_attack(kind, p, sq(k))
}

/// The pinning ray: the squares between the king and the pinner, and the
/// pinner's own square.
pub open spec fn pin_ray(kind: Slider, k: int, p: int) -> u64 {
    between_spec(kind, k, p) | sq(p)
}

/// The piece of `color` on `q` is pinned to its king by the opposing slider
/// on `p` along a line of `kind`: `p` sees the king's square along that
/// line, and `q` is the only piece between them.
pub open spec fn pinned_spec(bb: Bitboard, color: u8, q: int, p: int, kind: Slider) -> bool {
    let k = king_square_spec(bb, color);
    &&& k < 64
    &&& 0 <= p < 64
    &&& 0 <= q < 64
    &&& has_sq(color_board(bb, color), q)
    &&& has_sq(color_board(bb, opposite(color)) & line_pieces(bb, kind), p)
    &&& has_sq(slider_attack(kind, k, sq(p)), p)
    &&& between_spec(kind, k, p) & occupancy(bb) == sq(q)
}

/// Squares the other side attacks, seen by the side of `color`.
pub open spec fn enemy_attacks(bb: Bitboard, color: u8) -> u64 {
    attacked_spec(bb, opposite(color))
}

/// The conditions under which the king of `color` on `s` castles to `t`:
/// the right is held, the squares between king and rook are empty, and the
/// other side attacks neither the king's square, nor the square it crosses,
/// nor the square it lands on.
pub open spec fn castle_ok(bb: Bitboard, color: u8, s: int, t: int) -> bool {
    let occ = occupancy(bb);
    let att = enemy_attacks(bb, color);
    let f = bb.flags;
    ||| (color == WHITE_ID && s == 60 && t == 62 && (f >> 3u8) & 1u8 == 1u8 && !has_sq(occ, 61)
        && !has_sq(occ, 62) && !has_sq(att, 60) && !has_sq(att, 61) && !has_sq(att, 62))
    ||| (color == WHITE_ID && s == 60 && t == 58 && (f >> 2u8) & 1u8 == 1u8 && !has_sq(occ, 57)
        && !has_sq(occ, 58) && !has_sq(occ, 59) && !has_sq(att, 60) && !has_sq(att, 59)
        && !has_sq(att, 58))
    ||| (color == BLACK_ID && s == 4 && t == 6 && (f >> 1u8) & 1u8 == 1u8 && !has_sq(occ, 5)
        && !has_sq(occ, 6) && !has_sq(att, 4) && !has_sq(att, 5) && !has_sq(att, 6))
    ||| (color == BLACK_ID && s == 4 && t == 2 && f & 1u8 == 1u8 && !has_sq(occ, 1) && !has_sq(
        occ,
        2,
    ) && !has_sq(occ, 3) && !has_sq(att, 4) && !has_sq(att, 3) && !has_sq(att, 2))
}

/// A castle: a king moving two squares.
pub open spec fn is_castle_move(bb: Bitboard, m: Move) -> bool {
    kind_at(bb, m.start_index as int) == KING_ID && crate::mailbox::abs_diff(
        m.start_index as int,
        m.end_index as int,
    ) == 2
}

/// What every listed move satisfies before the king-safety test: it moves a
/// piece of the side to move, only the king moves in double check, a castle
/// meets the castling conditions, and a pinned piece stays on its ray.
pub open spec fn move_shape_props(cb: Chessboard, m: Move) -> bool {
    let bb = cb.bitboard;
    let color = turn(bb);
    &&& m.start_index < 64
    &&& m.end_index < 64
    &&& has_sq(color_board(bb, color), m.start_index as int)
    &&& (double_check_spec(bb, color) ==> m.start_index == king_square_spec(bb, color))
    &&& (is_castle_move(bb, m) ==> castle_ok(bb, color, m.start_index as int, m.end_index as int))
    &&& (forall|p: int, kind: Slider|
        #[trigger] pinned_spec(bb, color, m.start_index as int, p, kind) ==> has_sq(
            pin_ray(kind, king_square_spec(bb, color), p),
            m.end_index as int,
        ))
}

/// No pin keeps the piece of `color` on `q` from reaching `t`.
pub open spec fn pin_allows(bb: Bitboard, color: u8, q: int, t: int) -> bool {
    forall|p: int, kind: Slider|
        #[trigger] pinned_spec(bb, color, q, p, kind) ==> has_sq(
            pin_ray(kind, king_square_spec(bb, color), p),
            t,
        )
}

/// No pinner below square `n` keeps the piece on `q` from reaching `t`.
pub open spec fn allows_upto(bb: Bitboard, color: u8, q: int, t: int, n: int) -> bool {
    forall|p: int, kind: Slider|
        p < n && #[trigger] pinned_spec(bb, color, q, p, kind) ==> has_sq(
            pin_ray(kind, king_square_spec(bb, color), p),
            t,
        )
}

/// A pawn of the side to move reaching its last rank.
pub open spec fn promotes(bb: Bitboard, m: Move) -> bool {
    &&& kind_at(bb, m.start_index as int) == PAWN_ID
    &&& if turn(bb) == WHITE_ID {
        m.end_index < 8
    } else {
        m.end_index >= 56
    }
}

/// The moves the generator weighs: a piece of the side to move (only the
/// king in double check) going to one of its targets, with a promotion piece
/// exactly when a pawn reaches its last rank, or a king castling under the
/// castling conditions; in both cases without leaving a pinning ray.
pub open spec fn candidate(bb: Bitboard, m: Move) -> bool {
    let color = turn(bb);
    let q = m.start_index as int;
    let t = m.end_index as int;
    &&& m.start_index < 64
    &&& m.end_index < 64
    &&& has_sq(color_board(bb, color), q)
    &&& (!double_check_spec(bb, color) || q == king_square_spec(bb, color))
    &&& pin_allows(bb, color, q, t)
    &&& ((has_sq(targets_spec(bb, q, color), t) && if promotes(bb, m) {
        m.promotion_piece == QUEEN_ID || m.promotion_piece == ROOK_ID || m.promotion_piece
            == BISHOP_ID || m.promotion_piece == KNIGHT_ID
    } else {
        m.promotion_piece == 0
    }) || (kind_at(bb, q) == KING_ID && m.promotion_piece == 0 && (t == q + 2 || t == q - 2)
        && castle_ok(bb, color, q, t)))
}

/// A legal move: a candidate that leaves no king of the mover attacked.
pub open spec fn legal_spec(cb: Chessboard, m: Move) -> bool {
    legal_in(cb.bitboard, cb.mailbox@, m)
}

/// `m` is legal in the position with bitboards `bb` and mailbox codes `mb`.
pub open spec fn legal_in(bb: Bitboard, mb: Seq<u8>, m: Move) -> bool {
    candidate(bb, m) && !in_check_spec(bitboard_after(bb, m, flags_spec(mb, m)), turn(bb))
}

/// The set of legal moves of the side to move.
pub open spec fn legal_set(cb: Chessboard) -> Set<Move> {
    legal_set_in(cb.bitboard, cb.mailbox@)
}

/// The set of legal moves in the position with bitboards `bb` and mailbox
/// codes `mb`.
pub open spec fn legal_set_in(bb: Bitboard, mb: Seq<u8>) -> Set<Move> {
    Set::new(|m: Move| legal_in(bb, mb, m))
}

/// The legal moves of a position, each once, in some order.
pub open spec fn legal_seq(bb: Bitboard, mb: Seq<u8>) -> Seq<Move> {
    choose|s: Seq<Move>| s.no_duplicates() && s.to_set() == legal_set_in(bb, mb)
}

/// Leaf nodes `depth` plies below the position: 1 at depth 0, otherwise the
/// sum of the counts below each legal move.
pub open spec fn perft_spec(bb: Bitboard, mb: Seq<u8>, depth: nat) -> nat
    decreases depth, 0nat,
{
    if depth == 0 {
        1
    } else {
        children_sum(bb, mb, legal_seq(bb, mb), (depth - 1) as nat)
    }
}

/// The sum of the counts `depth` plies below the positions each move of `s`
/// leads to.
pub open spec fn children_sum(bb: Bitboard, mb: Seq<u8>, s: Seq<Move>, depth: nat) -> nat
    decreases depth, s.len() + 1,
{
    if s.len() == 0 {
        0
    } else {
        let m = s.last();
        children_sum(bb, mb, s.drop_last(), depth) + perft_spec(
            bitboard_after(bb, m, flags_spec(mb, m)),
            mailbox_after(mb, m),
            depth,
        )
    }
}

proof fn lemma_children_sum_remove(bb: Bitboard, mb: Seq<u8>, s: Seq<Move>, k: int, depth: nat)
    requires
        0 <= k < s.len(),
    ensures
        children_sum(bb, mb, s, depth) == children_sum(bb, mb, s.remove(k), depth) + perft_spec(
            bitboard_after(bb, s[k], flags_spec(mb, s[k])),
            mailbox_after(mb, s[k]),
            depth,
        ),
    decreases s.len(),
{
    if k == s.len() - 1 {
        assert(s.remove(k) =~= s.drop_last());
    } else {
        lemma_children_sum_remove(bb, mb, s.drop_last(), k, depth);
        assert(s.remove(k).drop_last() =~= s.drop_last().remove(k));
        assert(s.remove(k).last() == s.last());
    }
}

/// The sum over a set of moves does not depend on the order they are listed in.
pub proof fn lemma_children_sum_order(bb: Bitboard, mb: Seq<u8>, s1: Seq<Move>, s2: Seq<Move>, depth: nat)
    requires
        s1.no_duplicates(),
        s2.no_duplicates(),
        s1.to_set() == s2.to_set(),
    ensures
        children_sum(bb, mb, s1, depth) == children_sum(bb, mb, s2, depth),
    decreases s1.len(),
{
    if s1.len() == 0 {
        if s2.len() > 0 {
            assert(s2.to_set().contains(s2[0]));
        }
    } else {
        let x = s1.last();
        assert(s1.to_set().contains(x));
        assert(s2.contains(x));
        let k = choose|k: int| 0 <= k < s2.len() && s2[k] == x;
        let t1 = s1.drop_last();
        let t2 = s2.remove(k);
        assert forall|y: Move| t1.to_set().contains(y) <==> t2.to_set().contains(y) by {
            if t1.contains(y) {
                let i = choose|i: int| 0 <= i < t1.len() && t1[i] == y;
                assert(s1[i] == y && i != s1.len() - 1);
                assert(s1.contains(y));
                assert(s1.to_set().contains(y));
                assert(s2.to_set().contains(y));
                assert(s2.contains(y));
                let j = choose|j: int| 0 <= j < s2.len() && s2[j] == y;
                assert(j != k);
                if j < k {
                    assert(t2[j] == y);
                } else {
                    assert(t2[j - 1] == y);
                }
            }
            if t2.contains(y) {
                let j = choose|j: int| 0 <= j < t2.len() && t2[j] == y;
                let jj = if j < k { j } else { j + 1 };
                assert(s2[jj] == y && jj != k);
                assert(s2.contains(y));
                assert(s2.to_set().contains(y));
                assert(s1.to_set().contains(y));
                assert(s1.contains(y));
                let i = choose|i: int| 0 <= i < s1.len() && s1[i] == y;
                assert(i != s1.len() - 1);
                assert(t1[i] == y);
            }
        }
        assert(t1.to_set() =~= t2.to_set());
        assert(t2.no_duplicates()) by {
            assert forall|a: int, b: int| 0 <= a < t2.len() && 0 <= b < t2.len() && a != b implies t2[a] != t2[b] by {
                let aa = if a < k { a } else { a + 1 };
                let bb2 = if b < k { b } else { b + 1 };
                assert(t2[a] == s2[aa] && t2[b] == s2[bb2]);
            }
        }
        lemma_children_sum_order(bb, mb, t1, t2, depth);
        lemma_children_sum_remove(bb, mb, s2, k, depth);
    }
}

/// At depth 0 every move counts once.
pub proof fn lemma_children_sum_leaves(bb: Bitboard, mb: Seq<u8>, s: Seq<Move>)
    ensures
        children_sum(bb, mb, s, 0) == s.len(),
    decreases s.len(),
{
    if s.len() > 0 {
        lemma_children_sum_leaves(bb, mb, s.drop_last());
        let m = s.last();
        assert(perft_spec(bitboard_after(bb, m, flags_spec(mb, m)), mailbox_after(mb, m), 0) == 1);
    }
}

/// A list of the legal moves, each once, gives the position's perft count.
pub proof fn lemma_perft_by_list(bb: Bitboard, mb: Seq<u8>, s: Seq<Move>, depth: nat)
    requires
        depth > 0,
        s.no_duplicates(),
        s.to_set() == legal_set_in(bb, mb),
    ensures
        perft_spec(bb, mb, depth) == children_sum(bb, mb, s, (depth - 1) as nat),
{
    let l = legal_seq(bb, mb);
    assert(l.no_duplicates() && l.to_set() == legal_set_in(bb, mb));
    lemma_children_sum_order(bb, mb, l, s, (depth - 1) as nat);
}

/// The properties every move listed as legal has: its shape, and that it
/// leaves no king of the side to move attacked.
pub open spec fn legal_move_props(cb: Chessboard, m: Move) -> bool {
    &&& move_shape_props(cb, m)
    &&& !in_check_spec(after_spec(cb, m), turn(cb.bitboard))
}

/// The square a pawn of `color` may take en passant, as a bitboard.
pub open spec fn en_passant_target_spec(bb: Bitboard, color: u8) -> u64 {
    if bb.en_passant == 0 {
        0
    } else {
        let row: int = if color == WHITE_ID {
            2
        } else {
            5
        };
        sq(row * 8 + vstd::std_specs::bits::u8_trailing_zeros(bb.en_passant) as int)
    }
}

/// Where the piece of `color` on `q` may go before king safety is weighed,
/// castling aside: pawns push onto empty squares and take onto enemy pieces
/// or the en-passant square; a king avoids attacked squares; no piece lands
/// on its own side.
pub open spec fn targets_spec(bb: Bitboard, q: int, color: u8) -> u64 {
    let own = color_board(bb, color);
    let theirs = color_board(bb, opposite(color));
    let occ = occupancy(bb);
    let k = kind_at(bb, q);
    (if k == PAWN_ID {
        pawn_push_spec(sq(q), occ, color) | (pawn_attack_spec(sq(q), color) & (theirs
            | en_passant_target_spec(bb, color)))
    } else if k == KING_ID {
        king_spec(sq(q)) & !enemy_attacks(bb, color)
    } else {
        piece_attack_spec(bb, q, color)
    }) & !own
}

proof fn lemma_sq_single(q: int)
    requires
        0 <= q < 64,
    ensures
        sq(q) != 0,
        sq(q) & ((sq(q) - 1) as u64) == 0,
        has_sq(sq(q), q),
        forall|o: u64| #[trigger] (sq(q) & o) == sq(q) <==> has_sq(o, q),
{
    let x = q as u64;
    assert((1u64 << x) != 0 && (1u64 << x) & (((1u64 << x) - 1) as u64) == 0 && ((1u64 << x) >> x)
        & 1u64 == 1u64) by (bit_vector)
        requires
            x < 64,
    ;
    assert forall|o: u64| #[trigger] (sq(q) & o) == sq(q) <==> has_sq(o, q) by {
        assert(((1u64 << x) & o) == (1u64 << x) <==> (o >> x) & 1u64 == 1u64) by (bit_vector)
            requires
                x < 64,
        ;
    }
}

proof fn lemma_single_bit(x: u64, t: u64)
    requires
        x != 0,
        x & ((x - 1) as u64) == 0,
        t < 64,
        (x >> t) & 1u64 == 1u64,
    ensures
        x == 1u64 << t,
{
    assert(x == 1u64 << t) by (bit_vector)
        requires
            x != 0,
            x & ((x - 1) as u64) == 0,
            t < 64,
            (x >> t) & 1u64 == 1u64,
    ;
}

proof fn lemma_sq_injective(a: int, b: int)
    requires
        0 <= a < 64,
        0 <= b < 64,
        sq(a) == sq(b),
    ensures
        a == b,
{
    let x = a as u64;
    let y = b as u64;
    assert(x == y) by (bit_vector)
        requires
            x < 64,
            y < 64,
            (1u64 << x) == (1u64 << y),
    ;
}

proof fn lemma_subset_facts(a: u64, b: u64, c: u64)
    by (bit_vector)
    ensures
        is_subset(a & b, b),
        is_subset(a, c) ==> is_subset(a & b, c),
        is_subset(a & b, a),
        is_subset(a, b) && is_subset(b, c) ==> is_subset(a, c),
        is_subset(a, a),
{
}

proof fn lemma_subset_has(a: u64, b: u64, t: int)
    requires
        is_subset(a, b),
        has_sq(a, t),
        0 <= t < 64,
    ensures
        has_sq(b, t),
{
    let y = t as u64;
    assert((b >> y) & 1u64 == 1u64) by (bit_vector)
        requires
            a & !b == 0,
            (a >> y) & 1u64 == 1u64,
            y < 64,
    ;
}

proof fn lemma_and_has(a: u64, b: u64, t: int)
    requires
        has_sq(a & b, t),
        0 <= t < 64,
    ensures
        has_sq(a, t),
        has_sq(b, t),
{
    crate::utility::lemma_square_ops(a, b);
}

proof fn lemma_king_step(q: int, t: int)
    requires
        0 <= q < 64,
        0 <= t < 64,
        has_sq(king_spec(sq(q)), t),
    ensures
        crate::mailbox::abs_diff(q, t) != 2,
{
    let x = q as u64;
    let y = t as u64;
    let b = 1u64 << x;
    assert(y != (x + 2) as u64 && x != (y + 2) as u64) by (bit_vector)
        requires
            x < 64,
            y < 64,
            b == 1u64 << x,
            ((((b | ((b & !0x0101010101010101u64) >> 1u64) | ((b & !0x8080808080808080u64) << 1u64))
                | ((b | ((b & !0x0101010101010101u64) >> 1u64) | ((b & !0x8080808080808080u64)
                << 1u64)) >> 8u64) | ((b | ((b & !0x0101010101010101u64) >> 1u64) | ((b
                & !0x8080808080808080u64) << 1u64)) << 8u64)) & !b) >> y) & 1u64 == 1u64,
    ;
}

fn kind_of(bb: &Bitboard, i: u32) -> (r: u8)
    requires
        i < 64,
    ensures
        r == kind_at(*bb, i as int),
{
    let j = i as u64;
    if (bb.pawn_board >> j) & 1 == 1 {
        PAWN_ID
    } else if (bb.knight_board >> j) & 1 == 1 {
        KNIGHT_ID
    } else if (bb.bishop_board >> j) & 1 == 1 {
        BISHOP_ID
    } else if (bb.rook_board >> j) & 1 == 1 {
        ROOK_ID
    } else if (bb.queen_board >> j) & 1 == 1 {
        QUEEN_ID
    } else if (bb.king_board >> j) & 1 == 1 {
        KING_ID
    } else {
        EMPTY_ID
    }
}

fn opposite_of(color: u8) -> (r: u8)
    ensures
        r == opposite(color),
{
    if color == WHITE_ID {
        BLACK_ID
    } else {
        WHITE_ID
    }
}

impl Chessboard {
    /// The side to move: 1 for white, 0 for black.
    pub fn current_turn(&self) -> (r: u8)
        ensures
            r == turn(self.bitboard),
            r < 2,
    {
        self.bitboard.current_turn()
    }

    /// Plays a move without checking legality: the mailbox moves the piece
    /// and reports the flags word, and the bitboards apply the same flags.
    pub fn make_move_unchecked(&mut self, move_: Move) -> (r: u16)
        requires
            move_.start_index < 64,
            move_.end_index < 64,
        ensures
            r == flags_spec(old(self).mailbox@, move_),
            final(self).mailbox@ == mailbox_after(old(self).mailbox@, move_),
            final(self).bitboard == bitboard_after(old(self).bitboard, move_, r),
            final(self).halfmove_clock == halfmove_after(old(self).halfmove_clock, r),
            final(self).fullmove_number == fullmove_after(old(self).fullmove_number, r),
            consistent(*old(self)) && legal_spec(*old(self), move_) ==> final(self).wf(),
    {
        proof {
            if consistent(*old(self)) && legal_spec(*old(self), move_) {
                lemma_legal_move_keeps_lockstep(*old(self), move_);
            }
        }
        let flags = self.mailbox.move_piece(&move_);
        self.bitboard.move_piece(&move_, flags);
        let resets = crate::chess_move::get_piece_flag(flags) == PAWN_ID
            || crate::chess_move::get_captured_piece_flag(flags) != EMPTY_ID
            || crate::chess_move::get_en_passant_flag(flags);
        self.halfmove_clock = if resets {
            0
        } else {
            self.halfmove_clock.saturating_add(1)
        };
        if crate::chess_move::get_color_flag(flags) == BLACK_ID {
            self.fullmove_number = self.fullmove_number.saturating_add(1);
        }
        flags
    }

    /// The squares the piece on `p` attacks, for a piece of color `by`.
    fn piece_attack(&self, tables: &AttackTables, p: u32, by: u8) -> (r: u64)
        requires
            tables.wf(),
            p < 64,
        ensures
            r == piece_attack_spec(self.bitboard, p as int, by),
    {
        let bb = &self.bitboard;
        let k = kind_of(bb, p);
        let b = 1u64 << (p as u64);
        let occ = bb.white_board | bb.black_board;
        if k == PAWN_ID {
            generate_pawn_attacks(b, by)
        } else if k == KNIGHT_ID {
            generate_knight_moves(b)
        } else if k == BISHOP_ID {
            tables.slider(Slider::Bishop, p, occ)
        } else if k == ROOK_ID {
            tables.slider(Slider::Rook, p, occ)
        } else if k == QUEEN_ID {
            tables.slider(Slider::Rook, p, occ) | tables.slider(Slider::Bishop, p, occ)
        } else if k == KING_ID {
            generate_king_moves(b)
        } else {
            0
        }
    }

    /// Whether two different opposing pieces attack the king on `ksq`.
    fn is_double_check(&self, tables: &AttackTables, color: u8, ksq: u32) -> (r: bool)
        requires
            tables.wf(),
            ksq == king_square_spec(self.bitboard, color),
            ksq < 64,
        ensures
            r == double_check_spec(self.bitboard, color),
    {
        let opp = opposite_of(color);
        let theirs = self.bitboard.get_color_board(opp);
        let mut found = false;
        let mut double = false;
        let mut first: u32 = 0;
        let mut second: u32 = 0;
        let mut p: u32 = 0;
        while p < 64
            invariant
                tables.wf(),
                ksq == king_square_spec(self.bitboard, color),
                ksq < 64,
                opp == opposite(color),
                theirs == color_board(self.bitboard, opp),
                p <= 64,
                found ==> first < p && is_checker(self.bitboard, color, ksq as int, first as int),
                !found ==> forall|o: int| 0 <= o < p ==> !is_checker(self.bitboard, color, ksq as int, o),
                found && !double ==> forall|o: int|
                    0 <= o < p && is_checker(self.bitboard, color, ksq as int, o) ==> o == first,
                double ==> found && second < p && second != first && is_checker(
                    self.bitboard,
                    color,
                    ksq as int,
                    second as int,
                ),
            decreases 64 - p,
        {
            if (theirs >> (p as u64)) & 1 == 1 {
                let a = self.piece_attack(tables, p, opp);
                if (a >> (ksq as u64)) & 1 == 1 {
                    if found {
                        if !double {
                            double = true;
                            second = p;
                        }
                    } else {
                        found = true;
                        first = p;
                    }
                }
            }
            p = p + 1;
        }
        proof {
            if double {
                assert(is_checker(self.bitboard, color, ksq as int, first as int));
                assert(is_checker(self.bitboard, color, ksq as int, second as int));
            } else {
                assert forall|x: int, y: int|
                    x != y && #[trigger] is_checker(self.bitboard, color, ksq as int, x)
                        && #[trigger] is_checker(self.bitboard, color, ksq as int, y) implies false by {}
            }
        }
        double
    }

    /// The own piece pinned by the opposing slider on `p` along a line of
    /// `kind`, with the pinning ray.
    fn pinned_by(&self, tables: &AttackTables, color: u8, ksq: u32, p: u32, kind: Slider) -> (r:
        Option<(u32, u64)>)
        requires
            tables.wf(),
            ksq == king_square_spec(self.bitboard, color),
            ksq < 64,
            p < 64,
        ensures
            r matches Some((q, ray)) ==> q < 64 && pinned_spec(self.bitboard, color, q as int, p as int, kind)
                && ray == pin_ray(kind, ksq as int, p as int),
            r matches Some((q, ray)) ==> forall|o: int|
                #[trigger] pinned_spec(self.bitboard, color, o, p as int, kind) ==> o == q,
            r is None ==> forall|o: int| !#[trigger] pinned_spec(self.bitboard, color, o, p as int, kind),
    {
        let bb = &self.bitboard;
        let own = bb.get_color_board(color);
        let theirs = bb.get_color_board(opposite_of(color));
        let occ = bb.white_board | bb.black_board;
        let line_board = match kind {
            Slider::Rook => bb.rook_board | bb.queen_board,
            Slider::Bishop => bb.bishop_board | bb.queen_board,
        };
        if ((theirs & line_board) >> (p as u64)) & 1 != 1 {
            return None;
        }
        let target = 1u64 << (p as u64);
        let line = tables.slider(kind, ksq, target);
        if (line >> (p as u64)) & 1 != 1 {
            return None;
        }
        let between = line & tables.slider(kind, p, 1u64 << (ksq as u64));
        let x = between & occ;
        proof {
            assert forall|o: int| 0 <= o < 64 implies #[trigger] sq(o) != 0 && sq(o) & ((sq(o) - 1) as u64) == 0 by {
                lemma_sq_single(o);
            }
        }
        if x == 0 || x & (x - 1) != 0 {
            return None;
        }
        let q = x.trailing_zeros();
        proof {
            vstd::std_specs::bits::axiom_u64_trailing_zeros(x);
            lemma_single_bit(x, q as u64);
            assert(x == sq(q as int));
            assert forall|o: int| #[trigger] pinned_spec(self.bitboard, color, o, p as int, kind) implies o == q by {
                lemma_sq_injective(o, q as int);
            }
            lemma_sq_single(q as int);
        }
        if (own >> (q as u64)) & 1 != 1 {
            return None;
        }
        Some((q, between | target))
    }

    /// For each square, the squares its piece may reach without leaving the
    /// ray of any pin on it.
    fn pin_masks(&self, tables: &AttackTables, color: u8, ksq: u32) -> (r: [u64; 64])
        requires
            tables.wf(),
            ksq == king_square_spec(self.bitboard, color),
            ksq < 64,
        ensures
            forall|q: int, p: int, kind: Slider|
                0 <= q < 64 && #[trigger] pinned_spec(self.bitboard, color, q, p, kind) ==> is_subset(
                    r@[q],
                    pin_ray(kind, ksq as int, p),
                ),
            forall|q: int, t: int|
                0 <= q < 64 && 0 <= t < 64 && pin_allows(self.bitboard, color, q, t) ==> #[trigger] has_sq(r@[q], t),
    {
        let mut pins: [u64; 64] = [!0u64; 64];
        proof {
            lemma_full_board();
        }
        let mut p: u32 = 0;
        while p < 64
            invariant
                tables.wf(),
                ksq == king_square_spec(self.bitboard, color),
                ksq < 64,
                p <= 64,
                forall|q: int, o: int, kind: Slider|
                    0 <= q < 64 && o < p && #[trigger] pinned_spec(self.bitboard, color, q, o, kind)
                        ==> is_subset(pins@[q], pin_ray(kind, ksq as int, o)),
                forall|q: int, t: int|
                    0 <= q < 64 && 0 <= t < 64 && allows_upto(self.bitboard, color, q, t, p as int)
                        ==> #[trigger] has_sq(pins@[q], t),
            decreases 64 - p,
        {
            let ghost pins_before = pins@;
            self.restrict_pins(tables, color, ksq, p, Slider::Rook, &mut pins);
            let ghost pins_mid = pins@;
            self.restrict_pins(tables, color, ksq, p, Slider::Bishop, &mut pins);
            proof {
                assert forall|q: int| 0 <= q < 64 implies is_subset(#[trigger] pins@[q], pins_before[q]) by {
                    lemma_subset_facts(pins_before[q], pin_ray(Slider::Rook, ksq as int, p as int), pins_before[q]);
                    lemma_subset_facts(pins_mid[q], pin_ray(Slider::Bishop, ksq as int, p as int), pins_mid[q]);
                    assert(is_subset(pins_mid[q], pins_before[q]));
                    assert(is_subset(pins@[q], pins_mid[q]));
                    lemma_subset_facts(pins@[q], pins_mid[q], pins_before[q]);
                }
                assert forall|q: int, o: int, kind: Slider|
                    0 <= q < 64 && o < p + 1 && #[trigger] pinned_spec(self.bitboard, color, q, o, kind)
                        implies is_subset(pins@[q], pin_ray(kind, ksq as int, o)) by {
                    if o < p {
                        lemma_subset_facts(pins@[q], pins_before[q], pin_ray(kind, ksq as int, o));
                    } else {
                        match kind {
                            Slider::Rook => {
                                lemma_subset_facts(pins_before[q], pin_ray(Slider::Rook, ksq as int, p as int), pin_ray(Slider::Rook, ksq as int, p as int));
                                lemma_subset_facts(pins_mid[q], pin_ray(Slider::Bishop, ksq as int, p as int), pin_ray(Slider::Rook, ksq as int, p as int));
                            },
                            Slider::Bishop => {
                                lemma_subset_facts(pins_mid[q], pin_ray(Slider::Bishop, ksq as int, p as int), pin_ray(Slider::Bishop, ksq as int, p as int));
                            },
                        }
                    }
                }
                assert forall|q: int, t: int|
                    0 <= q < 64 && 0 <= t < 64 && allows_upto(self.bitboard, color, q, t, p + 1)
                        implies #[trigger] has_sq(pins@[q], t) by {
                    assert(allows_upto(self.bitboard, color, q, t, p as int));
                    assert(has_sq(pins_before[q], t));
                    crate::utility::lemma_square_ops(pins_before[q], pin_ray(Slider::Rook, ksq as int, p as int));
                    crate::utility::lemma_square_ops(pins_mid[q], pin_ray(Slider::Bishop, ksq as int, p as int));
                    assert(has_sq(pins_mid[q], t));
                }
            }
            p = p + 1;
        }
        proof {
            assert forall|q: int, t: int|
                0 <= q < 64 && 0 <= t < 64 && pin_allows(self.bitboard, color, q, t) implies #[trigger] has_sq(pins@[q], t) by {
                assert(allows_upto(self.bitboard, color, q, t, 64));
            }
        }
        pins
    }

    fn restrict_pins(
        &self,
        tables: &AttackTables,
        color: u8,
        ksq: u32,
        p: u32,
        kind: Slider,
        pins: &mut [u64; 64],
    )
        requires
            tables.wf(),
            ksq == king_square_spec(self.bitboard, color),
            ksq < 64,
            p < 64,
        ensures
            forall|q: int|
                0 <= q < 64 ==> #[trigger] final(pins)@[q] == if pinned_spec(
                    self.bitboard,
                    color,
                    q,
                    p as int,
                    kind,
                ) {
                    old(pins)@[q] & pin_ray(kind, ksq as int, p as int)
                } else {
                    old(pins)@[q]
                },
    {
        match self.pinned_by(tables, color, ksq, p, kind) {
            Some((q, ray)) => {
                pins[q as usize] = pins[q as usize] & ray;
            },
            None => {},
        }
    }
}

proof fn lemma_candidate_shape(cb: Chessboard, m: Move)
    requires
        candidate(cb.bitboard, m),
    ensures
        move_shape_props(cb, m),
{
    let bb = cb.bitboard;
    let color = turn(bb);
    let q = m.start_index as int;
    let t = m.end_index as int;
    if is_castle_move(bb, m) && has_sq(targets_spec(bb, q, color), t) {
        crate::utility::lemma_square_ops(king_spec(sq(q)), !enemy_attacks(bb, color));
        crate::utility::lemma_square_ops(
            king_spec(sq(q)) & !enemy_attacks(bb, color),
            !color_board(bb, color),
        );
        lemma_king_step(q, t);
    }
}

/// A legal move has the properties every listed move has.
pub proof fn lemma_legal_props(cb: Chessboard, m: Move)
    requires
        legal_spec(cb, m),
    ensures
        legal_move_props(cb, m),
{
    lemma_candidate_shape(cb, m);
}

/// `a` is a prefix of `b`.
pub open spec fn is_prefix(a: Seq<Move>, b: Seq<Move>) -> bool {
    a.len() <= b.len() && forall|i: int| 0 <= i < a.len() ==> b[i] == a[i]
}

proof fn lemma_prefix_contains(a: Seq<Move>, b: Seq<Move>, m: Move)
    requires
        is_prefix(a, b),
        a.contains(m),
    ensures
        b.contains(m),
{
    let i = choose|i: int| 0 <= i < a.len() && a[i] == m;
    assert(b[i] == m);
}

proof fn lemma_sq_has(n: int, j: int)
    requires
        0 <= n < 64,
        0 <= j < 64,
        has_sq(sq(n), j),
    ensures
        j == n,
{
    let x = n as u64;
    let y = j as u64;
    assert(x == y) by (bit_vector)
        requires
            x < 64,
            y < 64,
            ((1u64 << x) >> y) & 1u64 == 1u64,
    ;
}

/// Every square of a ray lies strictly ahead of where it starts.
proof fn lemma_ray_ahead(row: int, col: int, dr: int, dc: int, occ: u64, fuel: nat, j: int)
    requires
        on_board(row, col),
        -1 <= dr <= 1,
        -1 <= dc <= 1,
        dr != 0 || dc != 0,
        0 <= j < 64,
        has_sq(ray_walk(row, col, dr, dc, occ, fuel), j),
    ensures
        (j / 8 - row) * dr + (j % 8 - col) * dc > 0,
    decreases fuel,
{
    if fuel == 0 || !on_board(row + dr, col + dc) {
        crate::utility::lemma_zero_iff_empty(0);
    } else {
        let n = (row + dr) * 8 + col + dc;
        let b = sq(n);
        let rest = ray_walk(row + dr, col + dc, dr, dc, occ, (fuel - 1) as nat);
        crate::utility::lemma_square_ops(b, rest);
        if has_sq(b, j) {
            lemma_sq_has(n, j);
            assert(j / 8 == row + dr && j % 8 == col + dc);
            assert(dr * dr + dc * dc > 0) by (nonlinear_arith)
                requires
                    -1 <= dr <= 1,
                    -1 <= dc <= 1,
                    dr != 0 || dc != 0,
            ;
        } else {
            assert(has_sq(rest, j));
            lemma_ray_ahead(row + dr, col + dc, dr, dc, occ, (fuel - 1) as nat, j);
            assert((j / 8 - row) * dr + (j % 8 - col) * dc == (j / 8 - row - dr) * dr + (j % 8 - col
                - dc) * dc + dr * dr + dc * dc) by (nonlinear_arith);
            assert(dr * dr + dc * dc > 0) by (nonlinear_arith)
                requires
                    -1 <= dr <= 1,
                    -1 <= dc <= 1,
                    dr != 0 || dc != 0,
            ;
        }
    }
}

/// A slider never attacks its own square.
pub proof fn lemma_attack_excludes_origin(kind: Slider, s: int, occ: u64)
    requires
        0 <= s < 64,
    ensures
        !has_sq(slider_attack(kind, s, occ), s),
{
    let r0 = ray_of(kind, s, 0, occ);
    let r1 = ray_of(kind, s, 1, occ);
    let r2 = ray_of(kind, s, 2, occ);
    let r3 = ray_of(kind, s, 3, occ);
    crate::utility::lemma_square_ops(r0, r1);
    crate::utility::lemma_square_ops(r0 | r1, r2);
    crate::utility::lemma_square_ops(r0 | r1 | r2, r3);
    if has_sq(r0, s) {
        lemma_ray_ahead(s / 8, s % 8, step(kind, 0).0, step(kind, 0).1, occ, 7, s);
    }
    if has_sq(r1, s) {
        lemma_ray_ahead(s / 8, s % 8, step(kind, 1).0, step(kind, 1).1, occ, 7, s);
    }
    if has_sq(r2, s) {
        lemma_ray_ahead(s / 8, s % 8, step(kind, 2).0, step(kind, 2).1, occ, 7, s);
    }
    if has_sq(r3, s) {
        lemma_ray_ahead(s / 8, s % 8, step(kind, 3).0, step(kind, 3).1, occ, 7, s);
    }
}

/// The king itself is never pinned: no pin keeps it from any square.
pub proof fn lemma_king_unpinned(bb: Bitboard, color: u8, t: int)
    requires
        king_square_spec(bb, color) < 64,
    ensures
        pin_allows(bb, color, king_square_spec(bb, color), t),
{
    let k = king_square_spec(bb, color);
    assert forall|p: int, kind: Slider| !#[trigger] pinned_spec(bb, color, k, p, kind) by {
        if pinned_spec(bb, color, k, p, kind) {
            lemma_sq_single(k);
            lemma_and_has(between_spec(kind, k, p), occupancy(bb), k);
            lemma_and_has(slider_attack(kind, k, sq(p)), slider_attack(kind, p, sq(k)), k);
            lemma_attack_excludes_origin(kind, k, sq(p));
        }
    }
}

/// Castling: a two-square move of the king of the side to move is legal
/// exactly when the castling conditions hold (right held, path empty, king not
/// in check, crossed and landing squares not attacked), for a castle that
/// leaves the king unattacked once played.
pub proof fn lemma_castle_iff(cb: Chessboard, m: Move)
    requires
        m.start_index < 64,
        m.end_index < 64,
        m.start_index == king_square_spec(cb.bitboard, turn(cb.bitboard)),
        kind_at(cb.bitboard, m.start_index as int) == KING_ID,
        has_sq(color_board(cb.bitboard, turn(cb.bitboard)), m.start_index as int),
        m.end_index == m.start_index + 2 || m.end_index + 2 == m.start_index,
        m.promotion_piece == 0,
        !in_check_spec(after_spec(cb, m), turn(cb.bitboard)),
    ensures
        legal_spec(cb, m) <==> castle_ok(
            cb.bitboard,
            turn(cb.bitboard),
            m.start_index as int,
            m.end_index as int,
        ),
{
    lemma_king_unpinned(cb.bitboard, turn(cb.bitboard), m.end_index as int);
    if legal_spec(cb, m) {
        lemma_candidate_shape(cb, m);
    }
}

/// A move from `q` to `t` with a promotion not yet listed since `a` is new
/// in `b`, when `a` held no move from `q` to `t`.
proof fn lemma_fresh(a: Seq<Move>, b: Seq<Move>, q: u32, t: u32, m: Move)
    requires
        is_prefix(a, b),
        forall|i: int| 0 <= i < a.len() ==> !((#[trigger] a[i]).start_index == q && a[i].end_index == t),
        forall|i: int| a.len() <= i < b.len() ==> (#[trigger] b[i]).start_index == q && b[i].end_index == t
            && b[i].promotion_piece != m.promotion_piece,
        m.start_index == q,
        m.end_index == t,
    ensures
        !b.contains(m),
{
    if b.contains(m) {
        let i = choose|i: int| 0 <= i < b.len() && b[i] == m;
        if i < a.len() {
            assert(a[i] == m);
        }
    }
}

proof fn lemma_full_board()
    ensures
        forall|t: int| 0 <= t < 64 ==> #[trigger] has_sq(!0u64, t),
{
    crate::utility::lemma_square_ops(0, 0);
    crate::utility::lemma_zero_iff_empty(0);
}

impl Chessboard {
    /// Where the piece of `color` on `q` may go before king safety is weighed,
    /// castling aside.
    fn piece_targets(&self, tables: &AttackTables, q: u32, color: u8, enemy: u64) -> (r: u64)
        requires
            tables.wf(),
            q < 64,
            enemy == enemy_attacks(self.bitboard, color),
        ensures
            r == targets_spec(self.bitboard, q as int, color),
    {
        let bb = &self.bitboard;
        let own = bb.get_color_board(color);
        let theirs = bb.get_color_board(opposite_of(color));
        let occ = bb.white_board | bb.black_board;
        let b = 1u64 << (q as u64);
        let k = kind_of(bb, q);
        let reach = if k == PAWN_ID {
            let ep_target = if bb.en_passant == 0 {
                0u64
            } else {
                let col = bb.en_passant.trailing_zeros();
                proof {
                    vstd::std_specs::bits::axiom_u8_trailing_zeros(bb.en_passant);
                }
                let row: u32 = if color == WHITE_ID {
                    2
                } else {
                    5
                };
                1u64 << ((row * 8 + col) as u64)
            };
            generate_pawn_moves(b, occ, color) | (generate_pawn_attacks(b, color) & (theirs
                | ep_target))
        } else if k == KING_ID {
            generate_king_moves(b) & !enemy
        } else {
            self.piece_attack(tables, q, color)
        };
        reach & !own
    }

    /// Whether the king of `color` on `q` may castle king-side and queen-side.
    fn castle_sides(&self, q: u32, color: u8, enemy: u64) -> (r: (bool, bool))
        requires
            q < 64,
            enemy == enemy_attacks(self.bitboard, color),
        ensures
            r.0 == (q + 2 < 64 && castle_ok(self.bitboard, color, q as int, q + 2)),
            r.1 == (q >= 2 && castle_ok(self.bitboard, color, q as int, q - 2)),
    {
        let bb = &self.bitboard;
        let occ = bb.white_board | bb.black_board;
        let f = bb.flags;
        let free = |i: u64| -> (e: bool)
            requires
                i < 64,
            ensures
                e == !has_sq(occ, i as int),
            { (occ >> i) & 1 != 1 };
        let safe = |i: u64| -> (e: bool)
            requires
                i < 64,
            ensures
                e == !has_sq(enemy, i as int),
            { (enemy >> i) & 1 != 1 };
        if color == WHITE_ID && q == 60 {
            let king_side = (f >> 3) & 1 == 1 && free(61) && free(62) && safe(60) && safe(61) && safe(
                62,
            );
            let queen_side = (f >> 2) & 1 == 1 && free(57) && free(58) && free(59) && safe(60)
                && safe(59) && safe(58);
            (king_side, queen_side)
        } else if color == BLACK_ID && q == 4 {
            let king_side = (f >> 1) & 1 == 1 && free(5) && free(6) && safe(4) && safe(5) && safe(6);
            let queen_side = f & 1 == 1 && free(1) && free(2) && free(3) && safe(4) && safe(3)
                && safe(2);
            (king_side, queen_side)
        } else {
            (false, false)
        }
    }

    /// Lists `move_` when it leaves no king of the side to move attacked.
    fn push_if_safe(&self, tables: &AttackTables, move_: Move, out: &mut Vec<Move>)
        requires
            tables.wf(),
            candidate(self.bitboard, move_),
            forall|i: int| 0 <= i < old(out).len() ==> legal_spec(*self, #[trigger] old(out)[i]),
            old(out)@.no_duplicates(),
            !old(out)@.contains(move_),
        ensures
            forall|i: int| 0 <= i < final(out).len() ==> legal_spec(*self, #[trigger] final(out)[i]),
            final(out)@.no_duplicates(),
            !in_check_spec(after_spec(*self, move_), turn(self.bitboard)) ==> final(out)@ == old(out)@.push(move_),
            in_check_spec(after_spec(*self, move_), turn(self.bitboard)) ==> final(out)@ == old(out)@,
            is_prefix(old(out)@, final(out)@),
    {
        let color = self.current_turn();
        let mut next = *self;
        next.make_move_unchecked(move_);
        if !next.bitboard.is_in_check(tables, color) {
            let ghost before = out@;
            out.push(move_);
            proof {
                assert forall|i: int, j: int|
                    0 <= i < out@.len() && 0 <= j < out@.len() && i != j implies out@[i] != out@[j] by {
                    if i < before.len() && j < before.len() {
                    } else if i < before.len() {
                        assert(before.contains(before[i]));
                    } else {
                        assert(before.contains(before[j]));
                    }
                }
            }
        }
    }

    /// Lists the safe moves from `q` to `t`: the four promotions when a pawn
    /// reaches its last rank, the plain move otherwise.
    #[verifier::rlimit(60)]
    fn push_moves_to(&self, tables: &AttackTables, q: u32, t: u32, out: &mut Vec<Move>)
        requires
            tables.wf(),
            q < 64,
            t < 64,
            has_sq(color_board(self.bitboard, turn(self.bitboard)), q as int),
            !double_check_spec(self.bitboard, turn(self.bitboard)) || q == king_square_spec(
                self.bitboard,
                turn(self.bitboard),
            ),
            pin_allows(self.bitboard, turn(self.bitboard), q as int, t as int),
            has_sq(targets_spec(self.bitboard, q as int, turn(self.bitboard)), t as int),
            forall|i: int| 0 <= i < old(out).len() ==> legal_spec(*self, #[trigger] old(out)[i]),
            old(out)@.no_duplicates(),
            forall|i: int|
                0 <= i < old(out).len() ==> !((#[trigger] old(out)[i]).start_index == q
                    && old(out)[i].end_index == t),
        ensures
            forall|i: int| 0 <= i < final(out).len() ==> legal_spec(*self, #[trigger] final(out)[i]),
            is_prefix(old(out)@, final(out)@),
            final(out)@.no_duplicates(),
            forall|i: int|
                old(out).len() <= i < final(out).len() ==> (#[trigger] final(out)[i]).start_index == q
                    && final(out)[i].end_index == t,
            forall|m: Move|
                m.start_index == q && m.end_index == t && legal_spec(*self, m) ==> final(out)@.contains(m),
    {
        let color = self.current_turn();
        let kind = kind_of(&self.bitboard, q);
        let last_rank = if color == WHITE_ID {
            t < 8
        } else {
            t >= 56
        };
        let ghost o0 = out@;
        if kind == PAWN_ID && last_rank {
            proof {
                lemma_fresh(o0, o0, q, t, Move { start_index: q, end_index: t, promotion_piece: QUEEN_ID });
            }
            self.push_if_safe(tables, Move::new(q, t, QUEEN_ID), out);
            let ghost o1 = out@;
            proof {
                lemma_fresh(o0, o1, q, t, Move { start_index: q, end_index: t, promotion_piece: ROOK_ID });
            }
            self.push_if_safe(tables, Move::new(q, t, ROOK_ID), out);
            let ghost o2 = out@;
            proof {
                lemma_fresh(o0, o2, q, t, Move { start_index: q, end_index: t, promotion_piece: BISHOP_ID });
            }
            self.push_if_safe(tables, Move::new(q, t, BISHOP_ID), out);
            let ghost o3 = out@;
            proof {
                lemma_fresh(o0, o3, q, t, Move { start_index: q, end_index: t, promotion_piece: KNIGHT_ID });
            }
            self.push_if_safe(tables, Move::new(q, t, KNIGHT_ID), out);
            proof {
                assert forall|m: Move|
                    m.start_index == q && m.end_index == t && legal_spec(*self, m) implies out@.contains(
                    m,
                ) by {
                    assert(promotes(self.bitboard, m));
                    if m.promotion_piece == QUEEN_ID {
                        assert(o1[o1.len() - 1] == m);
                        lemma_prefix_contains(o1, o2, m);
                        lemma_prefix_contains(o2, o3, m);
                        lemma_prefix_contains(o3, out@, m);
                    } else if m.promotion_piece == ROOK_ID {
                        assert(o2[o2.len() - 1] == m);
                        lemma_prefix_contains(o2, o3, m);
                        lemma_prefix_contains(o3, out@, m);
                    } else if m.promotion_piece == BISHOP_ID {
                        assert(o3[o3.len() - 1] == m);
                        lemma_prefix_contains(o3, out@, m);
                    } else {
                        assert(out@[out@.len() - 1] == m);
                    }
                }
                assert(is_prefix(o0, out@));
            }
        } else {
            proof {
                lemma_fresh(o0, o0, q, t, Move { start_index: q, end_index: t, promotion_piece: 0 });
            }
            self.push_if_safe(tables, Move::new_no_promotion(q, t), out);
            proof {
                assert forall|m: Move|
                    m.start_index == q && m.end_index == t && legal_spec(*self, m) implies out@.contains(
                    m,
                ) by {
                    assert(!promotes(self.bitboard, m));
                    assert(m == (Move { start_index: q, end_index: t, promotion_piece: 0 }));
                    assert(out@[out@.len() - 1] == m);
                }
            }
        }
    }

    /// The legal moves of the side to move: exactly the candidates (see
    /// `candidate`) that leave no king of the mover attacked. The generator
    /// works on masks: in double check only the king moves, pinned pieces
    /// stay on their pinning ray, kings avoid attacked squares and castle only
    /// under the castling conditions; then every candidate is played on a copy
    /// and kept only if it leaves no king of the mover attacked.
    pub fn compute_legal_moves(&self, tables: &AttackTables) -> (r: Vec<Move>)
        requires
            tables.wf(),
        ensures
            forall|i: int| 0 <= i < r.len() ==> legal_spec(*self, #[trigger] r[i]),
            forall|i: int| 0 <= i < r.len() ==> legal_move_props(*self, #[trigger] r[i]),
            forall|m: Move| legal_spec(*self, m) ==> r@.contains(m),
            r@.no_duplicates(),
            r@.to_set() == legal_set(*self),
            r.len() == legal_set(*self).len(),
            legal_set(*self).finite(),
    {
        let bb = &self.bitboard;
        let color = self.current_turn();
        let own = bb.get_color_board(color);
        let enemy = bb.attacked_by(tables, opposite_of(color));
        let kings = bb.king_board & own;
        let ksq = kings.trailing_zeros();
        proof {
            vstd::std_specs::bits::axiom_u64_trailing_zeros(kings);
            lemma_full_board();
        }
        let double = if ksq < 64 {
            self.is_double_check(tables, color, ksq)
        } else {
            false
        };
        let pins: [u64; 64] = if ksq < 64 {
            self.pin_masks(tables, color, ksq)
        } else {
            [!0u64; 64]
        };
        let mut moves: Vec<Move> = Vec::new();
        let mut q: u32 = 0;
        while q < 64
            invariant
                tables.wf(),
                color == turn(self.bitboard),
                own == color_board(self.bitboard, color),
                enemy == enemy_attacks(self.bitboard, color),
                ksq == king_square_spec(self.bitboard, color),
                double == double_check_spec(self.bitboard, color),
                forall|o: int, p: int, kind: Slider|
                    0 <= o < 64 && #[trigger] pinned_spec(self.bitboard, color, o, p, kind) ==> is_subset(
                        pins@[o],
                        pin_ray(kind, ksq as int, p),
                    ),
                forall|o: int, t: int|
                    0 <= o < 64 && 0 <= t < 64 && pin_allows(self.bitboard, color, o, t) ==> #[trigger] has_sq(pins@[o], t),
                q <= 64,
                forall|i: int| 0 <= i < moves.len() ==> legal_spec(*self, #[trigger] moves[i]),
                forall|m: Move| m.start_index < q && legal_spec(*self, m) ==> moves@.contains(m),
                moves@.no_duplicates(),
                forall|i: int| 0 <= i < moves.len() ==> (#[trigger] moves[i]).start_index < q,
            decreases 64 - q,
        {
            if (own >> (q as u64)) & 1 == 1 && (!double || q == ksq) {
                let kind = kind_of(&self.bitboard, q);
                let targets = self.piece_targets(tables, q, color, enemy) & pins[q as usize];
                let ends = get_indices_of_ones(targets);
                let mut j: usize = 0;
                while j < ends.len()
                    invariant
                        tables.wf(),
                        q < 64,
                        color == turn(self.bitboard),
                        own == color_board(self.bitboard, color),
                        has_sq(own, q as int),
                        double ==> q == ksq,
                        kind == kind_at(self.bitboard, q as int),
                        ksq == king_square_spec(self.bitboard, color),
                        double == double_check_spec(self.bitboard, color),
                        enemy == enemy_attacks(self.bitboard, color),
                        targets == targets_spec(self.bitboard, q as int, color) & pins@[q as int],
                        forall|o: int, p: int, k: Slider|
                            0 <= o < 64 && #[trigger] pinned_spec(self.bitboard, color, o, p, k) ==> is_subset(
                                pins@[o],
                                pin_ray(k, ksq as int, p),
                            ),
                        forall|o: int, t: int|
                            0 <= o < 64 && 0 <= t < 64 && pin_allows(self.bitboard, color, o, t) ==> #[trigger] has_sq(pins@[o], t),
                        forall|k: int| 0 <= k < ends.len() ==> ends[k] < 64 && has_sq(targets, ends[k] as int),
                        forall|k: int, l: int| 0 <= k < l < ends.len() ==> ends[k] < ends[l],
                        forall|i: int| 0 <= i < moves.len() ==> legal_spec(*self, #[trigger] moves[i]),
                        forall|m: Move| m.start_index < q && legal_spec(*self, m) ==> moves@.contains(m),
                        forall|m: Move|
                            m.start_index == q && has_sq(targets_spec(self.bitboard, q as int, color), m.end_index as int)
                                && (exists|k: int| 0 <= k < j && ends[k] == m.end_index)
                                && legal_spec(*self, m) ==> moves@.contains(m),
                        j <= ends.len(),
                        moves@.no_duplicates(),
                        forall|i: int|
                            0 <= i < moves.len() ==> (#[trigger] moves[i]).start_index < q || (
                            moves[i].start_index == q && exists|k: int|
                                0 <= k < j && ends[k] == moves[i].end_index),
                    decreases ends.len() - j,
                {
                    let t = ends[j];
                    proof {
                        lemma_and_has(targets_spec(self.bitboard, q as int, color), pins@[q as int], t as int);
                        assert forall|p: int, k: Slider|
                            #[trigger] pinned_spec(self.bitboard, color, q as int, p, k) implies has_sq(
                            pin_ray(k, ksq as int, p),
                            t as int,
                        ) by {
                            lemma_subset_has(pins@[q as int], pin_ray(k, ksq as int, p), t as int);
                        }
                    }
                    let ghost before = moves@;
                    proof {
                        assert forall|i: int|
                            0 <= i < moves.len() implies !((#[trigger] moves[i]).start_index == q
                                && moves[i].end_index == t) by {
                            if moves[i].start_index == q {
                                let k = choose|k: int| 0 <= k < j && ends[k] == moves[i].end_index;
                                assert(ends[k] < ends[j as int]);
                            }
                        }
                    }
                    self.push_moves_to(tables, q, t, &mut moves);
                    proof {
                        assert forall|i: int|
                            0 <= i < moves.len() implies (#[trigger] moves[i]).start_index < q || (
                            moves[i].start_index == q && exists|k: int|
                                0 <= k < j + 1 && ends[k] == moves[i].end_index) by {
                            if i < before.len() {
                                assert(moves[i] == before[i]);
                                if before[i].start_index == q {
                                    let k = choose|k: int| 0 <= k < j && ends[k] == before[i].end_index;
                                    assert(ends[k] == moves[i].end_index);
                                }
                            } else {
                                assert(ends[j as int] == moves[i].end_index);
                            }
                        }
                        assert forall|m: Move| m.start_index < q && legal_spec(*self, m) implies moves@.contains(m) by {
                            lemma_prefix_contains(before, moves@, m);
                        }
                        assert forall|m: Move|
                            m.start_index == q && has_sq(targets_spec(self.bitboard, q as int, color), m.end_index as int)
                                && (exists|k: int| 0 <= k < j + 1 && ends[k] == m.end_index)
                                && legal_spec(*self, m) implies moves@.contains(m) by {
                            if m.end_index != t {
                                let k = choose|k: int| 0 <= k < j + 1 && ends[k] == m.end_index;
                                assert(k < j);
                                lemma_prefix_contains(before, moves@, m);
                            }
                        }
                    }
                    j = j + 1;
                }
                let ghost after_targets = moves@;
                proof {
                    assert forall|i: int|
                        0 <= i < moves.len() && (#[trigger] moves[i]).start_index == q && kind == KING_ID
                            implies crate::mailbox::abs_diff(q as int, moves[i].end_index as int) != 2 by {
                        let k = choose|k: int| 0 <= k < ends.len() && ends[k] == moves[i].end_index;
                        lemma_and_has(targets_spec(self.bitboard, q as int, color), pins@[q as int], ends[k] as int);
                        crate::utility::lemma_square_ops(king_spec(sq(q as int)), !enemy_attacks(self.bitboard, color));
                        crate::utility::lemma_square_ops(king_spec(sq(q as int)) & !enemy_attacks(self.bitboard, color), !own);
                        lemma_king_step(q as int, ends[k] as int);
                    }
                }
                if kind == KING_ID {
                    let (king_side, queen_side) = self.castle_sides(q, color, enemy);
                    let king_side_ok = king_side && (pins[q as usize] >> ((q + 2) as u64)) & 1 == 1;
                    if king_side_ok {
                        proof {
                            assert forall|p: int, k: Slider|
                                #[trigger] pinned_spec(self.bitboard, color, q as int, p, k) implies has_sq(
                                pin_ray(k, ksq as int, p),
                                q + 2,
                            ) by {
                                lemma_subset_has(pins@[q as int], pin_ray(k, ksq as int, p), q + 2);
                            }
                        }
                        proof {
                            if moves@.contains(Move { start_index: q, end_index: (q + 2) as u32, promotion_piece: 0 }) {
                                let i = choose|i: int| 0 <= i < moves.len() && moves@[i] == (Move { start_index: q, end_index: (q + 2) as u32, promotion_piece: 0 });
                                assert(moves[i].start_index == q);
                            }
                        }
                        self.push_if_safe(tables, Move::new_no_promotion(q, q + 2), &mut moves);
                    }
                    let ghost after_king_side = moves@;
                    let queen_side_ok = queen_side && (pins[q as usize] >> ((q - 2) as u64)) & 1 == 1;
                    if queen_side_ok {
                        proof {
                            assert forall|p: int, k: Slider|
                                #[trigger] pinned_spec(self.bitboard, color, q as int, p, k) implies has_sq(
                                pin_ray(k, ksq as int, p),
                                q - 2,
                            ) by {
                                lemma_subset_has(pins@[q as int], pin_ray(k, ksq as int, p), q - 2);
                            }
                        }
                        proof {
                            if moves@.contains(Move { start_index: q, end_index: (q - 2) as u32, promotion_piece: 0 }) {
                                let i = choose|i: int| 0 <= i < moves.len() && moves@[i] == (Move { start_index: q, end_index: (q - 2) as u32, promotion_piece: 0 });
                                assert(moves[i].start_index == q);
                                if i >= after_targets.len() {
                                    assert(moves[i].end_index == q + 2);
                                } else {
                                    assert(moves[i] == after_targets[i]);
                                }
                            }
                        }
                        self.push_if_safe(tables, Move::new_no_promotion(q, q - 2), &mut moves);
                    }
                    proof {
                        assert(is_prefix(after_targets, moves@));
                        assert forall|m: Move|
                            m.start_index == q && !has_sq(
                                targets_spec(self.bitboard, q as int, color),
                                m.end_index as int,
                            ) && legal_spec(*self, m) implies moves@.contains(m) by {
                            assert(has_sq(pins@[q as int], m.end_index as int));
                            if m.end_index == q + 2 {
                                assert(m == (Move { start_index: q, end_index: (q + 2) as u32, promotion_piece: 0 }));
                                assert(king_side_ok);
                                assert(after_king_side.contains(m)) by {
                                    assert(after_king_side[after_king_side.len() - 1] == m);
                                }
                                lemma_prefix_contains(after_king_side, moves@, m);
                            } else {
                                assert(m == (Move { start_index: q, end_index: (q - 2) as u32, promotion_piece: 0 }));
                                assert(queen_side_ok);
                                assert(moves@[moves@.len() - 1] == m);
                            }
                        }
                    }
                }
                proof {
                    assert(is_prefix(after_targets, moves@));
                    assert forall|m: Move| m.start_index < q + 1 && legal_spec(*self, m) implies moves@.contains(m) by {
                        if m.start_index < q {
                            lemma_prefix_contains(after_targets, moves@, m);
                        } else if has_sq(targets_spec(self.bitboard, q as int, color), m.end_index as int) {
                            crate::utility::lemma_square_ops(targets_spec(self.bitboard, q as int, color), pins@[q as int]);
                            assert(has_sq(targets, m.end_index as int));
                            assert(ends@.contains(m.end_index));
                            let k = choose|k: int| 0 <= k < ends.len() && ends@[k] == m.end_index;
                            assert(ends[k] == m.end_index);
                            lemma_prefix_contains(after_targets, moves@, m);
                        } else {
                            assert(kind == KING_ID);
                        }
                    }
                }
            }
            q = q + 1;
        }
        proof {
            assert forall|i: int| 0 <= i < moves.len() implies legal_move_props(*self, #[trigger] moves[i]) by {
                lemma_legal_props(*self, moves[i]);
            }
            assert forall|m: Move| moves@.to_set().contains(m) <==> legal_set(*self).contains(m) by {
                assert(legal_set(*self).contains(m) == legal_spec(*self, m));
                if moves@.contains(m) {
                    let i = choose|i: int| 0 <= i < moves.len() && moves@[i] == m;
                    assert(legal_spec(*self, moves[i]));
                }
            }
            assert(moves@.to_set() =~= legal_set(*self));
            moves@.unique_seq_to_set();
        }
        moves
    }
}

/// A FEN move counter: a decimal number that fits 32 bits.
pub open spec fn counter_spec(f: Seq<char>) -> Option<u32> {
    match decimal_value(f) {
        Some(v) => if v <= 0xffff_ffff {
            Some(v as u32)
        } else {
            None
        },
        None => None,
    }
}

/// What a whole FEN string decodes to: the position fields and the two
/// counters; or the first error.
pub open spec fn chess_fen_spec(fen: Seq<char>, sep: Seq<char>) -> Result<
    ((Seq<u8>, u8, u8, u8), u32, u32),
    FenError,
> {
    match fen_fields_spec(fen, sep) {
        Err(e) => Err(e),
        Ok(d) => {
            let f = split_spec(fen, sep);
            match (counter_spec(f[4]), counter_spec(f[5])) {
                (Some(half), Some(full)) => Ok((d, half, full)),
                _ => Err(FenError::Counter),
            }
        },
    }
}

/// The FEN string of a position, fields joined by `sep`.
pub open spec fn fen_spec(cb: Chessboard, sep: Seq<char>) -> Seq<char> {
    let bb = cb.bitboard;
    crate::bitboard::placement_fen_from(bb, 0, 0) + sep + crate::bitboard::turn_fen(bb) + sep
        + crate::bitboard::castle_fen(bb.flags) + sep + crate::bitboard::en_passant_fen(bb) + sep
        + decimal_spec(cb.halfmove_clock as nat) + sep + decimal_spec(cb.fullmove_number as nat)
}

/// The bitboards, mailbox codes, halfmove clock and fullmove number after
/// playing `moves` in order.
pub open spec fn replay(state: (Bitboard, Seq<u8>, u32, u32), moves: Seq<Move>) -> (
    Bitboard,
    Seq<u8>,
    u32,
    u32,
)
    decreases moves.len(),
{
    if moves.len() == 0 {
        state
    } else {
        let before = replay(state, moves.drop_last());
        let m = moves.last();
        let f = flags_spec(before.1, m);
        (
            bitboard_after(before.0, m, f),
            mailbox_after(before.1, m),
            halfmove_after(before.2, f),
            fullmove_after(before.3, f),
        )
    }
}

/// Where a piece may go with no regard to king safety: pawn pushes and
/// captures (en passant included), the piece's attacks otherwise, never onto
/// its own side.
pub open spec fn pseudo_targets_spec(bb: Bitboard, q: int, color: u8) -> u64 {
    let own = color_board(bb, color);
    let theirs = color_board(bb, opposite(color));
    (if kind_at(bb, q) == PAWN_ID {
        pawn_push_spec(sq(q), occupancy(bb), color) | (pawn_attack_spec(sq(q), color) & (theirs
            | en_passant_target_spec(bb, color)))
    } else {
        piece_attack_spec(bb, q, color)
    }) & !own
}

impl Chessboard {
    /// Reads a FEN string whose six fields are separated by `separator`.
    pub fn from_fen(fen: &str, separator: &str) -> (r: Result<Chessboard, FenError>)
        ensures
            match chess_fen_spec(fen@, separator@) {
                Err(e) => r == Err::<Chessboard, FenError>(e),
                Ok((d, half, full)) => r matches Ok(cb) && holds_fen(cb.bitboard, d) && cb.mailbox@
                    == d.0 && cb.halfmove_clock == half && cb.fullmove_number == full,
            },
            r matches Ok(cb) ==> cb.wf(),
    {
        let bitboard = match Bitboard::from_fen(fen, separator) {
            Ok(b) => b,
            Err(e) => {
                return Err(e);
            },
        };
        let mailbox = match MailboxBoard::from_fen(fen, separator) {
            Ok(m) => m,
            Err(e) => {
                return Err(e);
            },
        };
        let sep = str_chars(separator);
        let chars = str_chars(fen);
        let fields = split_fields(&chars, &sep);
        assert(fields[4]@ == split_spec(fen@, separator@)[4]);
        assert(fields[5]@ == split_spec(fen@, separator@)[5]);
        let halfmove_clock = match parse_decimal(&fields[4], 0xffff_ffff) {
            Some(v) => v,
            None => {
                return Err(FenError::Counter);
            },
        };
        let fullmove_number = match parse_decimal(&fields[5], 0xffff_ffff) {
            Some(v) => v,
            None => {
                return Err(FenError::Counter);
            },
        };
        Ok(Chessboard { bitboard, mailbox, halfmove_clock, fullmove_number })
    }

    /// The FEN string of the position, fields joined by `separator`.
    pub fn to_fen(&self, separator: &str) -> (r: String)
        ensures
            r@ == fen_spec(*self, separator@),
    {
        let parts = self.bitboard.to_fen();
        let mut s = String::new();
        s.append(crate::bitboard::fen_field(&parts, 0).as_str());
        s.append(separator);
        s.append(crate::bitboard::fen_field(&parts, 1).as_str());
        s.append(separator);
        s.append(crate::bitboard::fen_field(&parts, 2).as_str());
        s.append(separator);
        s.append(crate::bitboard::fen_field(&parts, 3).as_str());
        s.append(separator);
        push_decimal(&mut s, self.halfmove_clock as u64);
        s.append(separator);
        push_decimal(&mut s, self.fullmove_number as u64);
        assert(s@ =~= fen_spec(*self, separator@));
        s
    }

    /// The position reached by playing `moves` from the FEN string `fen`.
    pub fn from_moves(fen: &str, moves: Vec<Move>) -> (r: Result<Chessboard, FenError>)
        requires
            forall|i: int|
                0 <= i < moves.len() ==> (#[trigger] moves[i]).start_index < 64 && moves[i].end_index
                    < 64,
        ensures
            match chess_fen_spec(fen@, seq![' ']) {
                Err(e) => r == Err::<Chessboard, FenError>(e),
                Ok((d, half, full)) => r matches Ok(cb) && exists|b: Bitboard|
                    holds_fen(b, d) && (cb.bitboard, cb.mailbox@, cb.halfmove_clock, cb.fullmove_number)
                        == replay((b, d.0, half, full), moves@),
            },
    {
        let mut board = match Chessboard::from_fen(fen, " ") {
            Ok(b) => b,
            Err(e) => {
                proof {
                    reveal_strlit(" ");
                    assert(" "@ =~= seq![' ']);
                }
                return Err(e);
            },
        };
        proof {
            reveal_strlit(" ");
            assert(" "@ =~= seq![' ']);
        }
        let ghost start_board = board;
        let ghost start = (board.bitboard, board.mailbox@, board.halfmove_clock, board.fullmove_number);
        let mut i: usize = 0;
        while i < moves.len()
            invariant
                i <= moves.len(),
                forall|k: int|
                    0 <= k < moves.len() ==> (#[trigger] moves[k]).start_index < 64
                        && moves[k].end_index < 64,
                (board.bitboard, board.mailbox@, board.halfmove_clock, board.fullmove_number) == replay(
                    start,
                    moves@.subrange(0, i as int),
                ),
                start == (start_board.bitboard, start_board.mailbox@, start_board.halfmove_clock, start_board.fullmove_number),
            decreases moves.len() - i,
        {
            board.make_move_unchecked(moves[i]);
            assert(moves@.subrange(0, i + 1).drop_last() =~= moves@.subrange(0, i as int));
            i = i + 1;
        }
        assert(moves@.subrange(0, moves.len() as int) =~= moves@);
        proof {
            match chess_fen_spec(fen@, seq![' ']) {
                Ok((d, half, full)) => {
                    assert(holds_fen(start_board.bitboard, d));
                    assert(start_board.mailbox@ == d.0);
                },
                Err(_) => {},
            }
        }
        Ok(board)
    }

    /// The moves `(start_index, t)` for every square `t` of `piece_moves`, in
    /// ascending order of `t`.
    pub fn unpack_moves(start_index: u32, piece_moves: u64) -> (r: Vec<Move>)
        ensures
            forall|i: int|
                0 <= i < r.len() ==> (#[trigger] r[i]).start_index == start_index && r[i].end_index
                    < 64 && r[i].promotion_piece == 0 && has_sq(piece_moves, r[i].end_index as int),
            forall|t: int|
                0 <= t < 64 && has_sq(piece_moves, t) ==> exists|i: int|
                    0 <= i < r.len() && (#[trigger] r[i]).end_index == t,
            forall|i: int, j: int| 0 <= i < j < r.len() ==> r[i].end_index < r[j].end_index,
    {
        let ends = get_indices_of_ones(piece_moves);
        let mut moves: Vec<Move> = Vec::new();
        let mut k: usize = 0;
        while k < ends.len()
            invariant
                k <= ends.len(),
                moves.len() == k,
                forall|j: int| 0 <= j < ends.len() ==> ends[j] < 64 && has_sq(piece_moves, ends[j] as int),
                forall|i: int|
                    0 <= i < k ==> #[trigger] moves[i] == (Move {
                        start_index,
                        end_index: ends[i],
                        promotion_piece: 0,
                    }),
            decreases ends.len() - k,
        {
            moves.push(Move::new_no_promotion(start_index, ends[k]));
            k = k + 1;
        }
        proof {
            assert forall|t: int| 0 <= t < 64 && has_sq(piece_moves, t) implies exists|i: int|
                0 <= i < moves.len() && (#[trigger] moves[i]).end_index == t by {
                assert(ends@.contains(t as u32));
                let i = choose|i: int| 0 <= i < ends.len() && ends@[i] == t as u32;
                assert(moves[i].end_index == t);
            }
            assert forall|i: int, j: int| 0 <= i < j < moves.len() implies moves[i].end_index
                < moves[j].end_index by {
                assert(moves[i] == (Move { start_index, end_index: ends[i], promotion_piece: 0 }));
                assert(moves[j] == (Move { start_index, end_index: ends[j], promotion_piece: 0 }));
            }
        }
        moves
    }

    /// The moves of the pieces of `color` with no regard to king safety.
    pub fn pseudo_legal_moves(&self, tables: &AttackTables, color: u8) -> (r: Vec<Move>)
        requires
            tables.wf(),
        ensures
            forall|i: int|
                0 <= i < r.len() ==> (#[trigger] r[i]).start_index < 64 && has_sq(
                    color_board(self.bitboard, color),
                    r[i].start_index as int,
                ) && has_sq(
                    pseudo_targets_spec(self.bitboard, r[i].start_index as int, color),
                    r[i].end_index as int,
                ),
            forall|q: int, t: int|
                0 <= q < 64 && 0 <= t < 64 && has_sq(color_board(self.bitboard, color), q) && has_sq(
                    pseudo_targets_spec(self.bitboard, q, color),
                    t,
                ) ==> exists|i: int|
                    0 <= i < r.len() && (#[trigger] r[i]).start_index == q && r[i].end_index == t,
    {
        let bb = &self.bitboard;
        let own = bb.get_color_board(color);
        let theirs = bb.get_color_board(opposite_of(color));
        let occ = bb.white_board | bb.black_board;
        let mut moves: Vec<Move> = Vec::new();
        let mut q: u32 = 0;
        while q < 64
            invariant
                tables.wf(),
                q <= 64,
                own == color_board(self.bitboard, color),
                theirs == color_board(self.bitboard, opposite(color)),
                occ == occupancy(self.bitboard),
                forall|i: int|
                    0 <= i < moves.len() ==> (#[trigger] moves[i]).start_index < q && has_sq(
                        own,
                        moves[i].start_index as int,
                    ) && has_sq(
                        pseudo_targets_spec(self.bitboard, moves[i].start_index as int, color),
                        moves[i].end_index as int,
                    ),
                forall|o: int, t: int|
                    0 <= o < q && 0 <= t < 64 && has_sq(own, o) && has_sq(
                        pseudo_targets_spec(self.bitboard, o, color),
                        t,
                    ) ==> exists|i: int|
                        0 <= i < moves.len() && (#[trigger] moves[i]).start_index == o
                            && moves[i].end_index == t,
            decreases 64 - q,
        {
            if (own >> (q as u64)) & 1 == 1 {
                let b = 1u64 << (q as u64);
                let reach = if kind_of(&self.bitboard, q) == PAWN_ID {
                    let ep_target = if self.bitboard.en_passant == 0 {
                        0u64
                    } else {
                        let col = self.bitboard.en_passant.trailing_zeros();
                        proof {
                            vstd::std_specs::bits::axiom_u8_trailing_zeros(self.bitboard.en_passant);
                        }
                        let row: u32 = if color == WHITE_ID {
                            2
                        } else {
                            5
                        };
                        1u64 << ((row * 8 + col) as u64)
                    };
                    generate_pawn_moves(b, occ, color) | (generate_pawn_attacks(b, color) & (theirs
                        | ep_target))
                } else {
                    self.piece_attack(tables, q, color)
                };
                let unpacked = Self::unpack_moves(q, reach & !own);
                let ghost before = moves@;
                let mut k: usize = 0;
                while k < unpacked.len()
                    invariant
                        k <= unpacked.len(),
                        q < 64,
                        has_sq(own, q as int),
                        own == color_board(self.bitboard, color),
                        reach & !own == pseudo_targets_spec(self.bitboard, q as int, color),
                        moves@.len() == before.len() + k,
                        forall|i: int| 0 <= i < before.len() ==> moves@[i] == before[i],
                        forall|i: int| 0 <= i < k ==> moves@[before.len() + i] == unpacked@[i],
                        forall|i: int|
                            0 <= i < unpacked.len() ==> (#[trigger] unpacked[i]).start_index == q
                                && unpacked[i].end_index < 64 && has_sq(
                                reach & !own,
                                unpacked[i].end_index as int,
                            ),
                        forall|i: int|
                            0 <= i < before.len() ==> (#[trigger] before[i]).start_index < q && has_sq(
                                own,
                                before[i].start_index as int,
                            ) && has_sq(
                                pseudo_targets_spec(self.bitboard, before[i].start_index as int, color),
                                before[i].end_index as int,
                            ),
                    decreases unpacked.len() - k,
                {
                    moves.push(unpacked[k]);
                    k = k + 1;
                }
                proof {
                    assert forall|i: int|
                        0 <= i < moves.len() implies (#[trigger] moves[i]).start_index < q + 1 && has_sq(
                            own,
                            moves[i].start_index as int,
                        ) && has_sq(
                            pseudo_targets_spec(self.bitboard, moves[i].start_index as int, color),
                            moves[i].end_index as int,
                        ) by {
                        if i >= before.len() {
                            assert(moves@[i] == unpacked@[i - before.len()]);
                        } else {
                            assert(moves@[i] == before[i]);
                        }
                    }
                    assert forall|o: int, t: int|
                        0 <= o < q + 1 && 0 <= t < 64 && has_sq(own, o) && has_sq(
                            pseudo_targets_spec(self.bitboard, o, color),
                            t,
                        ) implies exists|i: int|
                        0 <= i < moves.len() && (#[trigger] moves[i]).start_index == o
                            && moves[i].end_index == t by {
                        if o == q {
                            let i = choose|i: int| 0 <= i < unpacked.len() && (#[trigger] unpacked[i]).end_index == t;
                            assert(moves@[before.len() + i] == unpacked@[i]);
                            assert(moves[before.len() + i].start_index == o);
                        } else {
                            let i = choose|i: int|
                                0 <= i < before.len() && (#[trigger] before[i]).start_index == o
                                    && before[i].end_index == t;
                            assert(moves@[i] == before[i]);
                        }
                    }
                }
            }
            q = q + 1;
        }
        moves
    }

    /// Whether a king of `color` stands on a square the other side attacks.
    pub fn is_in_check(&self, tables: &AttackTables, color: u8) -> (r: bool)
        requires
            tables.wf(),
        ensures
            r == in_check_spec(self.bitboard, color),
    {
        self.bitboard.is_in_check(tables, color)
    }

    /// Whether the side to move has a legal move.
    pub fn exists_legal_moves(&self, tables: &AttackTables) -> (r: bool)
        requires
            tables.wf(),
        ensures
            r == exists|m: Move| legal_spec(*self, m),
    {
        let moves = self.compute_legal_moves(tables);
        if moves.len() > 0 {
            assert(legal_spec(*self, moves[0]));
            true
        } else {
            assert forall|m: Move| !legal_spec(*self, m) by {
                if legal_spec(*self, m) {
                    assert(moves@.contains(m));
                }
            }
            false
        }
    }

    /// The side to move is in check and has no legal move.
    pub fn is_checkmate(&self, tables: &AttackTables) -> (r: bool)
        requires
            tables.wf(),
        ensures
            r == (in_check_spec(self.bitboard, turn(self.bitboard)) && !exists|m: Move|
                legal_spec(*self, m)),
    {
        let color = self.current_turn();
        self.is_in_check(tables, color) && !self.exists_legal_moves(tables)
    }

    /// The side to move is not in check and has no legal move.
    pub fn is_stalemate(&self, tables: &AttackTables) -> (r: bool)
        requires
            tables.wf(),
        ensures
            r == (!in_check_spec(self.bitboard, turn(self.bitboard)) && !exists|m: Move|
                legal_spec(*self, m)),
    {
        let color = self.current_turn();
        !self.is_in_check(tables, color) && !self.exists_legal_moves(tables)
    }

    /// Whether the other side attacks a square the king of `color` would
    /// stand on or cross while castling by `move_`.
    pub fn is_castle_in_check(&self, tables: &AttackTables, move_: Move, color: u8) -> (r: bool)
        requires
            tables.wf(),
            move_.start_index < 64,
            move_.end_index < 64,
        ensures
            r == (exists|k: int|
                0 <= k < 64 && ((move_.start_index <= k <= move_.end_index) || (move_.end_index <= k
                    <= move_.start_index)) && #[trigger] has_sq(attacked_spec(self.bitboard, opposite(color)), k)),
    {
        self.bitboard.is_castle_in_check(tables, move_, color)
    }
}


/// A mailbox code: empty, or a piece kind 1-6 of color 0 or 1.
pub open spec fn valid_code(e: u8) -> bool {
    e == 0 || (1 <= e % 8 <= 6 && e / 8 <= 1)
}

proof fn lemma_remove_boards(bb: Bitboard, p: u8, c: u8, i: int, b2: Bitboard)
    requires
        0 <= i < 64,
        b2 == crate::bitboard::remove_spec(bb, p, c, i),
    ensures
        forall|j: int|
            0 <= j < 64 ==> {
                &&& (#[trigger] has_sq(b2.pawn_board, j) <==> has_sq(bb.pawn_board, j) && !(p == PAWN_ID && j == i))
                &&& (has_sq(b2.knight_board, j) <==> has_sq(bb.knight_board, j) && !(p == KNIGHT_ID && j == i))
                &&& (has_sq(b2.bishop_board, j) <==> has_sq(bb.bishop_board, j) && !(p == BISHOP_ID && j == i))
                &&& (has_sq(b2.rook_board, j) <==> has_sq(bb.rook_board, j) && !(p == ROOK_ID && j == i))
                &&& (has_sq(b2.queen_board, j) <==> has_sq(bb.queen_board, j) && !(p == QUEEN_ID && j == i))
                &&& (has_sq(b2.king_board, j) <==> has_sq(bb.king_board, j) && !(p == KING_ID && j == i))
                &&& (has_sq(b2.white_board, j) <==> has_sq(bb.white_board, j) && !(c == WHITE_ID && j == i))
                &&& (has_sq(b2.black_board, j) <==> has_sq(bb.black_board, j) && !(c == BLACK_ID && j == i))
            },
{
    crate::utility::lemma_clear_square(bb.pawn_board, i);
    crate::utility::lemma_clear_square(bb.knight_board, i);
    crate::utility::lemma_clear_square(bb.bishop_board, i);
    crate::utility::lemma_clear_square(bb.rook_board, i);
    crate::utility::lemma_clear_square(bb.queen_board, i);
    crate::utility::lemma_clear_square(bb.king_board, i);
    crate::utility::lemma_clear_square(bb.white_board, i);
    crate::utility::lemma_clear_square(bb.black_board, i);
}

proof fn lemma_add_boards(bb: Bitboard, p: u8, c: u8, i: int, b2: Bitboard)
    requires
        0 <= i < 64,
        b2 == crate::bitboard::add_spec(bb, p, c, i),
    ensures
        forall|j: int|
            0 <= j < 64 ==> {
                &&& (#[trigger] has_sq(b2.pawn_board, j) <==> has_sq(bb.pawn_board, j) || (p == PAWN_ID && j == i))
                &&& (has_sq(b2.knight_board, j) <==> has_sq(bb.knight_board, j) || (p == KNIGHT_ID && j == i))
                &&& (has_sq(b2.bishop_board, j) <==> has_sq(bb.bishop_board, j) || (p == BISHOP_ID && j == i))
                &&& (has_sq(b2.rook_board, j) <==> has_sq(bb.rook_board, j) || (p == ROOK_ID && j == i))
                &&& (has_sq(b2.queen_board, j) <==> has_sq(bb.queen_board, j) || (p == QUEEN_ID && j == i))
                &&& (has_sq(b2.king_board, j) <==> has_sq(bb.king_board, j) || (p == KING_ID && j == i))
                &&& (has_sq(b2.white_board, j) <==> has_sq(bb.white_board, j) || (c == WHITE_ID && j == i))
                &&& (has_sq(b2.black_board, j) <==> has_sq(bb.black_board, j) || (c == BLACK_ID && j == i))
            },
{
    crate::utility::lemma_set_square(bb.pawn_board, i);
    crate::utility::lemma_set_square(bb.knight_board, i);
    crate::utility::lemma_set_square(bb.bishop_board, i);
    crate::utility::lemma_set_square(bb.rook_board, i);
    crate::utility::lemma_set_square(bb.queen_board, i);
    crate::utility::lemma_set_square(bb.king_board, i);
    crate::utility::lemma_set_square(bb.white_board, i);
    crate::utility::lemma_set_square(bb.black_board, i);
}

proof fn lemma_remove_elsewhere(bb: Bitboard, p: u8, c: u8, i: int, e: u8, j: int)
    requires
        0 <= i < 64,
        0 <= j < 64,
        j != i,
        crate::bitboard::square_agrees(bb, e, j),
    ensures
        crate::bitboard::square_agrees(crate::bitboard::remove_spec(bb, p, c, i), e, j),
{
    let b2 = crate::bitboard::remove_spec(bb, p, c, i);
    lemma_remove_boards(bb, p, c, i, b2);
    assert(has_sq(b2.pawn_board, j) == has_sq(bb.pawn_board, j));
    assert(has_sq(b2.knight_board, j) == has_sq(bb.knight_board, j));
    assert(has_sq(b2.bishop_board, j) == has_sq(bb.bishop_board, j));
    assert(has_sq(b2.rook_board, j) == has_sq(bb.rook_board, j));
    assert(has_sq(b2.queen_board, j) == has_sq(bb.queen_board, j));
    assert(has_sq(b2.king_board, j) == has_sq(bb.king_board, j));
    assert(has_sq(b2.white_board, j) == has_sq(bb.white_board, j));
    assert(has_sq(b2.black_board, j) == has_sq(bb.black_board, j));
}

proof fn lemma_add_elsewhere(bb: Bitboard, p: u8, c: u8, i: int, e: u8, j: int)
    requires
        0 <= i < 64,
        0 <= j < 64,
        j != i,
        crate::bitboard::square_agrees(bb, e, j),
    ensures
        crate::bitboard::square_agrees(crate::bitboard::add_spec(bb, p, c, i), e, j),
{
    let b2 = crate::bitboard::add_spec(bb, p, c, i);
    lemma_add_boards(bb, p, c, i, b2);
    assert(has_sq(b2.pawn_board, j) == has_sq(bb.pawn_board, j));
    assert(has_sq(b2.knight_board, j) == has_sq(bb.knight_board, j));
    assert(has_sq(b2.bishop_board, j) == has_sq(bb.bishop_board, j));
    assert(has_sq(b2.rook_board, j) == has_sq(bb.rook_board, j));
    assert(has_sq(b2.queen_board, j) == has_sq(bb.queen_board, j));
    assert(has_sq(b2.king_board, j) == has_sq(bb.king_board, j));
    assert(has_sq(b2.white_board, j) == has_sq(bb.white_board, j));
    assert(has_sq(b2.black_board, j) == has_sq(bb.black_board, j));
}

/// Lockstep: a move of a piece to another square that is neither a castle nor
/// an en-passant capture (a plain move, a capture, or a promotion) leaves the
/// bitboards and the mailbox describing the same pieces, with valid codes.
pub proof fn lemma_plain_move_keeps_lockstep(cb: Chessboard, m: Move)
    requires
        cb.wf(),
        forall|i: int| 0 <= i < 64 ==> valid_code(#[trigger] cb.mailbox@[i]),
        m.start_index < 64,
        m.end_index < 64,
        m.start_index != m.end_index,
        cb.mailbox@[m.start_index as int] != 0,
        !crate::mailbox::is_castle(cb.mailbox@, m),
        !crate::mailbox::is_en_passant(cb.mailbox@, m),
    ensures
        crate::bitboard::agrees(after_spec(cb, m), mailbox_after(cb.mailbox@, m)),
        forall|i: int| 0 <= i < 64 ==> valid_code(#[trigger] mailbox_after(cb.mailbox@, m)[i]),
{
    let b = cb.mailbox@;
    let bb = cb.bitboard;
    let s = m.start_index as int;
    let t = m.end_index as int;
    let e = b[s];
    let piece = (e % 8) as u8;
    let color = (e / 8 % 2) as u8;
    let captured = (b[t] % 8) as u8;
    let promo = crate::mailbox::is_promotion(b, m);
    assert(valid_code(e) && valid_code(b[t]));
    crate::chess_move::lemma_pack_flags_fields(piece, color, captured, false, false, promo);
    let flags = flags_spec(b, m);
    assert(flags == crate::chess_move::pack_flags(piece, color, captured, false, false, promo));
    let b1 = crate::bitboard::remove_spec(bb, piece, color, s);
    let b2 = if captured != EMPTY_ID {
        crate::bitboard::remove_spec(b1, captured, opposite(color), t)
    } else {
        b1
    };
    let placed = if promo {
        crate::mailbox::promoted_piece(m)
    } else {
        piece
    };
    let b3 = crate::bitboard::add_spec(b2, placed, color, t);
    assert(crate::bitboard::placement_after(bb, m, flags) == b3);
    lemma_remove_boards(bb, piece, color, s, b1);
    if captured != EMPTY_ID {
        lemma_remove_boards(b1, captured, opposite(color), t, b2);
    }
    lemma_add_boards(b2, placed, color, t, b3);
    let after = after_spec(cb, m);
    let nb = mailbox_after(b, m);
    assert(after.pawn_board == b3.pawn_board && after.knight_board == b3.knight_board
        && after.bishop_board == b3.bishop_board && after.rook_board == b3.rook_board
        && after.queen_board == b3.queen_board && after.king_board == b3.king_board
        && after.white_board == b3.white_board && after.black_board == b3.black_board);
    assert(e / 8 == color as int);
    assert(nb[s] == 0);
    assert(nb[t] == if promo {
        crate::mailbox::code_spec(placed, (e / 8) as u8)
    } else {
        e
    });
    assert(nb[t] != 0 && nb[t] % 8 == placed as int && nb[t] / 8 == color as int);
    assert forall|j: int| 0 <= j < 64 implies #[trigger] crate::bitboard::square_agrees(after, nb[j], j) by {
        assert(crate::bitboard::square_agrees(bb, b[j], j));
        if j != s && j != t {
            assert(nb[j] == b[j]);
            lemma_remove_elsewhere(bb, piece, color, s, b[j], j);
            if captured != EMPTY_ID {
                lemma_remove_elsewhere(b1, captured, opposite(color), t, b[j], j);
            }
            assert(crate::bitboard::square_agrees(b2, b[j], j));
            lemma_add_elsewhere(b2, placed, color, t, b[j], j);
        } else if j == s {
            assert(e != 0 && e % 8 == piece as int);
            assert(!has_sq(b1.pawn_board, s) && !has_sq(b1.knight_board, s) && !has_sq(b1.bishop_board, s));
            assert(!has_sq(b1.rook_board, s) && !has_sq(b1.queen_board, s) && !has_sq(b1.king_board, s));
            assert(!has_sq(b1.white_board, s) && !has_sq(b1.black_board, s));
            assert(crate::bitboard::square_agrees(b1, 0, s));
            if captured != EMPTY_ID {
                lemma_remove_boards(b1, captured, opposite(color), t, b2);
                assert(!has_sq(b2.pawn_board, s));
            } else {
                assert(b2 == b1);
            }
            assert(crate::bitboard::square_agrees(b2, 0, s));
            lemma_add_boards(b2, placed, color, t, b3);
            assert(!has_sq(b3.pawn_board, s) && !has_sq(b3.knight_board, s) && !has_sq(b3.bishop_board, s));
            assert(!has_sq(b3.rook_board, s) && !has_sq(b3.queen_board, s) && !has_sq(b3.king_board, s));
            assert(!has_sq(b3.white_board, s) && !has_sq(b3.black_board, s));
            assert(crate::bitboard::square_agrees(b3, 0, s));
        } else {
            assert(crate::bitboard::square_agrees(bb, b[t], t));
            lemma_remove_boards(bb, piece, color, s, b1);
            assert(has_sq(b1.pawn_board, t) == has_sq(bb.pawn_board, t));
            assert(crate::bitboard::square_agrees(b1, b[t], t));
            if captured != EMPTY_ID {
                lemma_remove_boards(b1, captured, opposite(color), t, b2);
            } else {
                assert(b2 == b1);
                assert(b[t] == 0);
            }
            assert(!has_sq(b2.pawn_board, t) && !has_sq(b2.knight_board, t) && !has_sq(b2.bishop_board, t));
            assert(!has_sq(b2.rook_board, t) && !has_sq(b2.queen_board, t) && !has_sq(b2.king_board, t));
            assert(color == WHITE_ID ==> !has_sq(b2.black_board, t));
            assert(color == BLACK_ID ==> !has_sq(b2.white_board, t));
            assert(1 <= placed <= 6);
            lemma_add_boards(b2, placed, color, t, b3);
            assert(color == WHITE_ID || color == BLACK_ID);
            assert(has_sq(b3.pawn_board, t) == (placed == PAWN_ID));
            assert(has_sq(b3.knight_board, t) == (placed == KNIGHT_ID));
            assert(has_sq(b3.bishop_board, t) == (placed == BISHOP_ID));
            assert(has_sq(b3.rook_board, t) == (placed == ROOK_ID));
            assert(has_sq(b3.queen_board, t) == (placed == QUEEN_ID));
            assert(has_sq(b3.king_board, t) == (placed == KING_ID));
            assert(has_sq(b3.white_board, t) == (color == WHITE_ID));
            assert(has_sq(b3.black_board, t) == (color == BLACK_ID));
            assert(crate::bitboard::square_agrees(b3, nb[t], t));
        }
    }
    assert forall|i: int| 0 <= i < 64 implies valid_code(#[trigger] nb[i]) by {
        assert(valid_code(b[i]));
    }
}

proof fn lemma_remove_here(bb: Bitboard, p: u8, c: u8, i: int, e: u8)
    requires
        0 <= i < 64,
        crate::bitboard::square_agrees(bb, e, i),
        e != 0,
        e % 8 == p,
        e / 8 == c,
        c <= 1,
    ensures
        crate::bitboard::square_agrees(crate::bitboard::remove_spec(bb, p, c, i), 0, i),
{
    let b2 = crate::bitboard::remove_spec(bb, p, c, i);
    lemma_remove_boards(bb, p, c, i, b2);
    assert(has_sq(b2.pawn_board, i) == (has_sq(bb.pawn_board, i) && p != PAWN_ID));
    assert(has_sq(b2.knight_board, i) == (has_sq(bb.knight_board, i) && p != KNIGHT_ID));
    assert(has_sq(b2.bishop_board, i) == (has_sq(bb.bishop_board, i) && p != BISHOP_ID));
    assert(has_sq(b2.rook_board, i) == (has_sq(bb.rook_board, i) && p != ROOK_ID));
    assert(has_sq(b2.queen_board, i) == (has_sq(bb.queen_board, i) && p != QUEEN_ID));
    assert(has_sq(b2.king_board, i) == (has_sq(bb.king_board, i) && p != KING_ID));
    assert(has_sq(b2.white_board, i) == (has_sq(bb.white_board, i) && c != WHITE_ID));
    assert(has_sq(b2.black_board, i) == (has_sq(bb.black_board, i) && c != BLACK_ID));
}

proof fn lemma_add_here(bb: Bitboard, p: u8, c: u8, i: int)
    requires
        0 <= i < 64,
        crate::bitboard::square_agrees(bb, 0, i),
        1 <= p <= 6,
        c <= 1,
    ensures
        crate::bitboard::square_agrees(
            crate::bitboard::add_spec(bb, p, c, i),
            crate::mailbox::code_spec(p, c),
            i,
        ),
{
    let b2 = crate::bitboard::add_spec(bb, p, c, i);
    lemma_add_boards(bb, p, c, i, b2);
    assert(has_sq(b2.pawn_board, i) == (p == PAWN_ID));
    assert(has_sq(b2.knight_board, i) == (p == KNIGHT_ID));
    assert(has_sq(b2.bishop_board, i) == (p == BISHOP_ID));
    assert(has_sq(b2.rook_board, i) == (p == ROOK_ID));
    assert(has_sq(b2.queen_board, i) == (p == QUEEN_ID));
    assert(has_sq(b2.king_board, i) == (p == KING_ID));
    assert(has_sq(b2.white_board, i) == (c == WHITE_ID));
    assert(has_sq(b2.black_board, i) == (c == BLACK_ID));
}

/// Lockstep for castling: when the king's rook stands on its corner and the
/// squares the king and rook land on are empty, a castle leaves the
/// bitboards and the mailbox describing the same pieces.
pub proof fn lemma_castle_keeps_lockstep(cb: Chessboard, m: Move)
    requires
        cb.wf(),
        forall|i: int| 0 <= i < 64 ==> valid_code(#[trigger] cb.mailbox@[i]),
        m.start_index < 64,
        m.end_index < 64,
        crate::mailbox::is_castle(cb.mailbox@, m),
        ({
            let (rook_from, rook_to) = crate::mailbox::castle_rook_squares(
                m.start_index as int,
                m.end_index as int,
            );
            let e = cb.mailbox@[m.start_index as int];
            &&& cb.mailbox@[rook_from] == crate::mailbox::code_spec(ROOK_ID, (e / 8) as u8)
            &&& cb.mailbox@[rook_to] == 0
            &&& cb.mailbox@[m.end_index as int] == 0
            &&& rook_from != m.start_index && rook_to != m.start_index && rook_from != m.end_index
                && rook_to != m.end_index
        }),
    ensures
        crate::bitboard::agrees(after_spec(cb, m), mailbox_after(cb.mailbox@, m)),
{
    let b = cb.mailbox@;
    let bb = cb.bitboard;
    let s = m.start_index as int;
    let t = m.end_index as int;
    let e = b[s];
    let piece = (e % 8) as u8;
    let color = (e / 8 % 2) as u8;
    let captured = (b[t] % 8) as u8;
    assert(valid_code(e));
    assert(e / 8 == color as int);
    crate::chess_move::lemma_pack_flags_fields(piece, color, captured, true, false, false);
    let flags = flags_spec(b, m);
    let (rook_from, rook_to) = crate::mailbox::castle_rook_squares(s, t);
    assert(0 <= rook_from < 64 && 0 <= rook_to < 64 && rook_from != rook_to);
    let b1 = crate::bitboard::remove_spec(bb, KING_ID, color, s);
    let b2 = crate::bitboard::add_spec(b1, KING_ID, color, t);
    let b3 = crate::bitboard::remove_spec(b2, ROOK_ID, color, rook_from);
    let b4 = crate::bitboard::add_spec(b3, ROOK_ID, color, rook_to);
    assert(crate::bitboard::placement_after(bb, m, flags) == b4);
    let after = after_spec(cb, m);
    let nb = mailbox_after(b, m);
    assert(after.pawn_board == b4.pawn_board && after.knight_board == b4.knight_board
        && after.bishop_board == b4.bishop_board && after.rook_board == b4.rook_board
        && after.queen_board == b4.queen_board && after.king_board == b4.king_board
        && after.white_board == b4.white_board && after.black_board == b4.black_board);
    assert forall|j: int| 0 <= j < 64 implies #[trigger] crate::bitboard::square_agrees(after, nb[j], j) by {
        assert(crate::bitboard::square_agrees(bb, b[j], j));
        if j == s {
            lemma_remove_here(bb, KING_ID, color, s, e);
            lemma_add_elsewhere(b1, KING_ID, color, t, 0, s);
            lemma_remove_elsewhere(b2, ROOK_ID, color, rook_from, 0, s);
            lemma_add_elsewhere(b3, ROOK_ID, color, rook_to, 0, s);
            assert(nb[j] == 0);
        } else if j == t {
            lemma_remove_elsewhere(bb, KING_ID, color, s, 0, t);
            lemma_add_here(b1, KING_ID, color, t);
            lemma_remove_elsewhere(b2, ROOK_ID, color, rook_from, crate::mailbox::code_spec(KING_ID, color), t);
            lemma_add_elsewhere(b3, ROOK_ID, color, rook_to, crate::mailbox::code_spec(KING_ID, color), t);
            assert(nb[j] == e);
            assert(crate::mailbox::code_spec(KING_ID, color) == e);
        } else if j == rook_from {
            lemma_remove_elsewhere(bb, KING_ID, color, s, b[j], j);
            lemma_add_elsewhere(b1, KING_ID, color, t, b[j], j);
            lemma_remove_here(b2, ROOK_ID, color, rook_from, b[j]);
            lemma_add_elsewhere(b3, ROOK_ID, color, rook_to, 0, j);
            assert(nb[j] == 0);
        } else if j == rook_to {
            lemma_remove_elsewhere(bb, KING_ID, color, s, 0, j);
            lemma_add_elsewhere(b1, KING_ID, color, t, 0, j);
            lemma_remove_elsewhere(b2, ROOK_ID, color, rook_from, 0, j);
            lemma_add_here(b3, ROOK_ID, color, rook_to);
            assert(nb[j] == b[rook_from]);
        } else {
            lemma_remove_elsewhere(bb, KING_ID, color, s, b[j], j);
            lemma_add_elsewhere(b1, KING_ID, color, t, b[j], j);
            lemma_remove_elsewhere(b2, ROOK_ID, color, rook_from, b[j], j);
            lemma_add_elsewhere(b3, ROOK_ID, color, rook_to, b[j], j);
            assert(nb[j] == b[j]);
        }
    }
}

/// Lockstep for en passant: when the pawn taken stands behind the
/// destination and the capture changes rank without reaching the last one, an
/// en-passant capture leaves the bitboards and the mailbox describing the same
/// pieces.
pub proof fn lemma_en_passant_keeps_lockstep(cb: Chessboard, m: Move)
    requires
        cb.wf(),
        forall|i: int| 0 <= i < 64 ==> valid_code(#[trigger] cb.mailbox@[i]),
        m.start_index < 64,
        m.end_index < 64,
        !crate::mailbox::is_castle(cb.mailbox@, m),
        crate::mailbox::is_en_passant(cb.mailbox@, m),
        !crate::mailbox::is_promotion(cb.mailbox@, m),
        m.start_index / 8 != m.end_index / 8,
        ({
            let e = cb.mailbox@[m.start_index as int];
            let v = crate::mailbox::en_passant_victim(m.start_index as int, m.end_index as int);
            cb.mailbox@[v] == crate::mailbox::code_spec(PAWN_ID, opposite((e / 8) as u8))
        }),
    ensures
        crate::bitboard::agrees(after_spec(cb, m), mailbox_after(cb.mailbox@, m)),
{
    let b = cb.mailbox@;
    let bb = cb.bitboard;
    let s = m.start_index as int;
    let t = m.end_index as int;
    let e = b[s];
    let piece = (e % 8) as u8;
    let color = (e / 8 % 2) as u8;
    let captured = (b[t] % 8) as u8;
    assert(valid_code(e));
    assert(e / 8 == color as int);
    crate::chess_move::lemma_pack_flags_fields(piece, color, captured, false, true, false);
    let flags = flags_spec(b, m);
    let v = crate::mailbox::en_passant_victim(s, t);
    assert(s != t && v != t && v != s && 0 <= v < 64);
    let b1 = crate::bitboard::remove_spec(bb, PAWN_ID, opposite(color), v);
    let b2 = crate::bitboard::add_spec(b1, PAWN_ID, color, t);
    let b3 = crate::bitboard::remove_spec(b2, PAWN_ID, color, s);
    assert(crate::bitboard::placement_after(bb, m, flags) == b3);
    let after = after_spec(cb, m);
    let nb = mailbox_after(b, m);
    assert(after.pawn_board == b3.pawn_board && after.knight_board == b3.knight_board
        && after.bishop_board == b3.bishop_board && after.rook_board == b3.rook_board
        && after.queen_board == b3.queen_board && after.king_board == b3.king_board
        && after.white_board == b3.white_board && after.black_board == b3.black_board);
    assert forall|j: int| 0 <= j < 64 implies #[trigger] crate::bitboard::square_agrees(after, nb[j], j) by {
        assert(crate::bitboard::square_agrees(bb, b[j], j));
        if j == v {
            lemma_remove_here(bb, PAWN_ID, opposite(color), v, b[v]);
            lemma_add_elsewhere(b1, PAWN_ID, color, t, 0, j);
            lemma_remove_elsewhere(b2, PAWN_ID, color, s, 0, j);
            assert(nb[j] == 0);
        } else if j == t {
            lemma_remove_elsewhere(bb, PAWN_ID, opposite(color), v, 0, j);
            lemma_add_here(b1, PAWN_ID, color, t);
            lemma_remove_elsewhere(b2, PAWN_ID, color, s, crate::mailbox::code_spec(PAWN_ID, color), j);
            assert(nb[j] == e);
            assert(crate::mailbox::code_spec(PAWN_ID, color) == e);
        } else if j == s {
            lemma_remove_elsewhere(bb, PAWN_ID, opposite(color), v, e, j);
            lemma_add_elsewhere(b1, PAWN_ID, color, t, e, j);
            lemma_remove_here(b2, PAWN_ID, color, s, e);
            assert(nb[j] == 0);
        } else {
            lemma_remove_elsewhere(bb, PAWN_ID, opposite(color), v, b[j], j);
            lemma_add_elsewhere(b1, PAWN_ID, color, t, b[j], j);
            lemma_remove_elsewhere(b2, PAWN_ID, color, s, b[j], j);
            assert(nb[j] == b[j]);
        }
    }
}

/// The data-model invariants of a position: bitboards and mailbox agree, every
/// code is valid, each castling right is backed by its rook on its corner,
/// and a set en-passant file is backed by the pawn that can be taken.
pub open spec fn consistent(cb: Chessboard) -> bool {
    let b = cb.mailbox@;
    let bb = cb.bitboard;
    let f = bb.flags;
    let c = turn(bb);
    &&& cb.wf()
    &&& forall|i: int| 0 <= i < 64 ==> valid_code(#[trigger] b[i])
    &&& ((f >> 3u8) & 1u8 == 1u8 ==> b[63] == crate::mailbox::code_spec(ROOK_ID, WHITE_ID))
    &&& ((f >> 2u8) & 1u8 == 1u8 ==> b[56] == crate::mailbox::code_spec(ROOK_ID, WHITE_ID))
    &&& ((f >> 1u8) & 1u8 == 1u8 ==> b[7] == crate::mailbox::code_spec(ROOK_ID, BLACK_ID))
    &&& (f & 1u8 == 1u8 ==> b[0] == crate::mailbox::code_spec(ROOK_ID, BLACK_ID))
    &&& (bb.en_passant != 0 ==> {
        let row: int = if c == WHITE_ID {
            2
        } else {
            5
        };
        let target = row * 8 + vstd::std_specs::bits::u8_trailing_zeros(bb.en_passant) as int;
        b[if c == WHITE_ID {
            target + 8
        } else {
            target - 8
        }] == crate::mailbox::code_spec(
            PAWN_ID,
            opposite(c),
        )
    })
}

proof fn lemma_push_same_file(s: int, t: int, occ: u64, c: u8)
    requires
        0 <= s < 64,
        0 <= t < 64,
        has_sq(pawn_push_spec(sq(s), occ, c), t),
    ensures
        s % 8 == t % 8,
{
    let x = s as u64;
    let y = t as u64;
    let b = 1u64 << x;
    if c == WHITE_ID {
        assert(x % 8 == y % 8) by (bit_vector)
            requires
                x < 64,
                y < 64,
                b == 1u64 << x,
                (((((b >> 8u64) & !occ) | (((((b & 0x00ff000000000000u64) >> 8u64) & !occ) >> 8u64) & !occ)) >> y) & 1u64) == 1u64,
        ;
    } else {
        assert(x % 8 == y % 8) by (bit_vector)
            requires
                x < 64,
                y < 64,
                b == 1u64 << x,
                (((((b << 8u64) & !occ) | (((((b & 0x000000000000ff00u64) << 8u64) & !occ) << 8u64) & !occ)) >> y) & 1u64) == 1u64,
        ;
    }
}

proof fn lemma_pawn_attack_row(s: int, t: int, c: u8)
    requires
        0 <= s < 64,
        0 <= t < 64,
        has_sq(pawn_attack_spec(sq(s), c), t),
    ensures
        c == WHITE_ID ==> t / 8 == s / 8 - 1,
        c != WHITE_ID ==> t / 8 == s / 8 + 1,
{
    let x = s as u64;
    let y = t as u64;
    let b = 1u64 << x;
    assert((c == WHITE_ID ==> y / 8 + 1 == x / 8) && (c != WHITE_ID ==> y / 8 == x / 8 + 1)) by (bit_vector)
        requires
            x < 64,
            y < 64,
            b == 1u64 << x,
            c == WHITE_ID ==> ((((b & !0x8080808080808080u64) >> 7u64) | ((b & !0x0101010101010101u64) >> 9u64)) >> y) & 1u64 == 1u64,
            c != WHITE_ID ==> ((((b & !0x0101010101010101u64) << 7u64) | ((b & !0x8080808080808080u64) << 9u64)) >> y) & 1u64 == 1u64,
    ;
}

proof fn lemma_occupied(cb: Chessboard, j: int)
    requires
        cb.wf(),
        0 <= j < 64,
        valid_code(cb.mailbox@[j]),
    ensures
        has_sq(occupancy(cb.bitboard), j) <==> cb.mailbox@[j] != 0,
{
    assert(crate::bitboard::square_agrees(cb.bitboard, cb.mailbox@[j], j));
    crate::utility::lemma_square_ops(cb.bitboard.white_board, cb.bitboard.black_board);
}

/// Lockstep for every legal move: in a position that meets the data-model
/// invariants, playing a legal move leaves the bitboards and the mailbox
/// describing the same pieces.
pub proof fn lemma_legal_move_keeps_lockstep(cb: Chessboard, m: Move)
    requires
        consistent(cb),
        legal_spec(cb, m),
    ensures
        crate::bitboard::agrees(after_spec(cb, m), mailbox_after(cb.mailbox@, m)),
{
    let b = cb.mailbox@;
    let bb = cb.bitboard;
    let c = turn(bb);
    let s = m.start_index as int;
    let t = m.end_index as int;
    let e = b[s];
    let f = bb.flags;
    assert((f >> 4u8) & 1u8 <= 1) by (bit_vector);
    assert(c == WHITE_ID || c == BLACK_ID);
    assert(valid_code(e));
    assert(crate::bitboard::square_agrees(bb, e, s));
    assert(has_sq(color_board(bb, c), s));
    assert(e != 0 && e / 8 == c as int);
    assert(kind_at(bb, s) == e % 8);
    if crate::mailbox::is_castle(b, m) {
        if has_sq(targets_spec(bb, s, c), t) {
            crate::utility::lemma_square_ops(king_spec(sq(s)), !enemy_attacks(bb, c));
            crate::utility::lemma_square_ops(king_spec(sq(s)) & !enemy_attacks(bb, c), !color_board(bb, c));
            lemma_king_step(s, t);
        }
        assert(castle_ok(bb, c, s, t));
        lemma_occupied(cb, 61);
        lemma_occupied(cb, 62);
        lemma_occupied(cb, 57);
        lemma_occupied(cb, 58);
        lemma_occupied(cb, 59);
        lemma_occupied(cb, 1);
        lemma_occupied(cb, 2);
        lemma_occupied(cb, 3);
        lemma_occupied(cb, 5);
        lemma_occupied(cb, 6);
        lemma_castle_keeps_lockstep(cb, m);
    } else if crate::mailbox::is_en_passant(b, m) {
        assert(has_sq(targets_spec(bb, s, c), t));
        let own = color_board(bb, c);
        let theirs = color_board(bb, opposite(c));
        let occ = occupancy(bb);
        let ep = en_passant_target_spec(bb, c);
        let push = pawn_push_spec(sq(s), occ, c);
        let att = pawn_attack_spec(sq(s), c);
        crate::utility::lemma_square_ops(push | (att & (theirs | ep)), !own);
        crate::utility::lemma_square_ops(push, att & (theirs | ep));
        crate::utility::lemma_square_ops(att, theirs | ep);
        crate::utility::lemma_square_ops(theirs, ep);
        if has_sq(push, t) {
            lemma_push_same_file(s, t, occ, c);
        }
        assert(crate::bitboard::square_agrees(bb, b[t], t));
        assert(!has_sq(theirs, t));
        assert(has_sq(ep, t));
        if bb.en_passant == 0 {
            crate::utility::lemma_zero_iff_empty(0);
        }
        vstd::std_specs::bits::axiom_u8_trailing_zeros(bb.en_passant);
        let row: int = if c == WHITE_ID {
            2
        } else {
            5
        };
        let target = row * 8 + vstd::std_specs::bits::u8_trailing_zeros(bb.en_passant) as int;
        lemma_sq_has(target, t);
        assert(t == target);
        lemma_pawn_attack_row(s, t, c);
        assert(!crate::mailbox::is_promotion(b, m));
        lemma_en_passant_keeps_lockstep(cb, m);
    } else {
        if has_sq(targets_spec(bb, s, c), t) {
            crate::utility::lemma_square_ops(
                if kind_at(bb, s) == PAWN_ID {
                    pawn_push_spec(sq(s), occupancy(bb), c) | (pawn_attack_spec(sq(s), c) & (
                    color_board(bb, opposite(c)) | en_passant_target_spec(bb, c)))
                } else if kind_at(bb, s) == KING_ID {
                    king_spec(sq(s)) & !enemy_attacks(bb, c)
                } else {
                    piece_attack_spec(bb, s, c)
                },
                !color_board(bb, c),
            );
            crate::utility::lemma_square_ops(color_board(bb, c), 0);
            assert(s != t);
        }
        lemma_plain_move_keeps_lockstep(cb, m);
    }
}
} // verus!
