//! Leaf counts of the legal move tree.
use vstd::prelude::*;

use crate::chess_move::Move;
use crate::chessboard::{
    children_sum, lemma_children_sum_leaves, lemma_perft_by_list, legal_move_props, legal_set,
    legal_spec, perft_spec, Chessboard,
};
use crate::bitboard::bitboard_after;
use crate::mailbox::{flags_spec, mailbox_after};
use crate::move_generator::AttackTables;

verus! {

/// A root move whose subtree count differs from a reference table.
#[derive(Debug, Clone, Copy, PartialEq, Eq, Structural)]
pub struct PerftMismatch {
    pub move_: Move,
    pub expected: Option<u64>,
    pub actual: Option<u64>,
}

/// The position after playing `move_` on a copy of `board`.
fn child(board: &Chessboard, move_: Move) -> (r: Chessboard)
    requires
        move_.start_index < 64,
        move_.end_index < 64,
    ensures
        r.bitboard == bitboard_after(board.bitboard, move_, flags_spec(board.mailbox@, move_)),
        r.mailbox@ == mailbox_after(board.mailbox@, move_),
{
    let mut next = *board;
    next.make_move_unchecked(move_);
    next
}

/// `n`, or `u64::MAX` when it does not fit.
pub open spec fn capped(n: nat) -> u64 {
    if n > u64::MAX {
        u64::MAX
    } else {
        n as u64
    }
}

/// The moves of a divide report, in order.
pub open spec fn moves_of(r: Seq<(Move, u64)>) -> Seq<Move> {
    Seq::new(r.len(), |k: int| r[k].0)
}

/// Counts the leaf nodes `depth` plies below `board` (see `perft_spec`): 1 at
/// depth 0, the number of legal moves at depth 1, and otherwise the sum over
/// the legal moves of the count below the position each leads to. Sums
/// saturate at `u64::MAX`.
#[verifier::rlimit(60)]
pub fn perft(board: &Chessboard, tables: &AttackTables, depth: u8) -> (r: u64)
    requires
        tables.wf(),
    ensures
        r == capped(perft_spec(board.bitboard, board.mailbox@, depth as nat)),
        depth == 1 ==> r == legal_set(*board).len(),
    decreases depth,
{
    if depth == 0 {
        return 1;
    }
    let legal_moves = board.compute_legal_moves(tables);
    proof {
        lemma_perft_by_list(board.bitboard, board.mailbox@, legal_moves@, depth as nat);
    }
    if depth == 1 {
        proof {
            lemma_children_sum_leaves(board.bitboard, board.mailbox@, legal_moves@);
        }
        return legal_moves.len() as u64;
    }
    let ghost bb = board.bitboard;
    let ghost mb = board.mailbox@;
    let ghost d1 = (depth - 1) as nat;
    let mut total: u64 = 0;
    let mut i: usize = 0;
    assert(legal_moves@.subrange(0, 0) =~= Seq::<Move>::empty());
    while i < legal_moves.len()
        invariant
            tables.wf(),
            depth > 1,
            i <= legal_moves.len(),
            bb == board.bitboard,
            mb == board.mailbox@,
            d1 == depth - 1,
            forall|k: int| 0 <= k < legal_moves.len() ==> legal_move_props(*board, #[trigger] legal_moves[k]),
            total == capped(children_sum(bb, mb, legal_moves@.subrange(0, i as int), d1)),
        decreases legal_moves.len() - i,
    {
        let move_ = legal_moves[i];
        assert(legal_move_props(*board, legal_moves[i as int]));
        let next = child(board, move_);
        let below = perft(&next, tables, depth - 1);
        proof {
            let sub = legal_moves@.subrange(0, i + 1);
            assert(sub.drop_last() =~= legal_moves@.subrange(0, i as int));
            assert(sub.last() == move_);
        }
        total = total.saturating_add(below);
        i = i + 1;
    }
    assert(legal_moves@.subrange(0, legal_moves.len() as int) =~= legal_moves@);
    total
}

/// The legal moves of `board`, each once, with the leaf count below each,
/// `depth` plies deep in all; empty at depth 0.
pub fn perft_divide(board: &Chessboard, tables: &AttackTables, depth: u8) -> (r: Vec<(Move, u64)>)
    requires
        tables.wf(),
    ensures
        depth == 0 ==> r.len() == 0,
        forall|k: int| 0 <= k < r.len() ==> legal_spec(*board, (#[trigger] r[k]).0),
        forall|k: int| 0 <= k < r.len() ==> legal_move_props(*board, (#[trigger] r[k]).0),
        depth > 0 ==> r.len() == legal_set(*board).len(),
        depth > 0 ==> forall|m: Move| legal_spec(*board, m) ==> exists|k: int|
            0 <= k < r.len() && (#[trigger] r[k]).0 == m,
        forall|k: int, l: int| 0 <= k < l < r.len() ==> r[k].0 != r[l].0,
        depth > 0 ==> forall|k: int|
            0 <= k < r.len() ==> (#[trigger] r[k]).1 == capped(
                perft_spec(
                    bitboard_after(board.bitboard, r[k].0, flags_spec(board.mailbox@, r[k].0)),
                    mailbox_after(board.mailbox@, r[k].0),
                    (depth - 1) as nat,
                ),
            ),
        depth > 0 ==> perft_spec(board.bitboard, board.mailbox@, depth as nat) == children_sum(
            board.bitboard,
            board.mailbox@,
            moves_of(r@),
            (depth - 1) as nat,
        ),
{
    let mut out: Vec<(Move, u64)> = Vec::new();
    if depth == 0 {
        return out;
    }
    let legal_moves = board.compute_legal_moves(tables);
    let mut i: usize = 0;
    while i < legal_moves.len()
        invariant
            tables.wf(),
            depth > 0,
            i <= legal_moves.len(),
            out.len() == i,
            forall|k: int| 0 <= k < legal_moves.len() ==> legal_move_props(*board, #[trigger] legal_moves[k]),
            forall|k: int| 0 <= k < legal_moves.len() ==> legal_spec(*board, #[trigger] legal_moves[k]),
            forall|k: int| 0 <= k < i ==> (#[trigger] out[k]).0 == legal_moves[k],
            forall|k: int| 0 <= k < out.len() ==> legal_move_props(*board, (#[trigger] out[k]).0),
            forall|k: int|
                0 <= k < out.len() ==> (#[trigger] out[k]).1 == capped(
                    perft_spec(
                        bitboard_after(board.bitboard, out[k].0, flags_spec(board.mailbox@, out[k].0)),
                        mailbox_after(board.mailbox@, out[k].0),
                        (depth - 1) as nat,
                    ),
                ),
        decreases legal_moves.len() - i,
    {
        let move_ = legal_moves[i];
        assert(legal_move_props(*board, legal_moves[i as int]));
        let next = child(board, move_);
        let nodes = if depth == 1 {
            1
        } else {
            perft(&next, tables, depth - 1)
        };
        out.push((move_, nodes));
        i = i + 1;
    }
    proof {
        assert forall|m: Move| legal_spec(*board, m) implies exists|k: int|
            0 <= k < out.len() && (#[trigger] out[k]).0 == m by {
            assert(legal_moves@.contains(m));
            let k = choose|k: int| 0 <= k < legal_moves.len() && legal_moves@[k] == m;
            assert(out[k].0 == m);
        }
        assert forall|k: int, l: int| 0 <= k < l < out.len() implies out[k].0 != out[l].0 by {
            assert(out[k].0 == legal_moves@[k] && out[l].0 == legal_moves@[l]);
        }
        assert(moves_of(out@) =~= legal_moves@);
        lemma_perft_by_list(board.bitboard, board.mailbox@, legal_moves@, depth as nat);
    }
    out
}

} // verus!
