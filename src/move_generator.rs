//! Attack sets of each piece kind, and the pair of magic tables.
use vstd::prelude::*;

use crate::constants::{A_FILE_MASK, H_FILE_MASK, RANK_2_MASK, RANK_7_MASK, WHITE_ID};
use crate::magic::{slider_attack, MagicLookup, Slider};
use crate::utility::has_sq;

verus! {

/// Squares a knight on any square of `b` jumps to.
pub open spec fn knight_spec(b: u64) -> u64 {
    let l1 = (b >> 1u64) & 0x7f7f7f7f7f7f7f7fu64;
    let l2 = (b >> 2u64) & 0x3f3f3f3f3f3f3f3fu64;
    let r1 = (b << 1u64) & 0xfefefefefefefefeu64;
    let r2 = (b << 2u64) & 0xfcfcfcfcfcfcfcfcu64;
    let h1 = l1 | r1;
    let h2 = l2 | r2;
    (h1 << 16u64) | (h1 >> 16u64) | (h2 << 8u64) | (h2 >> 8u64)
}

/// Squares one king step away from a square of `b`.
pub open spec fn king_spec(b: u64) -> u64 {
    let row = b | ((b & !A_FILE_MASK) >> 1u64) | ((b & !H_FILE_MASK) << 1u64);
    (row | (row >> 8u64) | (row << 8u64)) & !b
}

/// Squares attacked by pawns of `color` on `b`; white moves towards rank 8.
pub open spec fn pawn_attack_spec(b: u64, color: u8) -> u64 {
    if color == WHITE_ID {
        ((b & !H_FILE_MASK) >> 7u64) | ((b & !A_FILE_MASK) >> 9u64)
    } else {
        ((b & !A_FILE_MASK) << 7u64) | ((b & !H_FILE_MASK) << 9u64)
    }
}

/// Squares reached by pushes of pawns of `color` on `b`: one square onto an
/// empty square, or two from their home rank over two empty squares.
pub open spec fn pawn_push_spec(b: u64, occ: u64, color: u8) -> u64 {
    if color == WHITE_ID {
        let single = (b >> 8u64) & !occ;
        let double = ((((b & RANK_2_MASK) >> 8u64) & !occ) >> 8u64) & !occ;
        single | double
    } else {
        let single = (b << 8u64) & !occ;
        let double = ((((b & RANK_7_MASK) << 8u64) & !occ) << 8u64) & !occ;
        single | double
    }
}

/// The union of the attacks of sliders of `kind` on the squares of `b` below `n`.
pub open spec fn slider_union(kind: Slider, b: u64, occ: u64, n: int) -> u64
    decreases n,
{
    if n <= 0 {
        0
    } else {
        slider_union(kind, b, occ, n - 1) | (if has_sq(b, n - 1) {
            slider_attack(kind, n - 1, occ)
        } else {
            0
        })
    }
}

/// The rook and bishop tables, both sound.
pub struct AttackTables {
    pub rook: MagicLookup,
    pub bishop: MagicLookup,
}

impl AttackTables {
    pub open spec fn wf(&self) -> bool {
        self.rook.wf(Slider::Rook) && self.bishop.wf(Slider::Bishop)
    }

    /// Builds both tables; `None` only if a square found no magic within the
    /// attempt budget.
    pub fn new() -> (r: Option<AttackTables>)
        ensures
            r matches Some(t) ==> t.wf(),
    {
        let rook = MagicLookup::new(Slider::Rook);
        let bishop = MagicLookup::new(Slider::Bishop);
        match (rook, bishop) {
            (Some(rook), Some(bishop)) => Some(AttackTables { rook, bishop }),
            _ => None,
        }
    }

    /// The attack of one slider of `kind` on `index`.
    pub fn slider(&self, kind: Slider, index: u32, occupancy: u64) -> (r: u64)
        requires
            self.wf(),
            index < 64,
        ensures
            r == slider_attack(kind, index as int, occupancy),
    {
        match kind {
            Slider::Rook => self.rook.attack(kind, index, occupancy),
            Slider::Bishop => self.bishop.attack(kind, index, occupancy),
        }
    }
}

pub fn generate_knight_moves(knight_board: u64) -> (r: u64)
    ensures
        r == knight_spec(knight_board),
{
    let l1 = (knight_board >> 1) & 0x7f7f7f7f7f7f7f7f;
    let l2 = (knight_board >> 2) & 0x3f3f3f3f3f3f3f3f;
    let r1 = (knight_board << 1) & 0xfefefefefefefefe;
    let r2 = (knight_board << 2) & 0xfcfcfcfcfcfcfcfc;
    let h1 = l1 | r1;
    let h2 = l2 | r2;
    (h1 << 16) | (h1 >> 16) | (h2 << 8) | (h2 >> 8)
}

pub fn generate_king_moves(king_board: u64) -> (r: u64)
    ensures
        r == king_spec(king_board),
{
    let row = king_board | ((king_board & !A_FILE_MASK) >> 1) | ((king_board & !H_FILE_MASK) << 1);
    (row | (row >> 8) | (row << 8)) & !king_board
}

/// The union of the attacks of the sliders of `kind` on `piece_board`.
pub fn generate_sliding_moves(
    tables: &AttackTables,
    piece_board: u64,
    occupancy: u64,
    kind: Slider,
) -> (r: u64)
    requires
        tables.wf(),
    ensures
        r == slider_union(kind, piece_board, occupancy, 64),
{
    let mut attacks: u64 = 0;
    let mut i: u32 = 0;
    while i < 64
        invariant
            tables.wf(),
            i <= 64,
            attacks == slider_union(kind, piece_board, occupancy, i as int),
        decreases 64 - i,
    {
        if (piece_board >> i) & 1 == 1 {
            attacks = attacks | tables.slider(kind, i, occupancy);
        } else {
            assert(attacks | 0u64 == attacks) by (bit_vector);
        }
        i = i + 1;
    }
    attacks
}

pub fn generate_rook_moves(tables: &AttackTables, rook_board: u64, occupancy: u64) -> (r: u64)
    requires
        tables.wf(),
    ensures
        r == slider_union(Slider::Rook, rook_board, occupancy, 64),
{
    generate_sliding_moves(tables, rook_board, occupancy, Slider::Rook)
}

pub fn generate_bishop_moves(tables: &AttackTables, bishop_board: u64, occupancy: u64) -> (r: u64)
    requires
        tables.wf(),
    ensures
        r == slider_union(Slider::Bishop, bishop_board, occupancy, 64),
{
    generate_sliding_moves(tables, bishop_board, occupancy, Slider::Bishop)
}

pub fn generate_queen_moves(tables: &AttackTables, queen_board: u64, occupancy: u64) -> (r: u64)
    requires
        tables.wf(),
    ensures
        r == slider_union(Slider::Bishop, queen_board, occupancy, 64) | slider_union(
            Slider::Rook,
            queen_board,
            occupancy,
            64,
        ),
{
    generate_bishop_moves(tables, queen_board, occupancy) | generate_rook_moves(
        tables,
        queen_board,
        occupancy,
    )
}

pub fn generate_pawn_moves(pawn_board: u64, occupancy: u64, color: u8) -> (r: u64)
    ensures
        r == pawn_push_spec(pawn_board, occupancy, color),
{
    if color == WHITE_ID {
        let single = (pawn_board >> 8) & !occupancy;
        let double = ((((pawn_board & RANK_2_MASK) >> 8) & !occupancy) >> 8) & !occupancy;
        return single | double;
    }
    let single = (pawn_board << 8) & !occupancy;
    let double = ((((pawn_board & RANK_7_MASK) << 8) & !occupancy) << 8) & !occupancy;
    single | double
}

pub fn generate_pawn_attacks(pawn_board: u64, color: u8) -> (r: u64)
    ensures
        r == pawn_attack_spec(pawn_board, color),
{
    if color == WHITE_ID {
        return ((pawn_board & !H_FILE_MASK) >> 7) | ((pawn_board & !A_FILE_MASK) >> 9);
    }
    ((pawn_board & !A_FILE_MASK) << 7) | ((pawn_board & !H_FILE_MASK) << 9)
}

} // verus!
