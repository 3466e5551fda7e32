//! Slider attacks: their definition as ray walks, the relevant occupancy
//! masks, and perfect-hash (magic) tables proved to agree with the walks.
use vstd::prelude::*;

use crate::utility::{enumerate_subsets, is_subset, on_board, sq};

verus! {

/// Number of index bits of every magic table.
pub const LOOKUP_BITS: usize = 13;
/// Number of slots of every magic table.
pub const LOOKUP_SIZE: usize = 8192;
/// How many candidate magics are drawn for one square before giving up.
pub const MAX_ATTEMPTS: u32 = 1000000;

/// The two kinds of sliding movement; a queen combines both.
#[derive(Clone, Copy, PartialEq, Eq, Structural, Debug)]
pub enum Slider {
    Rook,
    Bishop,
}

/// Squares reached from (row, col) stepping by (dr, dc): every empty square,
/// and the first occupied one, which stops the ray.
pub open spec fn ray_walk(row: int, col: int, dr: int, dc: int, occ: u64, fuel: nat) -> u64
    decreases fuel,
{
    if fuel == 0 || !on_board(row + dr, col + dc) {
        0
    } else {
        let b = sq((row + dr) * 8 + col + dc);
        if occ & b != 0 {
            b
        } else {
            b | ray_walk(row + dr, col + dc, dr, dc, occ, (fuel - 1) as nat)
        }
    }
}

/// Squares of a ray from (row, col) whose occupancy can stop it: all but the
/// last square before the edge.
pub open spec fn ray_inner(row: int, col: int, dr: int, dc: int, fuel: nat) -> u64
    decreases fuel,
{
    if fuel == 0 || !on_board(row + dr, col + dc) || !on_board(row + 2 * dr, col + 2 * dc) {
        0
    } else {
        sq((row + dr) * 8 + col + dc) | ray_inner(row + dr, col + dc, dr, dc, (fuel - 1) as nat)
    }
}

/// Steps of the four rays of a slider.
pub open spec fn step(kind: Slider, d: int) -> (int, int) {
    match kind {
        Slider::Rook => if d == 0 {
            (-1, 0)
        } else if d == 1 {
            (1, 0)
        } else if d == 2 {
            (0, 1)
        } else {
            (0, -1)
        },
        Slider::Bishop => if d == 0 {
            (-1, 1)
        } else if d == 1 {
            (-1, -1)
        } else if d == 2 {
            (1, 1)
        } else {
            (1, -1)
        },
    }
}

pub open spec fn ray_of(kind: Slider, s: int, d: int, occ: u64) -> u64 {
    ray_walk(s / 8, s % 8, step(kind, d).0, step(kind, d).1, occ, 7)
}

pub open spec fn inner_of(kind: Slider, s: int, d: int) -> u64 {
    ray_inner(s / 8, s % 8, step(kind, d).0, step(kind, d).1, 7)
}

/// The squares a slider of `kind` on `s` attacks, given the occupancy `occ`:
/// along each of its four rays, up to and including the first blocker.
pub open spec fn slider_attack(kind: Slider, s: int, occ: u64) -> u64 {
    ray_of(kind, s, 0, occ) | ray_of(kind, s, 1, occ) | ray_of(kind, s, 2, occ) | ray_of(
        kind,
        s,
        3,
        occ,
    )
}

/// The relevant occupancy mask of a slider on `s`.
pub open spec fn relevant_mask_spec(kind: Slider, s: int) -> u64 {
    inner_of(kind, s, 0) | inner_of(kind, s, 1) | inner_of(kind, s, 2) | inner_of(kind, s, 3)
}

/// The slot of `blockers` in a table of 2^bits slots under `magic`.
pub open spec fn hash_spec(blockers: u64, magic: u64, bits: usize) -> int {
    let mult = ((blockers as u128) * (magic as u128)) as u128;
    ((mult >> ((64 - bits) as u128)) & (((1u128 << (bits as u128)) - 1) as u128)) as int
}

proof fn lemma_ray_relevant(row: int, col: int, dr: int, dc: int, occ: u64, m: u64, fuel: nat)
    requires
        is_subset(ray_inner(row, col, dr, dc, fuel), m),
    ensures
        ray_walk(row, col, dr, dc, occ, fuel) == ray_walk(row, col, dr, dc, occ & m, fuel),
    decreases fuel,
{
    if fuel == 0 || !on_board(row + dr, col + dc) {
    } else {
        let b = sq((row + dr) * 8 + col + dc);
        let f1 = (fuel - 1) as nat;
        if !on_board(row + 2 * dr, col + 2 * dc) || f1 == 0 {
            assert(ray_walk(row + dr, col + dc, dr, dc, occ, f1) == 0);
            assert(ray_walk(row + dr, col + dc, dr, dc, occ & m, f1) == 0);
            assert(b | 0u64 == b) by (bit_vector);
        } else {
            let rest = ray_inner(row + dr, col + dc, dr, dc, f1);
            assert(ray_inner(row, col, dr, dc, fuel) == b | rest);
            assert(is_subset(rest, m) && (occ & m) & b == occ & b) by (bit_vector)
                requires
                    (b | rest) & !m == 0,
            ;
            lemma_ray_relevant(row + dr, col + dc, dr, dc, occ, m, f1);
        }
    }
}

/// A slider's attack depends on the occupancy of its relevant mask alone.
pub proof fn lemma_attack_relevant(kind: Slider, s: int, occ: u64)
    ensures
        slider_attack(kind, s, occ) == slider_attack(kind, s, occ & relevant_mask_spec(kind, s)),
{
    let m = relevant_mask_spec(kind, s);
    let i0 = inner_of(kind, s, 0);
    let i1 = inner_of(kind, s, 1);
    let i2 = inner_of(kind, s, 2);
    let i3 = inner_of(kind, s, 3);
    assert(is_subset(i0, m) && is_subset(i1, m) && is_subset(i2, m) && is_subset(i3, m)) by (bit_vector)
        requires
            m == i0 | i1 | i2 | i3,
    ;
    lemma_ray_relevant(s / 8, s % 8, step(kind, 0).0, step(kind, 0).1, occ, m, 7);
    lemma_ray_relevant(s / 8, s % 8, step(kind, 1).0, step(kind, 1).1, occ, m, 7);
    lemma_ray_relevant(s / 8, s % 8, step(kind, 2).0, step(kind, 2).1, occ, m, 7);
    lemma_ray_relevant(s / 8, s % 8, step(kind, 3).0, step(kind, 3).1, occ, m, 7);
    assert(ray_of(kind, s, 0, occ) == ray_of(kind, s, 0, occ & m));
    assert(ray_of(kind, s, 1, occ) == ray_of(kind, s, 1, occ & m));
    assert(ray_of(kind, s, 2, occ) == ray_of(kind, s, 2, occ & m));
    assert(ray_of(kind, s, 3, occ) == ray_of(kind, s, 3, occ & m));
}

fn ray_attack(row: i32, col: i32, dr: i32, dc: i32, occ: u64, fuel: u32) -> (r: u64)
    requires
        0 <= row < 8,
        0 <= col < 8,
        -1 <= dr <= 1,
        -1 <= dc <= 1,
    ensures
        r == ray_walk(row as int, col as int, dr as int, dc as int, occ, fuel as nat),
    decreases fuel,
{
    let next_row = row + dr;
    let next_col = col + dc;
    if fuel == 0 || !(0 <= next_row && next_row < 8 && 0 <= next_col && next_col < 8) {
        0
    } else {
        let b = 1u64 << ((next_row * 8 + next_col) as u64);
        if occ & b != 0 {
            b
        } else {
            b | ray_attack(next_row, next_col, dr, dc, occ, fuel - 1)
        }
    }
}

fn ray_mask(row: i32, col: i32, dr: i32, dc: i32, fuel: u32) -> (r: u64)
    requires
        0 <= row < 8,
        0 <= col < 8,
        -1 <= dr <= 1,
        -1 <= dc <= 1,
    ensures
        r == ray_inner(row as int, col as int, dr as int, dc as int, fuel as nat),
    decreases fuel,
{
    let next_row = row + dr;
    let next_col = col + dc;
    if fuel == 0 || !(0 <= next_row && next_row < 8 && 0 <= next_col && next_col < 8) || !(0
        <= next_row + dr && next_row + dr < 8 && 0 <= next_col + dc && next_col + dc < 8) {
        0
    } else {
        (1u64 << ((next_row * 8 + next_col) as u64)) | ray_mask(next_row, next_col, dr, dc, fuel - 1)
    }
}

fn step_of(kind: Slider, d: u32) -> (r: (i32, i32))
    requires
        d < 4,
    ensures
        r.0 == step(kind, d as int).0,
        r.1 == step(kind, d as int).1,
{
    match kind {
        Slider::Rook => if d == 0 {
            (-1, 0)
        } else if d == 1 {
            (1, 0)
        } else if d == 2 {
            (0, 1)
        } else {
            (0, -1)
        },
        Slider::Bishop => if d == 0 {
            (-1, 1)
        } else if d == 1 {
            (-1, -1)
        } else if d == 2 {
            (1, 1)
        } else {
            (1, -1)
        },
    }
}

/// The attack of a slider, walked square by square.
pub fn slider_attack_walk(kind: Slider, index: u32, blockers: u64) -> (r: u64)
    requires
        index < 64,
    ensures
        r == slider_attack(kind, index as int, blockers),
{
    let row = (index / 8) as i32;
    let col = (index % 8) as i32;
    let (r0, c0) = step_of(kind, 0);
    let (r1, c1) = step_of(kind, 1);
    let (r2, c2) = step_of(kind, 2);
    let (r3, c3) = step_of(kind, 3);
    ray_attack(row, col, r0, c0, blockers, 7) | ray_attack(row, col, r1, c1, blockers, 7)
        | ray_attack(row, col, r2, c2, blockers, 7) | ray_attack(row, col, r3, c3, blockers, 7)
}

/// The squares a rook on `rook_index` attacks, walked square by square.
pub fn rook_attack(blockers: u64, rook_index: u32) -> (r: u64)
    requires
        rook_index < 64,
    ensures
        r == slider_attack(Slider::Rook, rook_index as int, blockers),
{
    slider_attack_walk(Slider::Rook, rook_index, blockers)
}

/// The squares a bishop on `bishop_index` attacks, walked square by square.
pub fn bishop_attack(blockers: u64, bishop_index: u32) -> (r: u64)
    requires
        bishop_index < 64,
    ensures
        r == slider_attack(Slider::Bishop, bishop_index as int, blockers),
{
    slider_attack_walk(Slider::Bishop, bishop_index, blockers)
}

/// The relevant occupancy mask of a slider on `index`.
pub fn relevant_mask(kind: Slider, index: u32) -> (r: u64)
    requires
        index < 64,
    ensures
        r == relevant_mask_spec(kind, index as int),
{
    let row = (index / 8) as i32;
    let col = (index % 8) as i32;
    let (r0, c0) = step_of(kind, 0);
    let (r1, c1) = step_of(kind, 1);
    let (r2, c2) = step_of(kind, 2);
    let (r3, c3) = step_of(kind, 3);
    ray_mask(row, col, r0, c0, 7) | ray_mask(row, col, r1, c1, 7) | ray_mask(row, col, r2, c2, 7)
        | ray_mask(row, col, r3, c3, 7)
}

/// The slot of `blockers` in a table of `2^remaining_bits` slots: the top
/// `remaining_bits` bits of the low 64 bits of `blockers * magic`.
pub fn hash_board(blockers: u64, magic: u64, remaining_bits: usize) -> (r: usize)
    requires
        remaining_bits <= 64,
        (1u128 << (remaining_bits as u128)) - 1 <= usize::MAX,
    ensures
        r == hash_spec(blockers, magic, remaining_bits),
        r < (1u128 << (remaining_bits as u128)),
        remaining_bits == 13 ==> r < 8192,
{
    let b = blockers as u128;
    let m = magic as u128;
    assert(b * m <= 0xffff_ffff_ffff_ffff_ffff_ffff_ffff_ffffu128) by (nonlinear_arith)
        requires
            b <= 0xffff_ffff_ffff_ffff,
            m <= 0xffff_ffff_ffff_ffff,
    ;
    let mult = b * m;
    let rb = remaining_bits as u128;
    assert(1u128 << rb >= 1) by (bit_vector)
        requires
            rb <= 64,
    ;
    let mask = (1u128 << rb) - 1;
    let h = (mult >> (64 - rb)) & mask;
    assert(h < (1u128 << rb) && h <= mask && (rb == 13 ==> h < 8192)) by (bit_vector)
        requires
            rb <= 64,
            mask == (1u128 << rb) - 1,
            h == (mult >> ((64 - rb) as u128)) & mask,
    ;
    h as usize
}

proof fn lemma_hash_in_table(blockers: u64, magic: u64)
    ensures
        0 <= hash_spec(blockers, magic, LOOKUP_BITS) < LOOKUP_SIZE,
{
    let mult = ((blockers as u128) * (magic as u128)) as u128;
    assert((mult >> ((64 - 13usize) as u128)) & (((1u128 << (13usize as u128)) - 1) as u128) < 8192) by (bit_vector);
}

/// Relies on `fastrand::u64`: a pseudo-random 64-bit number; nothing is
/// assumed of its value.
#[verifier::external_body]
fn random_u64() -> (r: u64) {
    fastrand::u64(..)
}

/// A table in which every subset lands on a slot holding its attack, or
/// `None` when two subsets with different attacks collide under `magic`.
fn try_magic(subsets: &Vec<u64>, attacks: &Vec<u64>, magic: u64) -> (r: Option<Vec<u64>>)
    requires
        subsets.len() == attacks.len(),
    ensures
        r matches Some(table) ==> table.len() == LOOKUP_SIZE && forall|i: int|
            0 <= i < subsets.len() ==> table[hash_spec(#[trigger] subsets[i], magic, LOOKUP_BITS)]
                == attacks[i],
        r is None <==> exists|i: int, j: int|
            0 <= i < subsets.len() && 0 <= j < subsets.len() && #[trigger] hash_spec(
                subsets[i],
                magic,
                LOOKUP_BITS,
            ) == #[trigger] hash_spec(subsets[j], magic, LOOKUP_BITS) && attacks[i] != attacks[j],
{
    let mut table: Vec<u64> = vec![0u64; LOOKUP_SIZE];
    let mut filled: Vec<bool> = vec![false; LOOKUP_SIZE];
    let mut i: usize = 0;
    proof {
        assert forall|k: u64| 0 <= #[trigger] hash_spec(k, magic, LOOKUP_BITS) < LOOKUP_SIZE by {
            lemma_hash_in_table(k, magic);
        }
    }
    while i < subsets.len()
        invariant
            subsets.len() == attacks.len(),
            i <= subsets.len(),
            table.len() == LOOKUP_SIZE,
            filled.len() == LOOKUP_SIZE,
            forall|k: u64| 0 <= #[trigger] hash_spec(k, magic, LOOKUP_BITS) < LOOKUP_SIZE,
            forall|j: int|
                0 <= j < i ==> {
                    let h = hash_spec(#[trigger] subsets[j], magic, LOOKUP_BITS);
                    filled[h] && table[h] == attacks[j]
                },
            forall|h: int|
                0 <= h < LOOKUP_SIZE && #[trigger] filled[h] ==> exists|j: int|
                    0 <= j < i && hash_spec(subsets[j], magic, LOOKUP_BITS) == h && table[h]
                        == attacks[j],
        decreases subsets.len() - i,
    {
        assert((1u128 << (13usize as u128)) - 1 == 8191) by (bit_vector);
        let h = hash_board(subsets[i], magic, LOOKUP_BITS);
        if filled[h] && table[h] != attacks[i] {
            proof {
                let j = choose|j: int|
                    0 <= j < i && hash_spec(subsets[j], magic, LOOKUP_BITS) == h as int && table[h as int]
                        == attacks[j];
                assert(hash_spec(subsets[i as int], magic, LOOKUP_BITS) == hash_spec(subsets[j], magic, LOOKUP_BITS));
            }
            return None;
        }
        let ghost old_table = table@;
        let ghost old_filled = filled@;
        table.set(h, attacks[i]);
        filled.set(h, true);
        proof {
            assert forall|g: int|
                0 <= g < LOOKUP_SIZE && #[trigger] filled[g] implies exists|j: int|
                    0 <= j < i + 1 && hash_spec(subsets[j], magic, LOOKUP_BITS) == g && table[g]
                        == attacks[j] by {
                if g == h as int {
                    assert(hash_spec(subsets[i as int], magic, LOOKUP_BITS) == g && table[g] == attacks[i as int]);
                } else {
                    assert(old_filled[g]);
                    let j = choose|j: int|
                        0 <= j < i && hash_spec(subsets[j], magic, LOOKUP_BITS) == g && old_table[g]
                            == attacks[j];
                    assert(table[g] == attacks[j]);
                }
            }
        }
        i = i + 1;
    }
    proof {
        assert forall|a: int, b: int|
            0 <= a < subsets.len() && 0 <= b < subsets.len() && #[trigger] hash_spec(
                subsets[a],
                magic,
                LOOKUP_BITS,
            ) == #[trigger] hash_spec(subsets[b], magic, LOOKUP_BITS) implies attacks[a] == attacks[b] by {
            let h = hash_spec(subsets[a], magic, LOOKUP_BITS);
            assert(table[h] == attacks[a]);
        }
    }
    Some(table)
}

/// Draws candidate magics until one hashes every subset without a harmful
/// collision.
fn find_magic(subsets: &Vec<u64>, attacks: &Vec<u64>) -> (r: Option<(u64, Vec<u64>)>)
    requires
        subsets.len() == attacks.len(),
    ensures
        r matches Some((magic, table)) ==> table.len() == LOOKUP_SIZE && forall|i: int|
            0 <= i < subsets.len() ==> table[hash_spec(#[trigger] subsets[i], magic, LOOKUP_BITS)]
                == attacks[i],
{
    let mut attempt: u32 = 0;
    while attempt < MAX_ATTEMPTS
        invariant
            subsets.len() == attacks.len(),
        decreases MAX_ATTEMPTS - attempt,
    {
        // The AND of three draws leaves few bits set, which makes good magics likelier.
        let magic = random_u64() & random_u64() & random_u64();
        if let Some(table) = try_magic(subsets, attacks, magic) {
            return Some((magic, table));
        }
        attempt = attempt + 1;
    }
    None
}

/// Perfect-hash attack tables of one kind of slider, one per square.
pub struct MagicLookup {
    pub lookup: Vec<Vec<u64>>,
    pub magics: Vec<u64>,
    pub masks: Vec<u64>,
}

impl MagicLookup {
    /// Every square's table maps each relevant occupancy to the true attack.
    pub open spec fn wf(&self, kind: Slider) -> bool {
        &&& self.lookup.len() == 64
        &&& self.magics.len() == 64
        &&& self.masks.len() == 64
        &&& forall|s: int|
            0 <= s < 64 ==> {
                &&& #[trigger] self.masks[s] == relevant_mask_spec(kind, s)
                &&& self.lookup[s].len() == LOOKUP_SIZE
                &&& forall|k: u64|
                    #[trigger] is_subset(k, self.masks[s]) ==> self.lookup[s][hash_spec(
                        k,
                        self.magics[s],
                        LOOKUP_BITS,
                    )] == slider_attack(kind, s, k)
            }
    }

    /// Builds the tables of `kind`, or `None` if some square found no sound
    /// magic within the attempt budget.
    pub fn new(kind: Slider) -> (r: Option<MagicLookup>)
        ensures
            r matches Some(t) ==> t.wf(kind),
    {
        let mut lookup: Vec<Vec<u64>> = Vec::new();
        let mut magics: Vec<u64> = Vec::new();
        let mut masks: Vec<u64> = Vec::new();
        let mut s: u32 = 0;
        while s < 64
            invariant
                s <= 64,
                lookup.len() == s,
                magics.len() == s,
                masks.len() == s,
                forall|q: int|
                    0 <= q < s ==> {
                        &&& #[trigger] masks[q] == relevant_mask_spec(kind, q)
                        &&& lookup[q].len() == LOOKUP_SIZE
                        &&& forall|k: u64|
                            #[trigger] is_subset(k, masks[q]) ==> lookup[q][hash_spec(
                                k,
                                magics[q],
                                LOOKUP_BITS,
                            )] == slider_attack(kind, q, k)
                    },
            decreases 64 - s,
        {
            let mask = relevant_mask(kind, s);
            let subsets = enumerate_subsets(mask);
            let mut attacks: Vec<u64> = Vec::new();
            let mut i: usize = 0;
            while i < subsets.len()
                invariant
                    s < 64,
                    i <= subsets.len(),
                    attacks.len() == i,
                    forall|j: int|
                        0 <= j < i ==> #[trigger] attacks[j] == slider_attack(
                            kind,
                            s as int,
                            subsets[j],
                        ),
                decreases subsets.len() - i,
            {
                attacks.push(slider_attack_walk(kind, s, subsets[i]));
                i = i + 1;
            }
            match find_magic(&subsets, &attacks) {
                None => {
                    return None;
                },
                Some((magic, table)) => {
                    proof {
                        assert forall|k: u64| #[trigger] is_subset(k, mask) implies table[hash_spec(
                            k,
                            magic,
                            LOOKUP_BITS,
                        )] == slider_attack(kind, s as int, k) by {
                            let j = choose|j: int| 0 <= j < subsets.len() && subsets[j] == k;
                            assert(attacks[j] == slider_attack(kind, s as int, subsets[j]));
                        }
                    }
                    lookup.push(table);
                    magics.push(magic);
                    masks.push(mask);
                },
            }
            s = s + 1;
        }
        Some(MagicLookup { lookup, magics, masks })
    }

    /// The attack of a slider of `kind` on `index` under `occupancy`, looked up.
    pub fn attack(&self, kind: Slider, index: u32, occupancy: u64) -> (r: u64)
        requires
            self.wf(kind),
            index < 64,
        ensures
            r == slider_attack(kind, index as int, occupancy),
    {
        let s = index as usize;
        let mask = self.masks[s];
        let blockers = occupancy & mask;
        assert(is_subset(blockers, mask)) by (bit_vector)
            requires
                blockers == occupancy & mask,
        ;
        assert((1u128 << (13usize as u128)) - 1 == 8191) by (bit_vector);
        let h = hash_board(blockers, self.magics[s], LOOKUP_BITS);
        proof {
            lemma_attack_relevant(kind, index as int, occupancy);
        }
        self.lookup[s][h]
    }
}

/// Whether bit `j` of a rank byte is set.
pub open spec fn bit8(b: u8, j: int) -> bool {
    (b >> (j as u8)) & 1u8 == 1u8
}

/// The highest set bit of `occupancy` below `i`, or 0.
pub open spec fn rank_left(occupancy: u8, i: int) -> int
    decreases i,
{
    if i <= 0 {
        0
    } else if (occupancy >> ((i - 1) as u8)) & 1u8 == 1u8 {
        i - 1
    } else {
        rank_left(occupancy, i - 1)
    }
}

/// The lowest set bit of `occupancy` above `i`, or 7.
pub open spec fn rank_right(occupancy: u8, i: int) -> int
    decreases 7 - i,
{
    if i >= 7 {
        7
    } else if (occupancy >> ((i + 1) as u8)) & 1u8 == 1u8 {
        i + 1
    } else {
        rank_right(occupancy, i + 1)
    }
}

/// The squares of one rank a rook on `rook_index` reaches given the
/// occupancy of that rank: its own square, and each way up to and including
/// the first occupied square.
pub fn rook_rank_attack(rook_index: u32, occupancy: u8) -> (r: u8)
    requires
        rook_index < 8,
    ensures
        forall|j: int|
            0 <= j < 8 ==> (#[trigger] bit8(r, j) <==> (rank_left(occupancy, rook_index as int)
                <= j <= rank_right(occupancy, rook_index as int))),
{
    let mut left_index: u32 = rook_index;
    while left_index > 0 && (occupancy >> ((left_index - 1) as u8)) & 1 != 1
        invariant
            left_index <= rook_index < 8,
            rank_left(occupancy, left_index as int) == rank_left(occupancy, rook_index as int),
        decreases left_index,
    {
        left_index = left_index - 1;
    }
    if left_index > 0 {
        assert(rank_left(occupancy, left_index as int) == left_index - 1);
        left_index = left_index - 1;
    } else {
        assert(rank_left(occupancy, 0) == 0);
    }
    let mut right_index: u32 = rook_index;
    while right_index < 7 && (occupancy >> ((right_index + 1) as u8)) & 1 != 1
        invariant
            rook_index <= right_index <= 7,
            rank_right(occupancy, right_index as int) == rank_right(occupancy, rook_index as int),
        decreases 7 - right_index,
    {
        right_index = right_index + 1;
    }
    if right_index < 7 {
        assert(rank_right(occupancy, right_index as int) == right_index + 1);
        right_index = right_index + 1;
    } else {
        assert(rank_right(occupancy, 7) == 7);
    }
    let lo = left_index as u16;
    let hi = right_index as u16;
    assert(lo <= hi < 8);
    assert(1u16 << ((hi + 1) as u16) >= 1 && (1u16 << ((hi + 1) as u16)) - 1 <= 255 && 1u16 << lo
        >= 1 && (1u16 << lo) - 1 <= 255) by (bit_vector)
        requires
            lo <= hi,
            hi < 8,
    ;
    let high_ones = ((1u16 << (hi + 1)) - 1) as u8;
    let low_ones = ((1u16 << lo) - 1) as u8;
    assert(high_ones >= low_ones) by (bit_vector)
        requires
            lo <= hi,
            hi < 8,
            high_ones == (((1u16 << ((hi + 1) as u16)) - 1) as u16) as u8,
            low_ones == (((1u16 << lo) - 1) as u16) as u8,
    ;
    let r = high_ones - low_ones;
    assert forall|j: int| 0 <= j < 8 implies (#[trigger] bit8(r, j) <==> (lo <= j <= hi)) by {
        let y = j as u8;
        assert(((r >> y) & 1u8 == 1u8) <==> ((lo as u8) <= y && y <= (hi as u8))) by (bit_vector)
            requires
                lo <= hi,
                hi < 8,
                y < 8,
                high_ones == (((1u16 << ((hi + 1) as u16)) - 1) as u16) as u8,
                low_ones == (((1u16 << lo) - 1) as u16) as u8,
                r == (high_ones - low_ones) as u8,
        ;
    }
    r
}

/// `rook_rank_attack` on the six inner squares of the rank: the edge squares'
/// occupancy never changes the attack.
pub fn rook_rank_attack_fast(occupancy: u8, rook_index: u32) -> (r: u8)
    requires
        rook_index < 8,
    ensures
        forall|j: int|
            0 <= j < 8 ==> (#[trigger] bit8(r, j) <==> (rank_left(occupancy & 0x7e, rook_index as int)
                <= j <= rank_right(occupancy & 0x7e, rook_index as int))),
{
    rook_rank_attack(rook_index, occupancy & 0x7e)
}

} // verus!
