//! Square and bitboard helpers: algebraic names, directional shifts, bit
//! scans, subset enumeration, and the bit lemmas the other modules use.
use vstd::prelude::*;
use vstd::string::*;

use crate::constants::{A_FILE_MASK, H_FILE_MASK};

verus! {

/// Whether (row, col) names a square of the board.
pub open spec fn on_board(row: int, col: int) -> bool {
    0 <= row < 8 && 0 <= col < 8
}

/// The bitboard holding square `i` alone.
pub open spec fn sq(i: int) -> u64 {
    1u64 << (i as u64)
}

/// Whether square `i` is a member of bitboard `b`.
pub open spec fn has_sq(b: u64, i: int) -> bool {
    (b >> (i as u64)) & 1u64 == 1u64
}

/// `sub` holds no square outside `bits`.
pub open spec fn is_subset(sub: u64, bits: u64) -> bool {
    sub & !bits == 0
}

/// The (row, col) named by a two-character algebraic square such as "e4".
pub open spec fn square_spec(s: Seq<char>) -> Option<(u32, u32)> {
    if s.len() == 2 && 'a' <= s[0] <= 'h' && '1' <= s[1] <= '8' {
        Some(((8 - (s[1] as u32 - '0' as u32)) as u32, (s[0] as u32 - 'a' as u32) as u32))
    } else {
        None
    }
}

/// The file letter of column `col`.
pub open spec fn file_char(col: int) -> char {
    (col + 'a' as int) as char
}

/// The rank digit of row `row`.
pub open spec fn rank_char(row: int) -> char {
    (8 - row + '0' as int) as char
}

/// The decimal digits of `n`, most significant first.
pub open spec fn decimal_spec(n: nat) -> Seq<char>
    decreases n,
{
    if n < 10 {
        seq![(n + '0' as int) as char]
    } else {
        decimal_spec(n / 10).push(((n % 10) + '0' as int) as char)
    }
}

/// Parses an algebraic square: its file a-h and its rank 1-8.
pub fn string_to_square(s: &str) -> (r: Option<(u32, u32)>)
    ensures
        r == square_spec(s@),
{
    if s.unicode_len() != 2 {
        return None;
    }
    let first_char = s.get_char(0);
    let second_char = s.get_char(1);
    if 'a' <= first_char && first_char <= 'h' && '1' <= second_char && second_char <= '8' {
        Some((8 - (second_char as u32 - '0' as u32), first_char as u32 - 'a' as u32))
    } else {
        None
    }
}

pub fn square_to_index(row: u32, col: u32) -> (r: u32)
    requires
        row < 8,
        col < 8,
    ensures
        r == row * 8 + col,
        r < 64,
{
    row * 8 + col
}

pub fn index_to_square(index: u32) -> (r: (u32, u32))
    ensures
        r.0 == index / 8,
        r.1 == index % 8,
{
    (index / 8, index % 8)
}

/// Relies on `String::push`: appends one character.
#[verifier::external_body]
pub(crate) fn push_char(s: &mut String, c: char)
    ensures
        final(s)@ == old(s)@.push(c),
{
    s.push(c)
}

/// Appends the decimal digits of `n`.
pub fn push_decimal(s: &mut String, n: u64)
    ensures
        final(s)@ == old(s)@ + decimal_spec(n as nat),
    decreases n,
{
    if n >= 10 {
        push_decimal(s, n / 10);
    }
    let d = (n % 10) as u8;
    push_char(s, (d + 48u8) as char);
    assert(final(s)@ =~= old(s)@ + decimal_spec(n as nat));
}

/// The algebraic name of a square, such as "h4".
pub fn square_to_string(row: u32, col: u32) -> (r: String)
    requires
        row < 8,
        col < 8,
    ensures
        r@ == seq![file_char(col as int), rank_char(row as int)],
{
    let mut s = String::new();
    push_char(&mut s, (col as u8 + 97u8) as char);
    push_char(&mut s, ((8 - row) as u8 + 48u8) as char);
    assert(s@ =~= seq![file_char(col as int), rank_char(row as int)]);
    s
}

pub fn extract_bit(bits: u64, index: u8) -> (r: u64)
    requires
        index < 64,
    ensures
        r == (if has_sq(bits, index as int) { 1u64 } else { 0u64 }),
{
    let r = (bits >> index) & 1;
    assert(((bits >> index) & 1u64) == 1u64 || ((bits >> index) & 1u64) == 0u64) by (bit_vector);
    r
}

/// Shifts every square one file towards a; squares on file a drop off.
pub fn west_one(bits: u64) -> (r: u64)
    ensures
        r == (bits & !A_FILE_MASK) >> 1u64,
        forall|i: int| 0 <= i < 64 ==> (#[trigger] has_sq(r, i) <==> (i % 8 != 7 && has_sq(bits, i + 1))),
{
    let r = (bits & !A_FILE_MASK) >> 1;
    assert forall|i: int| 0 <= i < 64 implies (#[trigger] has_sq(r, i) <==> (i % 8 != 7 && has_sq(bits, i + 1))) by {
        let j = i as u64;
        assert(((r >> j) & 1u64 == 1u64) <==> (j % 8 != 7 && (bits >> (j + 1) as u64) & 1u64 == 1u64)) by (bit_vector)
            requires r == (bits & !0x0101010101010101u64) >> 1u64, j < 64;
    }
    r
}

/// Shifts every square one file towards h; squares on file h drop off.
pub fn east_one(bits: u64) -> (r: u64)
    ensures
        r == (bits & !H_FILE_MASK) << 1u64,
        forall|i: int| 0 <= i < 64 ==> (#[trigger] has_sq(r, i) <==> (i % 8 != 0 && has_sq(bits, i - 1))),
{
    let r = (bits & !H_FILE_MASK) << 1;
    assert forall|i: int| 0 <= i < 64 implies (#[trigger] has_sq(r, i) <==> (i % 8 != 0 && has_sq(bits, i - 1))) by {
        let j = i as u64;
        assert(((r >> j) & 1u64 == 1u64) <==> (j % 8 != 0 && (bits >> (j - 1) as u64) & 1u64 == 1u64)) by (bit_vector)
            requires r == (bits & !0x8080808080808080u64) << 1u64, j < 64;
    }
    r
}

/// Shifts every square one rank towards rank 8; squares on rank 8 drop off.
pub fn north_one(bits: u64) -> (r: u64)
    ensures
        r == bits >> 8u64,
        forall|i: int| 0 <= i < 64 ==> (#[trigger] has_sq(r, i) <==> (i < 56 && has_sq(bits, i + 8))),
{
    let r = bits >> 8;
    assert forall|i: int| 0 <= i < 64 implies (#[trigger] has_sq(r, i) <==> (i < 56 && has_sq(bits, i + 8))) by {
        let j = i as u64;
        assert(((r >> j) & 1u64 == 1u64) <==> (j < 56 && (bits >> (j + 8) as u64) & 1u64 == 1u64)) by (bit_vector)
            requires r == bits >> 8u64, j < 64;
    }
    r
}

/// Shifts every square one rank towards rank 1; squares on rank 1 drop off.
pub fn south_one(bits: u64) -> (r: u64)
    ensures
        r == bits << 8u64,
        forall|i: int| 0 <= i < 64 ==> (#[trigger] has_sq(r, i) <==> (i >= 8 && has_sq(bits, i - 8))),
{
    let r = bits << 8;
    assert forall|i: int| 0 <= i < 64 implies (#[trigger] has_sq(r, i) <==> (i >= 8 && has_sq(bits, i - 8))) by {
        let j = i as u64;
        assert(((r >> j) & 1u64 == 1u64) <==> (j >= 8 && (bits >> (j - 8) as u64) & 1u64 == 1u64)) by (bit_vector)
            requires r == bits << 8u64, j < 64;
    }
    r
}

proof fn lemma_clear_lowest(b: u64, t: u64)
    by (bit_vector)
    requires
        b != 0,
        t < 64,
        (b >> t) & 1u64 == 1u64,
        b << ((64 - t) as u64) == 0,
    ensures
        (b & !(1u64 << t)) < b,
        forall|j: u64| j < 64 ==> (((b & !(1u64 << t)) >> j) & 1u64 == 1u64 <==> (j != t && (b >> j) & 1u64 == 1u64)),
        forall|j: u64| j < t ==> (b >> j) & 1u64 == 0u64,
{
}

/// The indices of the set bits of `bits`, in ascending order.
pub fn get_indices_of_ones(bits: u64) -> (r: Vec<u32>)
    ensures
        forall|k: int| 0 <= k < r.len() ==> r[k] < 64 && has_sq(bits, r[k] as int),
        forall|i: int| 0 <= i < 64 && has_sq(bits, i) ==> r@.contains(i as u32),
        forall|k: int, l: int| 0 <= k < l < r.len() ==> r[k] < r[l],
{
    let mut r: Vec<u32> = Vec::new();
    let mut remaining = bits;
    while remaining != 0
        invariant
            forall|k: int| 0 <= k < r.len() ==> r[k] < 64 && has_sq(bits, r[k] as int) && !has_sq(remaining, r[k] as int),
            forall|i: int| 0 <= i < 64 && has_sq(bits, i) && !has_sq(remaining, i) ==> r@.contains(i as u32),
            forall|i: int| 0 <= i < 64 && has_sq(remaining, i) ==> has_sq(bits, i),
            forall|k: int, l: int| 0 <= k < l < r.len() ==> r[k] < r[l],
            forall|k: int, i: int| 0 <= k < r.len() && 0 <= i < 64 && has_sq(remaining, i) ==> r[k] < i,
        decreases remaining,
    {
        let t = remaining.trailing_zeros();
        proof {
            vstd::std_specs::bits::axiom_u64_trailing_zeros(remaining);
            lemma_clear_lowest(remaining, t as u64);
        }
        let next = remaining & !(1u64 << t);
        proof {
            assert forall|i: int| 0 <= i < 64 && has_sq(next, i) implies has_sq(remaining, i) && i != t by {
                assert(((next >> (i as u64)) & 1u64 == 1u64) <==> ((i as u64) != (t as u64) && (remaining >> (i as u64)) & 1u64 == 1u64));
            }
            assert forall|i: int| 0 <= i < 64 && has_sq(remaining, i) && i != t implies has_sq(next, i) by {
                assert(((next >> (i as u64)) & 1u64 == 1u64) <==> ((i as u64) != (t as u64) && (remaining >> (i as u64)) & 1u64 == 1u64));
            }
            assert forall|i: int| 0 <= i < 64 && has_sq(remaining, i) implies t <= i by {
                if i < t {
                    assert((remaining >> (i as u64)) & 1u64 == 0u64);
                }
            }
        }
        let ghost old_r = r@;
        let ghost old_remaining = remaining;
        assert(has_sq(remaining, t as int));
        assert(forall|k: int| 0 <= k < old_r.len() ==> old_r[k] < t);
        r.push(t);
        remaining = next;
        proof {
            assert forall|i: int| 0 <= i < 64 && has_sq(bits, i) && !has_sq(remaining, i) implies r@.contains(i as u32) by {
                if i == t {
                    assert(r@[r.len() - 1] == i as u32);
                } else {
                    assert(!has_sq(old_remaining, i));
                    assert(old_r.contains(i as u32));
                    let k = choose|k: int| 0 <= k < old_r.len() && old_r[k] == i as u32;
                    assert(r@[k] == i as u32);
                }
            }
        }
    }
    proof {
        assert forall|i: int| 0 <= i < 64 implies !has_sq(remaining, i) by {
            let j = i as u64;
            assert((0u64 >> j) & 1u64 == 0u64) by (bit_vector);
        }
    }
    r
}

proof fn lemma_split_lowest(bits: u64, acc: u64)
    by (bit_vector)
    requires
        bits != 0,
        acc & bits == 0,
    ensures
        bits & ((bits - 1) as u64) < bits,
        acc & (bits & ((bits - 1) as u64)) == 0,
        (acc | (bits ^ (bits & ((bits - 1) as u64)))) & (bits & ((bits - 1) as u64)) == 0,
        forall|s: u64| #[trigger] is_subset(s, bits) && s & (bits ^ (bits & ((bits - 1) as u64))) == 0 ==> is_subset(s, bits & ((bits - 1) as u64)),
        forall|s: u64| #[trigger] is_subset(s, bits) && s & (bits ^ (bits & ((bits - 1) as u64))) != 0 ==>
            is_subset(s & (bits & ((bits - 1) as u64)), bits & ((bits - 1) as u64))
            && (acc | (bits ^ (bits & ((bits - 1) as u64)))) | (s & (bits & ((bits - 1) as u64))) == acc | s,
        forall|s: u64| #[trigger] is_subset(s, bits & ((bits - 1) as u64)) ==> is_subset(s, bits),
        forall|s: u64| is_subset(s, acc | (bits & ((bits - 1) as u64))) ==> #[trigger] is_subset(s, acc | bits),
        forall|s: u64| is_subset(s, (acc | (bits ^ (bits & ((bits - 1) as u64)))) | (bits & ((bits - 1) as u64))) ==> #[trigger] is_subset(s, acc | bits),
        forall|x: u64| #[trigger] is_subset(x, acc | (bits & ((bits - 1) as u64))) ==> x & (bits ^ (bits & ((bits - 1) as u64))) == 0,
        forall|y: u64| #[trigger] is_subset(acc | (bits ^ (bits & ((bits - 1) as u64))), y) ==> y & (bits ^ (bits & ((bits - 1) as u64))) != 0 && is_subset(acc, y),
{
}

/// Appends `acc | s` for every subset `s` of `bits`.
fn collect_subsets(bits: u64, acc: u64, out: &mut Vec<u64>)
    requires
        acc & bits == 0,
    ensures
        final(out).len() >= old(out).len(),
        forall|i: int| 0 <= i < old(out).len() ==> final(out)[i] == old(out)[i],
        forall|i: int| old(out).len() <= i < final(out).len() ==> is_subset(#[trigger] final(out)[i], acc | bits),
        forall|s: u64| #[trigger] is_subset(s, bits) ==> exists|i: int| 0 <= i < final(out).len() && final(out)[i] == acc | s,
        forall|i: int| old(out).len() <= i < final(out).len() ==> is_subset(acc, #[trigger] final(out)[i]),
        forall|i: int, j: int| old(out).len() <= i < j < final(out).len() ==> final(out)[i] != final(out)[j],
    decreases bits,
{
    if bits == 0 {
        out.push(acc);
        proof {
            assert forall|s: u64| #[trigger] is_subset(s, bits) implies exists|i: int| 0 <= i < out.len() && out[i] == acc | s by {
                assert(acc | s == acc) by (bit_vector) requires s & !bits == 0, bits == 0;
                assert(out[out.len() - 1] == acc | s);
            }
            assert(acc & !(acc | bits) == 0 && acc & !acc == 0) by (bit_vector);
        }
    } else {
        let rest = bits & (bits - 1);
        let low = bits ^ rest;
        proof {
            lemma_split_lowest(bits, acc);
        }
        let ghost before = out@;
        collect_subsets(rest, acc, out);
        let ghost mid = out@;
        collect_subsets(rest, acc | low, out);
        proof {
            assert forall|s: u64| #[trigger] is_subset(s, bits) implies exists|i: int| 0 <= i < out.len() && out[i] == acc | s by {
                if s & low == 0 {
                    assert(is_subset(s, rest));
                    let i = choose|i: int| 0 <= i < mid.len() && mid[i] == acc | s;
                    assert(out[i] == acc | s);
                } else {
                    let t = s & rest;
                    assert(is_subset(t, rest));
                    let i = choose|i: int| 0 <= i < out.len() && out[i] == (acc | low) | t;
                    assert(out[i] == acc | s);
                }
            }
            assert forall|i: int| before.len() <= i < out.len() implies is_subset(#[trigger] out[i], acc | bits) by {
                if i < mid.len() {
                    assert(is_subset(mid[i], acc | rest));
                } else {
                    assert(is_subset(out[i], (acc | low) | rest));
                }
            }
            assert forall|i: int| before.len() <= i < out.len() implies is_subset(acc, #[trigger] out[i]) by {
                if i < mid.len() {
                    assert(out[i] == mid[i]);
                    assert(is_subset(acc, mid[i]));
                } else {
                    assert(is_subset(acc | low, out[i]));
                }
            }
            assert forall|i: int, j: int| before.len() <= i < j < out.len() implies out[i] != out[j] by {
                if j < mid.len() {
                    assert(out[i] == mid[i] && out[j] == mid[j]);
                } else if i >= mid.len() {
                } else {
                    assert(out[i] == mid[i]);
                    assert(is_subset(mid[i], acc | rest));
                    assert(is_subset(acc | low, out[j]));
                }
            }
        }
    }
}

/// Every subset of `mask`, the empty set and `mask` included, each once.
pub fn enumerate_subsets(mask: u64) -> (r: Vec<u64>)
    ensures
        r@.no_duplicates(),
        forall|i: int| 0 <= i < r.len() ==> is_subset(#[trigger] r[i], mask),
        forall|s: u64| #[trigger] is_subset(s, mask) ==> exists|i: int| 0 <= i < r.len() && r[i] == s,
{
    let mut r: Vec<u64> = Vec::new();
    assert(0u64 & mask == 0) by (bit_vector);
    collect_subsets(mask, 0, &mut r);
    proof {
        assert forall|s: u64| #[trigger] is_subset(s, mask) implies exists|i: int| 0 <= i < r.len() && r[i] == s by {
            assert(0u64 | s == s) by (bit_vector);
        }
        assert forall|i: int| 0 <= i < r.len() implies is_subset(#[trigger] r[i], mask) by {
            assert(0u64 | mask == mask) by (bit_vector);
        }
    }
    r
}

/// Setting square `i` adds exactly that square.
pub proof fn lemma_set_square(b: u64, i: int)
    requires
        0 <= i < 64,
    ensures
        forall|j: int| 0 <= j < 64 ==> (#[trigger] has_sq(b | sq(i), j) <==> (has_sq(b, j) || j == i)),
{
    assert forall|j: int| 0 <= j < 64 implies (#[trigger] has_sq(b | sq(i), j) <==> (has_sq(b, j) || j == i)) by {
        let x = i as u64;
        let y = j as u64;
        assert((((b | (1u64 << x)) >> y) & 1u64 == 1u64) <==> ((b >> y) & 1u64 == 1u64 || y == x)) by (bit_vector)
            requires x < 64, y < 64;
    }
}

/// Clearing square `i` removes exactly that square.
pub proof fn lemma_clear_square(b: u64, i: int)
    requires
        0 <= i < 64,
    ensures
        forall|j: int| 0 <= j < 64 ==> (#[trigger] has_sq(b & !sq(i), j) <==> (has_sq(b, j) && j != i)),
{
    assert forall|j: int| 0 <= j < 64 implies (#[trigger] has_sq(b & !sq(i), j) <==> (has_sq(b, j) && j != i)) by {
        let x = i as u64;
        let y = j as u64;
        assert((((b & !(1u64 << x)) >> y) & 1u64 == 1u64) <==> ((b >> y) & 1u64 == 1u64 && y != x)) by (bit_vector)
            requires x < 64, y < 64;
    }
}

/// Squares of the bitwise operations.
pub proof fn lemma_square_ops(a: u64, b: u64)
    ensures
        forall|j: int| 0 <= j < 64 ==> (#[trigger] has_sq(a | b, j) <==> (has_sq(a, j) || has_sq(b, j))),
        forall|j: int| 0 <= j < 64 ==> (#[trigger] has_sq(a & b, j) <==> (has_sq(a, j) && has_sq(b, j))),
        forall|j: int| 0 <= j < 64 ==> (#[trigger] has_sq(!a, j) <==> !has_sq(a, j)),
{
    assert forall|j: int| 0 <= j < 64 implies (#[trigger] has_sq(a | b, j) <==> (has_sq(a, j) || has_sq(b, j))) by {
        let y = j as u64;
        assert((((a | b) >> y) & 1u64 == 1u64) <==> ((a >> y) & 1u64 == 1u64 || (b >> y) & 1u64 == 1u64)) by (bit_vector);
    }
    assert forall|j: int| 0 <= j < 64 implies (#[trigger] has_sq(a & b, j) <==> (has_sq(a, j) && has_sq(b, j))) by {
        let y = j as u64;
        assert((((a & b) >> y) & 1u64 == 1u64) <==> ((a >> y) & 1u64 == 1u64 && (b >> y) & 1u64 == 1u64)) by (bit_vector);
    }
    assert forall|j: int| 0 <= j < 64 implies (#[trigger] has_sq(!a, j) <==> !has_sq(a, j)) by {
        let y = j as u64;
        assert((((!a) >> y) & 1u64 == 1u64) <==> !((a >> y) & 1u64 == 1u64)) by (bit_vector)
            requires y < 64;
    }
}

/// A bitboard is zero exactly when it holds no square.
pub proof fn lemma_zero_iff_empty(a: u64)
    ensures
        a == 0 <==> forall|j: int| 0 <= j < 64 ==> !#[trigger] has_sq(a, j),
{
    if a != 0 {
        vstd::std_specs::bits::axiom_u64_trailing_zeros(a);
        let t = a.trailing_zeros();
        assert(has_sq(a, t as int));
    } else {
        assert forall|j: int| 0 <= j < 64 implies !#[trigger] has_sq(a, j) by {
            let y = j as u64;
            assert((0u64 >> y) & 1u64 == 0u64) by (bit_vector);
        }
    }
}

/// The squares from `min(i, j)` to `max(i, j)`, both included.
pub fn fill_between_indices(i: u32, j: u32) -> (r: u64)
    requires
        i < 64,
        j < 64,
    ensures
        forall|k: int|
            0 <= k < 64 ==> (#[trigger] has_sq(r, k) <==> ((i <= k <= j) || (j <= k <= i))),
{
    let (lo, hi) = if i <= j {
        (i as u64, j as u64)
    } else {
        (j as u64, i as u64)
    };
    let high_ones: u64 = if hi == 63 {
        0xffff_ffff_ffff_ffff
    } else {
        assert(1u64 << (hi + 1) as u64 >= 1) by (bit_vector) requires hi < 63;
        (1u64 << (hi + 1)) - 1
    };
    assert(1u64 << lo >= 1) by (bit_vector) requires lo < 64;
    let low_ones: u64 = (1u64 << lo) - 1;
    let r = high_ones ^ low_ones;
    assert forall|k: int| 0 <= k < 64 implies (#[trigger] has_sq(r, k) <==> ((i <= k <= j) || (j <= k <= i))) by {
        let y = k as u64;
        assert(((r >> y) & 1u64 == 1u64) <==> (lo <= y && y <= hi)) by (bit_vector)
            requires
                lo <= hi,
                hi < 64,
                y < 64,
                hi == 63 ==> high_ones == 0xffff_ffff_ffff_ffffu64,
                hi < 63 ==> high_ones == ((1u64 << ((hi + 1) as u64)) - 1) as u64,
                low_ones == ((1u64 << lo) - 1) as u64,
                r == high_ones ^ low_ones,
        ;
    }
    r
}

/// Mirrors the board about the a8-h1 diagonal: the square on (row, col) goes
/// to (col, row).
pub fn flip_diag_a8h1(bits: u64) -> (r: u64)
    ensures
        forall|i: int| 0 <= i < 64 ==> (#[trigger] has_sq(r, i) <==> has_sq(bits, (i % 8) * 8 + i / 8)),
{
    let mut r: u64 = 0;
    let mut i: u32 = 0;
    proof {
        lemma_zero_iff_empty(0);
    }
    while i < 64
        invariant
            i <= 64,
            forall|j: int| 0 <= j < 64 ==> (#[trigger] has_sq(r, j) <==> (j < i && has_sq(bits, (j % 8) * 8 + j / 8))),
        decreases 64 - i,
    {
        let source = (i % 8) * 8 + i / 8;
        assert(source as int == ((i as int) % 8) * 8 + (i as int) / 8);
        let ghost old_r = r;
        if (bits >> (source as u64)) & 1 == 1 {
            proof {
                lemma_set_square(r, i as int);
            }
            r = r | (1u64 << (i as u64));
            assert(r == old_r | sq(i as int));
        }
        assert forall|j: int| 0 <= j < 64 implies (#[trigger] has_sq(r, j) <==> (j < i + 1 && has_sq(bits, (j % 8) * 8 + j / 8))) by {
            assert(has_sq(old_r, j) <==> (j < i && has_sq(bits, (j % 8) * 8 + j / 8)));
        }
        i = i + 1;
    }
    r
}

} // verus!
