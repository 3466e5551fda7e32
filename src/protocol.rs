//! The line-oriented UCI front-end: tokens, moves in wire form, and the
//! decisions taken for each command. Reading, writing and searching are
//! left to the caller.
use vstd::prelude::*;
use vstd::string::*;

use crate::bitboard::{bitboard_after, holds_fen, Bitboard};
use crate::chess_move::{uci_spec, Move};
use crate::chessboard::{chess_fen_spec, legal_set_in, perft_spec, replay, Chessboard};
use crate::mailbox::{flags_spec, mailbox_after};
use crate::perft::{capped, moves_of};
use crate::utility::decimal_spec;
use crate::constants::{BISHOP_ID, KNIGHT_ID, QUEEN_ID, ROOK_ID, START_FEN};
use crate::fen::{decimal_value, fields_view, parse_decimal, str_chars, FenError};
use crate::move_generator::AttackTables;
use crate::perft;
use crate::utility::{push_char, push_decimal, square_spec};

verus! {

/// Why a protocol line was refused.
#[derive(Clone, Copy, PartialEq, Eq, Structural, Debug)]
pub enum UciError {
    /// `position` with no arguments.
    MissingArguments,
    /// `position fen` with no FEN.
    MissingFen,
    /// `position` followed by neither `startpos` nor `fen`.
    ExpectedStartposOrFen,
    /// Something other than `moves` after the position.
    ExpectedMovesKeyword,
    /// A move that is not in wire form.
    InvalidMove,
    /// `go perft` without exactly one depth.
    PerftArguments,
    /// A perft depth that is not a number from 0 to 255.
    InvalidDepth,
    /// A FEN string that does not describe a position.
    Fen(FenError),
}

/// What the caller has to do after a line was handled.
pub enum UciAction {
    /// Nothing.
    Nothing,
    /// Write these lines.
    Output(Vec<String>),
    /// Ask the engine for its best move in the current position and report it.
    Search,
    /// Stop reading lines.
    Quit,
}

/// The position the protocol was last given: a FEN string and the moves
/// played from it.
pub struct PositionState {
    pub fen: String,
    pub moves: Vec<Move>,
}

/// Every move of a list names two squares of the board.
pub open spec fn moves_on_board(moves: Seq<Move>) -> bool {
    forall|i: int| 0 <= i < moves.len() ==> (#[trigger] moves[i]).start_index < 64 && moves[i].end_index < 64
}

pub open spec fn is_space(c: char) -> bool {
    c == ' ' || c == '\t' || c == '\n' || c == '\r' || c == '\u{0B}' || c == '\u{0C}'
}

/// The whitespace-separated tokens of `s` from position `i`, with `cur`
/// the part of a token read so far.
pub open spec fn tokens_from(s: Seq<char>, i: int, cur: Seq<char>) -> Seq<Seq<char>>
    decreases s.len() - i,
{
    if i < 0 || i >= s.len() {
        if cur.len() > 0 {
            seq![cur]
        } else {
            Seq::empty()
        }
    } else if is_space(s[i]) {
        (if cur.len() > 0 {
            seq![cur]
        } else {
            Seq::empty()
        }) + tokens_from(s, i + 1, Seq::empty())
    } else {
        tokens_from(s, i + 1, cur.push(s[i]))
    }
}

pub open spec fn tokens_spec(s: Seq<char>) -> Seq<Seq<char>> {
    tokens_from(s, 0, Seq::empty())
}

/// The text of a list of lines.
pub open spec fn lines_view(v: Seq<String>) -> Seq<Seq<char>> {
    Seq::new(v.len(), |i: int| v[i]@)
}

/// The `go perft` report of the position (`bb`, `mb`), listing the root
/// moves in the order of `ms`: one line `<move>: <count>` per move, an empty
/// line when the depth is positive, then `Nodes searched: <total>`. Counts
/// saturate at `u64::MAX`.
pub open spec fn perft_report(bb: Bitboard, mb: Seq<u8>, depth: nat, ms: Seq<Move>) -> Seq<Seq<char>> {
    Seq::new(
        ms.len(),
        |k: int|
            uci_spec(ms[k]) + ": "@ + decimal_spec(
                capped(
                    perft_spec(
                        bitboard_after(bb, ms[k], flags_spec(mb, ms[k])),
                        mailbox_after(mb, ms[k]),
                        (depth - 1) as nat,
                    ),
                ) as nat,
            ),
    ) + (if depth > 0 {
        seq![Seq::<char>::empty()]
    } else {
        Seq::empty()
    }) + seq!["Nodes searched: "@ + decimal_spec(capped(perft_spec(bb, mb, depth)) as nat)]
}

/// `lines` is the `go perft` report of the position that the FEN string
/// `fen` and the moves `moves` describe: its root moves are its legal moves,
/// each once, in some order.
pub open spec fn perft_report_ok(fen: Seq<char>, moves: Seq<Move>, depth: u8, lines: Seq<Seq<char>>) -> bool {
    match chess_fen_spec(fen, seq![' ']) {
        Ok((d, half, full)) => exists|b: Bitboard, ms: Seq<Move>|
            #[trigger] holds_fen(b, d) && ms.no_duplicates() && (depth > 0 ==> ms.to_set()
                == legal_set_in(
                replay((b, d.0, half, full), moves).0,
                replay((b, d.0, half, full), moves).1,
            )) && (depth == 0 ==> ms.len() == 0) && lines == #[trigger] perft_report(
                replay((b, d.0, half, full), moves).0,
                replay((b, d.0, half, full), moves).1,
                depth as nat,
                ms,
            ),
        Err(_) => false,
    }
}

/// The first token of `line` is the word `w`.
pub open spec fn is_command(line: Seq<char>, w: Seq<char>) -> bool {
    tokens_spec(line).len() > 0 && tokens_spec(line)[0] == w
}

/// The promotion piece a wire-form letter names.
pub open spec fn promotion_letter(c: char) -> Option<u8> {
    if c == 'q' {
        Some(QUEEN_ID)
    } else if c == 'r' {
        Some(ROOK_ID)
    } else if c == 'b' {
        Some(BISHOP_ID)
    } else if c == 'n' {
        Some(KNIGHT_ID)
    } else {
        None
    }
}

/// The move a wire-form string such as "e2e4" or "e7e8q" names.
pub open spec fn uci_move_spec(s: Seq<char>) -> Option<Move> {
    if s.len() != 4 && s.len() != 5 {
        None
    } else {
        match (square_spec(s.subrange(0, 2)), square_spec(s.subrange(2, 4))) {
            (Some((r1, c1)), Some((r2, c2))) => {
                let promotion = if s.len() == 4 {
                    Some(0u8)
                } else {
                    promotion_letter(s[4])
                };
                match promotion {
                    Some(p) => Some(
                        Move {
                            start_index: (r1 * 8 + c1) as u32,
                            end_index: (r2 * 8 + c2) as u32,
                            promotion_piece: p,
                        },
                    ),
                    None => None,
                }
            },
            _ => None,
        }
    }
}

/// Tokens `i..j` joined by single spaces.
pub open spec fn join_spec(t: Seq<Seq<char>>, i: int, j: int) -> Seq<char>
    decreases j - i,
{
    if j <= i {
        Seq::empty()
    } else if j == i + 1 {
        t[i]
    } else {
        join_spec(t, i, j - 1) + seq![' '] + t[j - 1]
    }
}

/// The moves that tokens `i..j` name, if all are in wire form.
pub open spec fn moves_spec(t: Seq<Seq<char>>, i: int, j: int) -> Option<Seq<Move>>
    decreases j - i,
{
    if j <= i {
        Some(Seq::empty())
    } else {
        match moves_spec(t, i, j - 1) {
            Some(ms) => match uci_move_spec(t[j - 1]) {
                Some(m) => Some(ms.push(m)),
                None => None,
            },
            None => None,
        }
    }
}

/// The first token from `i` on that is `moves`, or the end.
pub open spec fn fen_end(t: Seq<Seq<char>>, i: int) -> int
    decreases t.len() - i,
{
    if i < 0 || i >= t.len() || t[i] == "moves"@ {
        if i < 0 {
            0
        } else {
            i
        }
    } else {
        fen_end(t, i + 1)
    }
}

/// The moves after the position, which start at token `i`.
pub open spec fn move_list_spec(t: Seq<Seq<char>>, i: int) -> Result<Seq<Move>, UciError> {
    if i >= t.len() {
        Ok(Seq::empty())
    } else if t[i] != "moves"@ {
        Err(UciError::ExpectedMovesKeyword)
    } else {
        match moves_spec(t, i + 1, t.len() as int) {
            Some(ms) => Ok(ms),
            None => Err(UciError::InvalidMove),
        }
    }
}

/// The FEN string and moves of a `position` line, tokens `t` (the first is
/// `position`).
pub open spec fn position_spec(t: Seq<Seq<char>>) -> Result<(Seq<char>, Seq<Move>), UciError> {
    if t.len() < 2 {
        Err(UciError::MissingArguments)
    } else if t[1] == "startpos"@ {
        match move_list_spec(t, 2) {
            Ok(ms) => Ok((START_FEN@, ms)),
            Err(e) => Err(e),
        }
    } else if t[1] == "fen"@ {
        let e = fen_end(t, 2);
        if e == 2 {
            Err(UciError::MissingFen)
        } else {
            match move_list_spec(t, e) {
                Ok(ms) => Ok((join_spec(t, 2, e), ms)),
                Err(err) => Err(err),
            }
        }
    } else {
        Err(UciError::ExpectedStartposOrFen)
    }
}

/// The depth of a `go perft N` line, tokens `t` from `i` on (after `go`);
/// `None` for any other `go`.
pub open spec fn perft_depth_spec(t: Seq<Seq<char>>, i: int) -> Result<Option<u8>, UciError> {
    if i >= t.len() || t[i] != "perft"@ {
        Ok(None)
    } else if t.len() != i + 2 {
        Err(UciError::PerftArguments)
    } else {
        match decimal_value(t[i + 1]) {
            Some(v) => if v <= 255 {
                Ok(Some(v as u8))
            } else {
                Err(UciError::InvalidDepth)
            },
            None => Err(UciError::InvalidDepth),
        }
    }
}

/// Splits a line into its whitespace-separated tokens.
pub fn tokenize(line: &str) -> (r: Vec<Vec<char>>)
    ensures
        fields_view(r@) == tokens_spec(line@),
{
    let chars = str_chars(line);
    let mut r: Vec<Vec<char>> = Vec::new();
    let mut cur: Vec<char> = Vec::new();
    let mut i: usize = 0;
    while i < chars.len()
        invariant
            i <= chars.len(),
            chars@ == line@,
            fields_view(r@) + tokens_from(chars@, i as int, cur@) == tokens_spec(line@),
        decreases chars.len() - i,
    {
        let c = chars[i];
        let ghost before = fields_view(r@);
        let ghost cur0 = cur@;
        if c == ' ' || c == '\t' || c == '\n' || c == '\r' || c == '\u{0B}' || c == '\u{0C}' {
            if cur.len() > 0 {
                r.push(cur);
                cur = Vec::new();
                assert(fields_view(r@) =~= before.push(cur0));
                assert(fields_view(r@) + tokens_from(chars@, i + 1, cur@) =~= before + (seq![cur0]
                    + tokens_from(chars@, i + 1, Seq::empty())));
            } else {
                assert(cur@ =~= Seq::<char>::empty());
                assert(fields_view(r@) + tokens_from(chars@, i + 1, cur@) =~= before + (Seq::empty()
                    + tokens_from(chars@, i + 1, Seq::empty())));
            }
        } else {
            cur.push(c);
        }
        i = i + 1;
    }
    let ghost before = fields_view(r@);
    if cur.len() > 0 {
        let ghost cur0 = cur@;
        r.push(cur);
        assert(fields_view(r@) =~= before.push(cur0));
        assert(fields_view(r@) =~= before + seq![cur0]);
    } else {
        assert(fields_view(r@) =~= before + Seq::<Seq<char>>::empty());
    }
    r
}

/// Whether a token is the word `w`.
pub fn is_word(tok: &Vec<char>, w: &str) -> (r: bool)
    ensures
        r == (tok@ == w@),
{
    let wc = str_chars(w);
    if tok.len() != wc.len() {
        return false;
    }
    let mut k: usize = 0;
    while k < tok.len()
        invariant
            k <= tok.len(),
            tok.len() == wc.len(),
            wc@ == w@,
            forall|j: int| 0 <= j < k ==> tok@[j] == wc@[j],
        decreases tok.len() - k,
    {
        if tok[k] != wc[k] {
            return false;
        }
        k = k + 1;
    }
    assert(tok@ =~= wc@);
    true
}

fn square_at(v: &Vec<char>, i: usize) -> (r: Option<(u32, u32)>)
    requires
        i + 2 <= v.len(),
    ensures
        r == square_spec(v@.subrange(i as int, i + 2)),
{
    let first_char = v[i];
    let second_char = v[i + 1];
    if 'a' <= first_char && first_char <= 'h' && '1' <= second_char && second_char <= '8' {
        Some((8 - (second_char as u32 - '0' as u32), first_char as u32 - 'a' as u32))
    } else {
        None
    }
}

fn move_of_chars(v: &Vec<char>) -> (r: Option<Move>)
    ensures
        r == uci_move_spec(v@),
{
    if v.len() != 4 && v.len() != 5 {
        return None;
    }
    let from = square_at(v, 0);
    let to = square_at(v, 2);
    match (from, to) {
        (Some((r1, c1)), Some((r2, c2))) => {
            let promotion: u8 = if v.len() == 4 {
                0
            } else {
                let c = v[4];
                if c == 'q' {
                    QUEEN_ID
                } else if c == 'r' {
                    ROOK_ID
                } else if c == 'b' {
                    BISHOP_ID
                } else if c == 'n' {
                    KNIGHT_ID
                } else {
                    return None;
                }
            };
            Some(Move::new(r1 * 8 + c1, r2 * 8 + c2, promotion))
        },
        _ => None,
    }
}

/// Parses a move in wire form: two squares and an optional promotion letter
/// among q, r, b and n, all lower case.
pub fn parse_uci_move(s: &str) -> (r: Result<Move, UciError>)
    ensures
        match uci_move_spec(s@) {
            Some(m) => r == Ok::<Move, UciError>(m),
            None => r == Err::<Move, UciError>(UciError::InvalidMove),
        },
{
    let v = str_chars(s);
    match move_of_chars(&v) {
        Some(m) => Ok(m),
        None => Err(UciError::InvalidMove),
    }
}

fn perft_depth(t: &Vec<Vec<char>>, i: usize) -> (r: Result<Option<u8>, UciError>)
    ensures
        r == perft_depth_spec(fields_view(t@), i as int),
{
    let ghost tv = fields_view(t@);
    if i >= t.len() || !is_word(&t[i], "perft") {
        return Ok(None);
    }
    if t.len() - i != 2 {
        return Err(UciError::PerftArguments);
    }
    assert(t[i + 1]@ == tv[i + 1]);
    match parse_decimal(&t[i + 1], 255) {
        Some(d) => Ok(Some(d as u8)),
        None => Err(UciError::InvalidDepth),
    }
}

/// Reads the arguments of `go`: `Some(depth)` for `perft depth`, `None` for
/// anything else.
pub fn parse_go_perft_depth(tokens: &[&str]) -> (r: Result<Option<u8>, UciError>)
    ensures
        r == perft_depth_spec(Seq::new(tokens@.len(), |k: int| tokens@[k]@), 0),
{
    let mut t: Vec<Vec<char>> = Vec::new();
    let mut k: usize = 0;
    while k < tokens.len()
        invariant
            k <= tokens@.len(),
            t.len() == k,
            fields_view(t@) == Seq::new(k as nat, |j: int| tokens@[j]@),
        decreases tokens.len() - k,
    {
        let v = str_chars(tokens[k]);
        let ghost before = fields_view(t@);
        let ghost t_old = t@;
        t.push(v);
        assert forall|j: int| 0 <= j < k + 1 implies #[trigger] fields_view(t@)[j] == tokens@[j]@ by {
            if j < k {
                assert(t@[j] == t_old[j]);
                assert(before[j] == t_old[j]@);
            } else {
                assert(t@[j] == v);
            }
        }
        assert(fields_view(t@) =~= Seq::new((k + 1) as nat, |j: int| tokens@[j]@));
        k = k + 1;
    }
    assert(fields_view(t@) =~= Seq::new(tokens@.len(), |j: int| tokens@[j]@));
    perft_depth(&t, 0)
}

proof fn lemma_report_ok(
    fen: Seq<char>,
    moves: Seq<Move>,
    depth: u8,
    board: Chessboard,
    b: Bitboard,
    splits: Seq<(Move, u64)>,
    lines: Seq<Seq<char>>,
)
    requires
        chess_fen_spec(fen, seq![' ']) matches Ok((d, half, full)) && holds_fen(b, d) && (
        board.bitboard,
        board.mailbox@,
        board.halfmove_clock,
        board.fullmove_number,
        ) == replay((b, d.0, half, full), moves),
        depth == 0 ==> splits.len() == 0,
        depth > 0 ==> forall|m: Move|
            crate::chessboard::legal_spec(board, m) ==> exists|k: int|
                0 <= k < splits.len() && (#[trigger] splits[k]).0 == m,
        forall|k: int| 0 <= k < splits.len() ==> crate::chessboard::legal_spec(board, (#[trigger] splits[k]).0),
        forall|k: int, l: int| 0 <= k < l < splits.len() ==> splits[k].0 != splits[l].0,
        lines == perft_report(board.bitboard, board.mailbox@, depth as nat, moves_of(splits)),
    ensures
        perft_report_ok(fen, moves, depth, lines),
{
    let (d, half, full) = chess_fen_spec(fen, seq![' '])->Ok_0;
    let ms = moves_of(splits);
    let bb = board.bitboard;
    let mb = board.mailbox@;
    if depth > 0 {
        assert forall|m: Move| #[trigger] ms.to_set().contains(m) <==> legal_set_in(bb, mb).contains(m) by {
            if ms.contains(m) {
                let k2 = choose|k2: int| 0 <= k2 < ms.len() && ms[k2] == m;
                assert(splits[k2].0 == m);
                assert(crate::chessboard::legal_spec(board, splits[k2].0));
            }
            if legal_set_in(bb, mb).contains(m) {
                assert(crate::chessboard::legal_spec(board, m));
                let k2 = choose|k2: int| 0 <= k2 < splits.len() && (#[trigger] splits[k2]).0 == m;
                assert(ms[k2] == m);
            }
        }
        assert(ms.to_set() =~= legal_set_in(bb, mb));
    }
    assert(ms.no_duplicates());
    assert(holds_fen(b, d) && ms.no_duplicates() && lines == perft_report(
        replay((b, d.0, half, full), moves).0,
        replay((b, d.0, half, full), moves).1,
        depth as nat,
        ms,
    ));
}

fn copy_moves(v: &Vec<Move>) -> (r: Vec<Move>)
    ensures
        r@ == v@,
{
    let mut r: Vec<Move> = Vec::new();
    let mut k: usize = 0;
    while k < v.len()
        invariant
            k <= v.len(),
            r@ == v@.subrange(0, k as int),
        decreases v.len() - k,
    {
        r.push(v[k]);
        k = k + 1;
        assert(r@ =~= v@.subrange(0, k as int));
    }
    assert(r@ =~= v@);
    r
}

fn join_tokens(t: &Vec<Vec<char>>, i: usize, j: usize) -> (r: String)
    requires
        i < j <= t.len(),
    ensures
        r@ == join_spec(fields_view(t@), i as int, j as int),
{
    let ghost tv = fields_view(t@);
    let mut s = String::new();
    let mut k: usize = i;
    while k < j
        invariant
            i <= k <= j <= t.len(),
            tv == fields_view(t@),
            s@ == join_spec(tv, i as int, k as int),
        decreases j - k,
    {
        let ghost s0 = s@;
        if k > i {
            push_char(&mut s, ' ');
        }
        let tok = &t[k];
        let mut c: usize = 0;
        while c < tok.len()
            invariant
                c <= tok.len(),
                s@ == (if k > i {
                    s0 + seq![' ']
                } else {
                    s0
                }) + tok@.subrange(0, c as int),
            decreases tok.len() - c,
        {
            push_char(&mut s, tok[c]);
            c = c + 1;
            assert(s@ =~= (if k > i {
                s0 + seq![' ']
            } else {
                s0
            }) + tok@.subrange(0, c as int));
        }
        assert(tok@.subrange(0, tok.len() as int) =~= tok@);
        assert(tv[k as int] == tok@);
        if k > i {
            assert(s@ =~= join_spec(tv, i as int, k + 1));
        } else {
            assert(s@ =~= join_spec(tv, i as int, k + 1));
        }
        k = k + 1;
    }
    s
}

fn parse_moves(t: &Vec<Vec<char>>, i: usize) -> (r: Option<Vec<Move>>)
    requires
        i <= t.len(),
    ensures
        match moves_spec(fields_view(t@), i as int, t.len() as int) {
            Some(ms) => r matches Some(v) && v@ == ms,
            None => r is None,
        },
        r matches Some(v) ==> moves_on_board(v@),
{
    let ghost tv = fields_view(t@);
    let mut moves: Vec<Move> = Vec::new();
    let mut k: usize = i;
    while k < t.len()
        invariant
            i <= k <= t.len(),
            tv == fields_view(t@),
            moves_spec(tv, i as int, k as int) == Some(moves@),
            moves_on_board(moves@),
        decreases t.len() - k,
    {
        assert(tv[k as int] == t[k as int]@);
        match move_of_chars(&t[k]) {
            Some(m) => {
                moves.push(m);
                proof {
                    lemma_move_on_board(t[k as int]@);
                }
            },
            None => {
                proof {
                    lemma_moves_none(tv, i as int, k as int + 1, t.len() as int);
                }
                return None;
            },
        }
        k = k + 1;
    }
    Some(moves)
}

proof fn lemma_move_on_board(s: Seq<char>)
    ensures
        uci_move_spec(s) matches Some(m) ==> m.start_index < 64 && m.end_index < 64,
{
}

proof fn lemma_moves_none(t: Seq<Seq<char>>, i: int, j: int, n: int)
    requires
        i < j <= n,
        moves_spec(t, i, j) is None,
    ensures
        moves_spec(t, i, n) is None,
    decreases n - j,
{
    if j < n {
        lemma_moves_none(t, i, j + 1, n);
    }
}

/// The move list after the position, from token `i` on.
fn move_list(t: &Vec<Vec<char>>, i: usize) -> (r: Result<Vec<Move>, UciError>)
    requires
        i <= t.len(),
    ensures
        match move_list_spec(fields_view(t@), i as int) {
            Ok(ms) => r matches Ok(v) && v@ == ms,
            Err(e) => r == Err::<Vec<Move>, UciError>(e),
        },
        r matches Ok(v) ==> moves_on_board(v@),
{
    if i >= t.len() {
        return Ok(Vec::new());
    }
    assert(fields_view(t@)[i as int] == t[i as int]@);
    if !is_word(&t[i], "moves") {
        return Err(UciError::ExpectedMovesKeyword);
    }
    match parse_moves(t, i + 1) {
        Some(v) => Ok(v),
        None => Err(UciError::InvalidMove),
    }
}

impl PositionState {
    pub open spec fn wf(&self) -> bool {
        moves_on_board(self.moves@)
    }
}

impl Default for PositionState {
    /// The start position with no moves.
    fn default() -> (r: PositionState)
        ensures
            r.fen@ == START_FEN@,
            r.moves@.len() == 0,
    {
        PositionState { fen: String::from_str(START_FEN), moves: Vec::new() }
    }
}

/// The protocol state between lines: the current position.
pub struct UciWrapper {
    pub position: PositionState,
}

impl UciWrapper {
    pub open spec fn wf(&self) -> bool {
        self.position.wf()
    }

    /// A front-end at the start position.
    pub fn new() -> (r: UciWrapper)
        ensures
            r.wf(),
            r.position.fen@ == START_FEN@,
            r.position.moves@.len() == 0,
    {
        UciWrapper { position: PositionState::default() }
    }

    /// Handles the tokens of a `position` line. On error the position stays
    /// as it was; a FEN string that does not describe a position is an error.
    pub fn handle_position(&mut self, tokens: &Vec<Vec<char>>) -> (r: Result<(), UciError>)
        requires
            old(self).wf(),
        ensures
            final(self).wf(),
            match position_spec(fields_view(tokens@)) {
                Err(e) => r == Err::<(), UciError>(e),
                Ok((fen, moves)) => match chess_fen_spec(fen, seq![' ']) {
                    Err(fe) => r == Err::<(), UciError>(UciError::Fen(fe)),
                    Ok(_) => r == Ok::<(), UciError>(()) && final(self).position.fen@ == fen
                        && final(self).position.moves@ == moves,
                },
            },
            r is Err ==> final(self).position.fen@ == old(self).position.fen@
                && final(self).position.moves@ == old(self).position.moves@,
    {
        let ghost tv = fields_view(tokens@);
        if tokens.len() < 2 {
            return Err(UciError::MissingArguments);
        }
        assert(tv[1] == tokens[1]@);
        let fen: String;
        let idx: usize;
        if is_word(&tokens[1], "startpos") {
            fen = String::from_str(START_FEN);
            idx = 2;
        } else if is_word(&tokens[1], "fen") {
            let mut e: usize = 2;
            while e < tokens.len() && !is_word(&tokens[e], "moves")
                invariant
                    2 <= e <= tokens.len(),
                    tv == fields_view(tokens@),
                    fen_end(tv, 2) == fen_end(tv, e as int),
                decreases tokens.len() - e,
            {
                assert(tv[e as int] == tokens[e as int]@);
                e = e + 1;
            }
            if e < tokens.len() {
                assert(tv[e as int] == tokens[e as int]@);
            }
            assert(fen_end(tv, e as int) == e);
            if e == 2 {
                return Err(UciError::MissingFen);
            }
            fen = join_tokens(tokens, 2, e);
            idx = e;
        } else {
            return Err(UciError::ExpectedStartposOrFen);
        }
        let moves = match move_list(tokens, idx) {
            Ok(v) => v,
            Err(e) => {
                return Err(e);
            },
        };
        match Chessboard::from_moves(fen.as_str(), copy_moves(&moves)) {
            Ok(_) => {},
            Err(e) => {
                return Err(UciError::Fen(e));
            },
        }
        self.position = PositionState { fen, moves };
        Ok(())
    }

    /// The `go perft` report: one line `<move>: <count>` per legal move, a
    /// blank line when the depth is positive, and `Nodes searched: <total>`.
    #[verifier::rlimit(80)]
    pub fn run_perft(&self, tables: &AttackTables, depth: u8) -> (r: Result<Vec<String>, UciError>)
        requires
            self.wf(),
            tables.wf(),
        ensures
            chess_fen_spec(self.position.fen@, seq![' ']) matches Err(e) ==> r == Err::<
                Vec<String>,
                UciError,
            >(UciError::Fen(e)),
            chess_fen_spec(self.position.fen@, seq![' ']) is Ok ==> (r matches Ok(lines)
                && perft_report_ok(self.position.fen@, self.position.moves@, depth, lines_view(lines@))),
    {
        let board = match Chessboard::from_moves(
            self.position.fen.as_str(),
            copy_moves(&self.position.moves),
        ) {
            Ok(b) => b,
            Err(e) => {
                return Err(UciError::Fen(e));
            },
        };
        let splits = perft::perft_divide(&board, tables, depth);
        let ghost ms = moves_of(splits@);
        let ghost bb = board.bitboard;
        let ghost mb = board.mailbox@;
        let ghost dn = depth as nat;
        let ghost report = perft_report(bb, mb, dn, ms);
        let mut lines: Vec<String> = Vec::new();
        let mut k: usize = 0;
        while k < splits.len()
            invariant
                k <= splits.len(),
                ms == moves_of(splits@),
                bb == board.bitboard,
                mb == board.mailbox@,
                dn == depth as nat,
                report == perft_report(bb, mb, dn, ms),
                depth == 0 ==> splits.len() == 0,
                forall|j: int|
                    0 <= j < splits.len() ==> crate::chessboard::legal_move_props(
                        board,
                        (#[trigger] splits[j]).0,
                    ),
                depth > 0 ==> forall|j: int|
                    0 <= j < splits.len() ==> (#[trigger] splits[j]).1 == capped(
                        perft_spec(
                            bitboard_after(board.bitboard, splits[j].0, flags_spec(board.mailbox@, splits[j].0)),
                            mailbox_after(board.mailbox@, splits[j].0),
                            (depth - 1) as nat,
                        ),
                    ),
                lines.len() == k,
                forall|j: int| 0 <= j < k ==> #[trigger] lines_view(lines@)[j] == report[j],
            decreases splits.len() - k,
        {
            let (mv, nodes) = splits[k];
            assert(crate::chessboard::legal_move_props(board, splits[k as int].0));
            let mut line = mv.uci_move();
            line.append(": ");
            push_decimal(&mut line, nodes);
            let ghost before = lines@;
            lines.push(line);
            proof {
                assert(ms[k as int] == mv);
                assert(report[k as int] == line@);
                assert forall|j: int| 0 <= j < k + 1 implies #[trigger] lines_view(lines@)[j] == report[j] by {
                    if j < k {
                        assert(lines@[j] == before[j]);
                        assert(lines_view(before)[j] == report[j]);
                    }
                }
            }
            k = k + 1;
        }
        let ghost body = lines@;
        if depth > 0 {
            lines.push(String::new());
        }
        let mut last = String::from_str("Nodes searched: ");
        push_decimal(&mut last, perft::perft(&board, tables, depth));
        lines.push(last);
        proof {
            assert forall|j: int| 0 <= j < report.len() implies #[trigger] lines_view(lines@)[j] == report[j] by {
                if j < splits.len() {
                    assert(lines@[j] == body[j]);
                    assert(lines_view(body)[j] == report[j]);
                } else if j == lines@.len() - 1 {
                    assert(lines@[j] == last);
                } else {
                    assert(lines@[j]@ == Seq::<char>::empty());
                }
            }
            assert(lines_view(lines@) =~= report);
            let (d, half, full) = chess_fen_spec(self.position.fen@, seq![' '])->Ok_0;
            let b = choose|b: Bitboard|
                holds_fen(b, d) && (board.bitboard, board.mailbox@, board.halfmove_clock, board.fullmove_number)
                    == replay((b, d.0, half, full), self.position.moves@);
            lemma_report_ok(self.position.fen@, self.position.moves@, depth, board, b, splits@, lines_view(lines@));
        }
        Ok(lines)
    }

    /// Handles one protocol line and says what the caller has to do next.
    /// `uci` and `isready` answer with their lines, `ucinewgame` returns to the
    /// start position, `position` sets the position, `go perft N` reports a
    /// perft count, any other `go` asks for a search, `quit` stops, and every
    /// other line is ignored.
    pub fn handle_line(&mut self, tables: &AttackTables, line: &str) -> (r: Result<UciAction, UciError>)
        requires
            old(self).wf(),
            tables.wf(),
        ensures
            final(self).wf(),
            tokens_spec(line@).len() == 0 ==> (r matches Ok(UciAction::Nothing)),
            is_command(line@, "uci"@) ==> (r matches Ok(UciAction::Output(lines)) && lines.len() == 3
                && lines[0]@ == "id name Odyn"@ && lines[1]@ == "id author MichelDucartier"@
                && lines[2]@ == "uciok"@),
            is_command(line@, "isready"@) ==> (r matches Ok(UciAction::Output(lines)) && lines.len()
                == 1 && lines[0]@ == "readyok"@),
            is_command(line@, "ucinewgame"@) ==> (r matches Ok(UciAction::Nothing)) && final(self).position.fen@ == START_FEN@ && final(self).position.moves@.len() == 0,
            is_command(line@, "position"@) ==> match position_spec(tokens_spec(line@)) {
                Err(e) => r == Err::<UciAction, UciError>(e),
                Ok((fen, moves)) => match chess_fen_spec(fen, seq![' ']) {
                    Err(fe) => r == Err::<UciAction, UciError>(UciError::Fen(fe)),
                    Ok(_) => (r matches Ok(UciAction::Nothing)) && final(self).position.fen@ == fen
                        && final(self).position.moves@ == moves,
                },
            },
            is_command(line@, "go"@) ==> match perft_depth_spec(tokens_spec(line@), 1) {
                Err(e) => r == Err::<UciAction, UciError>(e),
                Ok(None) => (r matches Ok(UciAction::Search)),
                Ok(Some(depth)) => chess_fen_spec(old(self).position.fen@, seq![' ']) is Ok ==> (r matches Ok(
                    UciAction::Output(lines),
                ) && perft_report_ok(
                    old(self).position.fen@,
                    old(self).position.moves@,
                    depth,
                    lines_view(lines@),
                )),
            },
            is_command(line@, "quit"@) ==> (r matches Ok(UciAction::Quit)),
            !is_command(line@, "ucinewgame"@) && !is_command(line@, "position"@)
                ==> final(self).position.fen@ == old(self).position.fen@ && final(self).position.moves@
                == old(self).position.moves@,
            tokens_spec(line@).len() > 0 && !is_command(line@, "uci"@) && !is_command(line@, "isready"@)
                && !is_command(line@, "ucinewgame"@) && !is_command(line@, "position"@)
                && !is_command(line@, "go"@) && !is_command(line@, "quit"@) ==> (r matches Ok(
                UciAction::Nothing,
            )),
    {
        proof {
            reveal_strlit("uci");
            reveal_strlit("isready");
            reveal_strlit("ucinewgame");
            reveal_strlit("position");
            reveal_strlit("go");
            reveal_strlit("quit");
        }
        let tokens = tokenize(line);
        let ghost t = fields_view(tokens@);
        if tokens.len() == 0 {
            return Ok(UciAction::Nothing);
        }
        let cmd = &tokens[0];
        assert(t[0] == cmd@);
        if is_word(cmd, "uci") {
            let mut lines: Vec<String> = Vec::new();
            lines.push(String::from_str("id name Odyn"));
            lines.push(String::from_str("id author MichelDucartier"));
            lines.push(String::from_str("uciok"));
            return Ok(UciAction::Output(lines));
        }
        if is_word(cmd, "isready") {
            let mut lines: Vec<String> = Vec::new();
            lines.push(String::from_str("readyok"));
            return Ok(UciAction::Output(lines));
        }
        if is_word(cmd, "ucinewgame") {
            self.position = PositionState::default();
            return Ok(UciAction::Nothing);
        }
        if is_word(cmd, "position") {
            return match self.handle_position(&tokens) {
                Ok(()) => Ok(UciAction::Nothing),
                Err(e) => Err(e),
            };
        }
        if is_word(cmd, "go") {
            return match perft_depth(&tokens, 1) {
                Err(e) => Err(e),
                Ok(None) => Ok(UciAction::Search),
                Ok(Some(depth)) => match self.run_perft(tables, depth) {
                    Ok(lines) => Ok(UciAction::Output(lines)),
                    Err(e) => Err(e),
                },
            };
        }
        if is_word(cmd, "quit") {
            return Ok(UciAction::Quit);
        }
        // `stop`, `setoption`, `debug`, `ponderhit`, `register` and unknown
        // commands are accepted and ignored.
        Ok(UciAction::Nothing)
    }
}

} // verus!
