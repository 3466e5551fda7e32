//! A minimal engine command surface and the player capability.
use vstd::prelude::*;
use vstd::string::*;

use crate::chessboard::Chessboard;

verus! {

/// Arguments of an engine run: a pattern and a path.
pub struct EngineArgs {
    pub pattern: String,
    pub path: String,
}

/// A minimal command surface of an engine.
pub struct Controller {
    is_ready: bool,
}

impl Controller {
    pub fn new(is_ready: bool) -> (r: Controller)
        ensures
            r.ready_spec() == is_ready,
    {
        Controller { is_ready }
    }

    pub closed spec fn ready_spec(&self) -> bool {
        self.is_ready
    }

    /// The answer to `uci`.
    pub fn uci(&self) -> (r: String)
        ensures
            r@ == "uciok"@,
    {
        String::from_str("uciok")
    }

    pub fn is_ready(&self) -> (r: bool)
        ensures
            r == self.ready_spec(),
    {
        self.is_ready
    }

    pub fn uci_new_game(&self) {
    }

    pub fn position(&self, fen: &str, moves: Vec<&str>) {
    }

    pub fn go(&self, args: EngineArgs) {
    }

    pub fn stop(&self) {
    }

    pub fn ponder_hit(&self) {
    }

    pub fn quit(&self) {
    }
}

/// Something that chooses moves, such as a person at a terminal.
pub trait Player {
    fn next_move(&mut self, chessboard: Chessboard) -> u32;
}

} // verus!
