//! A chess move generator over a dual board representation (bitboards and a
//! mailbox), with magic-bitboard slider attacks, fully legal move generation,
//! perft, and a small line-oriented UCI front-end.
pub mod constants;
pub mod utility;
pub mod chess_move;
pub mod direction;
pub mod magic;
pub mod move_generator;
pub mod fen;
pub mod mailbox;
pub mod bitboard;
pub mod chessboard;
pub mod perft;
pub mod protocol;
pub mod controller;
