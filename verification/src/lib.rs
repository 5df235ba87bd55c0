//! A small alpha-beta chess engine: piece-square evaluation, an incrementally
//! updated evaluation tracker, move ordering by history and captures, a cached
//! alpha-beta search, and the parser for the engine's text protocol.
//! Move generation and board bookkeeping come from the `chess` crate.

pub mod pst;
pub mod board;
pub mod eval;
pub mod engine;
pub mod uci;
pub mod fen;
