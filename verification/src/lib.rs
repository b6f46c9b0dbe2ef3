//! Redline: a bitboard chess engine library.
pub mod board;
pub mod text;
pub mod geometry;
pub mod movegen;
pub mod magic;
pub mod engine;
pub mod paths;
pub mod uci;
pub mod api;
