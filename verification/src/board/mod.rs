pub mod bitboard;
pub mod piece;
pub mod moves;
pub mod zobrist;
pub mod castling;
pub mod board;
pub mod make_move;
pub mod legality;
pub mod exposure;
pub mod fen;
pub mod fen_roundtrip;
pub mod diagram;
pub mod notation;
pub mod see;
