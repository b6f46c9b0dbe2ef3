//! Move flag values (the upper four bits of a move).
use vstd::prelude::*;

verus! {

pub const QUIET: u8 = 0x0;
pub const DOUBLE_PAWN: u8 = 0x1;
pub const KING_CASTLE: u8 = 0x2;
pub const QUEEN_CASTLE: u8 = 0x3;
pub const CAPTURE: u8 = 0x4;
pub const EN_PASSANT: u8 = 0x5;
pub const PROMOTE_KNIGHT: u8 = 0x8;
pub const PROMOTE_BISHOP: u8 = 0x9;
pub const PROMOTE_ROOK: u8 = 0xA;
pub const PROMOTE_QUEEN: u8 = 0xB;
pub const PROMOTE_KNIGHT_CAPTURE: u8 = 0xC;
pub const PROMOTE_BISHOP_CAPTURE: u8 = 0xD;
pub const PROMOTE_ROOK_CAPTURE: u8 = 0xE;
pub const PROMOTE_QUEEN_CAPTURE: u8 = 0xF;

} // verus!
