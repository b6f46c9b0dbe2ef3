//! Castling-right bits.
use vstd::prelude::*;

verus! {

pub const WHITE_KING: u8 = 1;
pub const WHITE_QUEEN: u8 = 2;
pub const BLACK_KING: u8 = 4;
pub const BLACK_QUEEN: u8 = 8;

} // verus!
