//! Search, evaluation and their tables.
pub mod tt;
pub mod eval;
pub mod search;
pub mod movepicker;
pub mod syzygy;
