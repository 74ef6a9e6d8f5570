pub mod eval;
pub mod format;
