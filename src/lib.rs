//! Shortest round-trip decimal formatting of IEEE-754 binary64 values.
pub mod bignum;
pub mod decimal;
pub mod text;
pub mod format;
