//! An administrative bridge that lets a scripting host mutate single records
//! (rename, remove, adjust a percentage) held in a relational backend.
//!
//! The verified core covers the decision logic of each boundary call and the
//! exact conversion of a binary floating-point input (given by its bit
//! pattern) into an arbitrary-precision decimal value.  The surrounding
//! process — the scripting host itself, the connection pool and the backend
//! round-trips — performs the actions this core decides on and feeds the
//! outcomes back in.

pub mod bridge;
pub mod decimal;
pub mod record;
