//! A verified parser for flat text of whitespace-separated `key=value` pairs.
//!
//! Values may be double-quoted; inside quotes, a backslash makes the next
//! character literal (the backslash itself is dropped, with no interpretation
//! of conventional escapes such as `\n`). Each parsed value is either borrowed
//! from the input buffer or, only when an escape forced a rewrite, freshly
//! allocated.
//!
//! The grammar, the escape handling, and the table semantics are stated as
//! specification functions in [`grammar`], and every executable function is
//! proved against them.

pub mod grammar;
pub mod laws;
pub mod lookup;
pub mod scan;
pub mod table;
