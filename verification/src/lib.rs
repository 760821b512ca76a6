//! A single-pass source-code minifier: it re-lexes a program text, drops
//! insignificant whitespace, renames identifiers to the shortest names that
//! avoid a caller-supplied reserved-word set, and re-encodes numeric literals
//! in whichever of decimal or hexadecimal notation is shorter.

pub mod chars;
pub mod names;
pub mod reserved;
pub mod table;
pub mod model;
pub mod golf;
pub mod laws;

pub use golf::golfify_code;
pub use golf::golfify_code_with_warning;
pub use reserved::ReservedSet;
