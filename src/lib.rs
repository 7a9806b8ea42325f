//! Automatic reflow of over-long lines while typing, and the per-file cursor
//! position record that the editor keeps beside it.
//!
//! A reflow pass runs after each inserted character. For every cursor whose
//! line is longer than the width limit, it breaks the line at the last
//! whitespace at or before the index of the limit, so that the first line
//! fits (or, for a single over-long word, at the first whitespace after it),
//! replacing the whole whitespace run there with a line feed and the
//! continuation line's indentation.

pub mod chars;
pub mod edit;
pub mod lines;
pub mod locate;
pub mod pass;
pub mod position;
pub mod request;
pub mod theorems;
