//! TBON: a compact, stream-friendly binary notation for structured data.

pub mod access;
pub mod answers;
pub mod buf;
pub mod constants;
pub mod de;
pub mod element;
pub mod en;
pub mod error;
pub mod escape;
pub mod grammar;
pub mod laws;
pub mod meaning;
pub mod model;
pub mod parse;
pub mod read;
pub mod reading;
pub mod skip;
pub mod text;
pub mod utf8;
pub mod value;
