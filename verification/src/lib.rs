//! A verified decoder for SAS XPORT Version 5 transport files.
//!
//! A transport file is a sequence of records of 80 bytes. Two markers
//! divide it: after the first come the descriptors of the variables, 140
//! bytes each, and after the second the observations, row by row. The
//! decoder turns the bytes of such a file into an [`XPTDataset`]: the
//! variables in the order of their positions, and for each row one value
//! for each variable. A character cell is text without the white space
//! and NULs at its end. A numeric cell holds a number in the hexadecimal
//! format of the IBM System/360 and is written out in decimal notation.
//!
//! [`XPTParser::parse`] is the way in. It reads a buffer and nothing
//! else: files, names and what to do with a dataset are the caller's
//! business.
//!
//! Every function states what it returns over a mathematical model of
//! its arguments, and Verus proves that it does. What is taken on trust
//! is the decoding of UTF-8 by `String::from_utf8` and
//! `String::from_utf8_lossy`, and the stem that `Path::file_stem` gives
//! for a file name without directories.

pub mod bytes;
pub mod cells;
pub mod decimal;
pub mod descriptor;
pub mod error;
pub mod layout;
pub mod metadata;
pub mod model;
pub mod numeric;
pub mod order;
pub mod parser;
pub mod scan;
pub mod text;

pub use bytes::{align_to_record_boundary, find_bytes};
pub use error::{HeaderKind, XptError};
pub use model::{VariableType, XPTDataset, XPTRow, XPTVariable};
pub use parser::XPTParser;
pub use text::{ascii_string, ascii_string_trimmed};
