//! The string patch table of the Sakura Moyu Chinese patch, and the command line of the program
//! that uses it.

pub mod args;
pub mod args_laws;
pub mod fault;
pub mod format;
pub mod framing;
pub mod gbk;
pub mod laws;
pub mod little_endian;
pub mod numeral;
pub mod reading_laws;
pub mod string_patch;
pub mod wording_laws;
pub mod zlib;

pub use crate::fault::{PatchError, PatchFault};
pub use crate::string_patch::StringPatchTable;
