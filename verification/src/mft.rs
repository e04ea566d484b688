//! Scanning an NTFS volume by reading its Master File Table.

pub mod chunk;
pub mod fields;
pub mod fixups;
pub mod laws;
pub mod reader;
pub mod record;
pub mod runs;
pub mod scanner;
pub mod split;
pub mod tree;
pub mod whole;
