//! The filesystem in which the tracker keeps compressed songs.
//!
//! A save image holds one song to work on and a store for up to 32 more,
//! compressed block by block. Whether a file slot is in use depends only on
//! whether any block is allocated to it.

pub mod file;
pub mod filesystem;
pub mod laws;

pub use file::{recompress, File};
pub use filesystem::{
    Entries, Entry, FileToLsdSngError, Filesystem, FromReaderError, Index,
};
