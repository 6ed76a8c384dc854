//! Unparsed song memory, the fixed byte patterns found in it, and the
//! songs that can be made of it.

pub mod instrument;
pub mod song_memory;
pub mod v22;
pub mod wave;

pub use song_memory::{FromBytesError, FromReaderError, SongMemory, Unpacked};

use vstd::prelude::*;

verus! {

/// A song, by the version of the format it is stored in.
pub enum Song {
    /// A song of format version 22.
    V22(v22::Song),
}

/// Why no song could be made of song memory.
#[derive(Debug, Clone, Copy, PartialEq, Eq, Structural)]
pub enum SongFromMemoryError {
    /// The song memory is of a format version that is not supported.
    UnsupportedVersion(u8),
}

impl Song {
    /// The song in `memory`, if its format version is supported.
    pub fn from_memory(memory: &SongMemory) -> (r: Result<Self, SongFromMemoryError>)
        requires
            memory.wf(),
        ensures
            memory@[0x7FFF] == v22::FORMAT_VERSION ==> r.is_ok() && (r.unwrap() matches Song::V22(
                song,
            ) && song.wf() && song.is_silent()),
            memory@[0x7FFF] != v22::FORMAT_VERSION ==> r == Err::<Self, SongFromMemoryError>(
                SongFromMemoryError::UnsupportedVersion(memory@[0x7FFF]),
            ),
    {
        let version = memory.format_version();
        if version == v22::FORMAT_VERSION {
            Ok(Song::V22(v22::Song::from_memory(memory)))
        } else {
            Err(SongFromMemoryError::UnsupportedVersion(version))
        }
    }
}

} // verus!
