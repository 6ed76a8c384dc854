//! Filling a new save image with songs, one slot after the other.

use crate::fs::filesystem::{empty_image, inserted, FILES_CAPACITY};
use crate::fs::Index;
use crate::name::Name;
use crate::song::song_memory::empty_song;
use crate::song::SongMemory;
use crate::sram::SRam;
use vstd::prelude::*;

verus! {

/// Why a song could not be added to the save image.
#[derive(Debug, Clone, Copy, PartialEq, Eq, Structural)]
pub enum ImportError {
    /// All 32 slots have been filled.
    FileLimitReached,
    /// The blocks that are left are too few for the song.
    OutOfSpace,
}

/// A save image that is being filled, and the slot that comes next.
pub struct Import {
    sram: SRam,
    index: u8,
}

impl Import {
    /// The bytes of the filesystem that is being filled.
    pub closed spec fn image(&self) -> Seq<u8> {
        self.sram.filesystem@
    }

    /// The bytes of the song to work on.
    pub closed spec fn song(&self) -> Seq<u8> {
        self.sram.working_memory_song@
    }

    /// The number of songs added so far, which is the slot that comes
    /// next.
    pub closed spec fn count(&self) -> int {
        self.index as int
    }

    /// The save image is well-formed and no more than 32 songs have been
    /// added.
    pub closed spec fn wf(&self) -> bool {
        self.sram.wf() && self.index <= FILES_CAPACITY
    }

    /// A new save image without songs.
    pub fn new() -> (import: Self)
        ensures
            import.wf(),
            import.count() == 0,
            import.image() == empty_image(),
            import.song() == empty_song(),
    {
        Import { sram: SRam::new(), index: 0 }
    }

    /// Add `song` under `name` and `version` in the slot that comes next,
    /// and give the number of that slot.
    ///
    /// Fails when all slots have been filled, and when the song does not
    /// fit into the blocks that are left; nothing changes then.
    pub fn insert(&mut self, name: &Name<8>, version: u8, song: &SongMemory) -> (r: Result<
        u8,
        ImportError,
    >)
        requires
            old(self).wf(),
            name.wf(),
        ensures
            final(self).wf(),
            final(self).song() == old(self).song(),
            old(self).count() == FILES_CAPACITY ==> r == Err::<u8, ImportError>(
                ImportError::FileLimitReached,
            ) && final(self).image() == old(self).image() && final(self).count() == old(self).count(),
            old(self).count() < FILES_CAPACITY ==> match inserted(
                old(self).image(),
                old(self).count() as u8,
                name@,
                version,
                song@,
            ) {
                None => r == Err::<u8, ImportError>(ImportError::OutOfSpace) && final(self).image() == old(self).image() && final(self).count() == old(self).count(),
                Some(image) => r == Ok::<u8, ImportError>(old(self).count() as u8) && final(self).image() == image && final(self).count() == old(self).count() + 1,
            },
    {
        if self.index as usize == FILES_CAPACITY {
            return Err(ImportError::FileLimitReached);
        }
        let slot = self.index;
        match self.sram.filesystem.insert_file(Index::new(slot), name, version, song) {
            Err(_) => Err(ImportError::OutOfSpace),
            Ok(_) => {
                self.index = slot + 1;
                Ok(slot)
            },
        }
    }

    /// The number of songs added so far.
    pub fn len(&self) -> (count: u8)
        ensures
            count == self.count(),
    {
        self.index
    }

    /// The save image as it has been filled.
    pub fn into_sram(self) -> (sram: SRam)
        requires
            self.wf(),
        ensures
            sram.wf(),
            sram.filesystem@ == self.image(),
            sram.working_memory_song@ == self.song(),
    {
        self.sram
    }
}

} // verus!
