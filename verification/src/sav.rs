//! A save image read as a whole, with its projects looked up by number.

use crate::fs::filesystem::{file_blocks, in_use, name_bytes, song_at, version_of, NAME_LEN};
use crate::fs::{Entry, Filesystem, FromReaderError as FilesystemReadError, Index};
use crate::io::{IoError, Reader};
use crate::name::{first_invalid_from, padded, FromBytesError, Name};
use crate::song::song_memory::SongMemory;
use crate::song::FromReaderError as SongReadError;
use crate::sram::{sram_from_stream, sram_read_end, FromReaderError, Image, SRam};
use vstd::prelude::*;

verus! {

/// Why a save image could not be read.
#[derive(Debug, Clone, Copy, PartialEq, Eq, Structural)]
pub enum SavReadError {
    /// The song or the filesystem is not marked as initialised.
    SramCheckIncorrect,
    /// Reading the source failed.
    Io(IoError),
}

/// A song with its name and version.
pub struct Project {
    /// The name of the project.
    pub name: Name<8>,
    /// The version of the project, which goes up with every save.
    pub version: u8,
    /// The song of the project.
    pub song: SongMemory,
}

/// What `Sav::from_reader` makes of the bytes `data` from `pos` on.
pub open spec fn sav_from_stream(data: Seq<u8>, pos: int) -> Result<Image, SavReadError> {
    match sram_from_stream(data, pos) {
        Ok(image) => Ok(image),
        Err(FromReaderError::WorkingSong(SongReadError::Read(e))) => Err(SavReadError::Io(e)),
        Err(FromReaderError::Filesystem(FilesystemReadError::Io(e))) => Err(SavReadError::Io(e)),
        Err(_) => Err(SavReadError::SramCheckIncorrect),
    }
}

/// A whole save image.
pub struct Sav {
    sram: SRam,
}

impl Sav {
    /// The bytes of the song being worked on.
    pub closed spec fn song(&self) -> Seq<u8> {
        self.sram.working_memory_song@
    }

    /// The bytes of the filesystem.
    pub closed spec fn image(&self) -> Seq<u8> {
        self.sram.filesystem@
    }

    /// Both parts of the image are well-formed.
    pub closed spec fn wf(&self) -> bool {
        self.sram.wf()
    }

    /// Whether `index` is a slot that some block is allocated to.
    pub open spec fn project_in_use(&self, index: u8) -> bool {
        index < 32 && in_use(self.image(), index)
    }

    /// Read a save image from `reader`.
    pub fn from_reader(reader: &mut Reader) -> (r: Result<Self, SavReadError>)
        ensures
            final(reader).data() == old(reader).data(),
            match sav_from_stream(old(reader).data(), old(reader).offset()) {
                Ok(image) => r.is_ok() && r.unwrap().wf() && r.unwrap().song() == image.song
                    && r.unwrap().image() == image.filesystem,
                Err(e) => r == Err::<Self, SavReadError>(e),
            },
            final(reader).offset() == sram_read_end(old(reader).data(), old(reader).offset()),
    {
        match SRam::from_reader(reader) {
            Ok(sram) => Ok(Sav { sram }),
            Err(FromReaderError::WorkingSong(SongReadError::Read(e))) => Err(SavReadError::Io(e)),
            Err(FromReaderError::Filesystem(FilesystemReadError::Io(e))) => Err(
                SavReadError::Io(e),
            ),
            Err(_) => Err(SavReadError::SramCheckIncorrect),
        }
    }

    /// The song that is being worked on.
    pub fn working_memory_song(&self) -> (song: &SongMemory)
        requires
            self.wf(),
        ensures
            song@ == self.song(),
            song.wf(),
    {
        &self.sram.working_memory_song
    }

    /// The project that the song being worked on belongs to, if the image
    /// names one of its 32 slots.
    pub fn active_project(&self) -> (active: Option<Index>)
        requires
            self.wf(),
        ensures
            self.image()[0x140] < 32 ==> active.is_some() && active.unwrap().value()
                == self.image()[0x140],
            self.image()[0x140] >= 32 ==> active.is_none(),
    {
        self.sram.filesystem.active_file()
    }

    /// Whether the slot `index` holds a project.
    pub fn is_project_in_use(&self, index: u8) -> (used: bool)
        requires
            self.wf(),
        ensures
            used == self.project_in_use(index),
    {
        match Index::try_new(index) {
            Some(index) => self.sram.filesystem.is_file_in_use(index),
            None => false,
        }
    }

    /// The project in slot `index`, if the slot holds one.
    fn project(&self, index: u8) -> (entry: Option<Entry<'_>>)
        requires
            self.wf(),
        ensures
            entry.is_some() == self.project_in_use(index),
            entry.is_some() ==> entry.unwrap().wf() && entry.unwrap().image() == self.image()
                && entry.unwrap().slot() == index,
    {
        match Index::try_new(index) {
            Some(index) => self.sram.filesystem.file(index),
            None => None,
        }
    }

    /// The name of the project in slot `index`, without decompressing it;
    /// `None` if the slot holds no project.
    pub fn project_name(&self, index: u8) -> (r: Option<Result<Name<8>, FromBytesError>>)
        requires
            self.wf(),
        ensures
            r.is_some() == self.project_in_use(index),
            r.is_some() ==> match first_invalid_from(name_bytes(self.image(), index), 0) {
                Some(at) => r.unwrap() == Err::<Name<8>, FromBytesError>(
                    FromBytesError::InvalidByte {
                        byte: name_bytes(self.image(), index)[at],
                        index: at as usize,
                    },
                ),
                None => r.unwrap().is_ok() && r.unwrap().unwrap().wf() && r.unwrap().unwrap()@
                    == padded(name_bytes(self.image(), index), NAME_LEN as nat),
            },
    {
        match self.project(index) {
            Some(entry) => Some(entry.name()),
            None => None,
        }
    }

    /// The version of the project in slot `index`, without decompressing
    /// it; `None` if the slot holds no project.
    pub fn project_version(&self, index: u8) -> (r: Option<u8>)
        requires
            self.wf(),
        ensures
            r.is_some() == self.project_in_use(index),
            r.is_some() ==> r.unwrap() == version_of(self.image(), index),
    {
        match self.project(index) {
            Some(entry) => Some(entry.version()),
            None => None,
        }
    }

    /// The song of the project in slot `index`, decompressed; `None` if
    /// the slot holds no project.
    pub fn decompress_song_memory(&self, index: u8) -> (r: Option<Result<SongMemory, SongReadError>>)
        requires
            self.wf(),
        ensures
            r.is_some() == self.project_in_use(index),
            r.is_some() ==> match song_at(
                self.image(),
                file_blocks(self.image(), index)[0] as int,
            ) {
                Ok(song) => r.unwrap().is_ok() && r.unwrap().unwrap()@ == song
                    && r.unwrap().unwrap().wf(),
                Err(e) => r.unwrap() == Err::<SongMemory, SongReadError>(e),
            },
    {
        match self.project(index) {
            Some(entry) => Some(entry.decompress()),
            None => None,
        }
    }
}

} // verus!
