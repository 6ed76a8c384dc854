//! The whole save image: the song being worked on and the filesystem.

use crate::fs::filesystem::image_from_stream;
use crate::fs::{Filesystem, FromReaderError as FilesystemReadError};
use crate::io::{overlay, IoError, Reader, Writer};
use crate::song::song_memory::song_from_stream;
use crate::song::{FromReaderError as SongReadError, SongMemory};
use vstd::prelude::*;

verus! {

/// Why a save image could not be read.
#[derive(Debug, Clone, Copy, PartialEq, Eq, Structural)]
pub enum FromReaderError {
    /// Reading the filesystem failed.
    Filesystem(FilesystemReadError),
    /// Reading the song being worked on failed.
    WorkingSong(SongReadError),
}

/// The two parts of a save image, as plain bytes.
pub struct Image {
    /// The bytes of the song being worked on.
    pub song: Seq<u8>,
    /// The bytes of the filesystem.
    pub filesystem: Seq<u8>,
}

/// What `SRam::from_reader` makes of the bytes `data` from `pos` on.
pub open spec fn sram_from_stream(data: Seq<u8>, pos: int) -> Result<Image, FromReaderError> {
    match song_from_stream(data, pos) {
        Err(e) => Err(FromReaderError::WorkingSong(e)),
        Ok(song) => match image_from_stream(data, pos + SongMemory::LEN) {
            Err(e) => Err(FromReaderError::Filesystem(e)),
            Ok(filesystem) => Ok(Image { song, filesystem }),
        },
    }
}

/// Writing a save image out and reading it back gives the same song and
/// the same filesystem.
pub proof fn lemma_sram_round_trip(sram: SRam)
    requires
        sram.wf(),
    ensures
        sram_from_stream(sram.serialized(), 0) == Ok::<Image, FromReaderError>(
            Image { song: sram.working_memory_song@, filesystem: sram.filesystem@ },
        ),
{
    let data = sram.serialized();
    assert(data.subrange(0, SongMemory::LEN as int) =~= sram.working_memory_song@);
    assert(data.subrange(SongMemory::LEN as int, SongMemory::LEN + 0x18000)
        =~= sram.filesystem@);
}

/// Where a reader stands after a save image has been read from `pos` on:
/// behind the last part that was there in full, or at the end.
pub open spec fn sram_read_end(data: Seq<u8>, pos: int) -> int {
    if pos + SongMemory::LEN > data.len() {
        data.len() as int
    } else if song_from_stream(data, pos) is Err {
        pos + SongMemory::LEN
    } else if pos + SRam::LEN > data.len() {
        data.len() as int
    } else {
        pos + SRam::LEN
    }
}

/// A save image: one uncompressed song to work on, and a filesystem of up
/// to 32 compressed songs.
#[derive(Debug, Clone, PartialEq, Eq)]
pub struct SRam {
    /// The song that is being worked on.
    pub working_memory_song: SongMemory,
    /// The store of the songs that are not being worked on.
    pub filesystem: Filesystem,
}

impl SRam {
    /// The length in bytes of a save image.
    pub const LEN: usize = 0x20000;

    /// Both parts are well-formed.
    pub open spec fn wf(&self) -> bool {
        self.working_memory_song.wf() && self.filesystem.wf()
    }

    /// The bytes of the save image: the song, then the filesystem.
    pub open spec fn serialized(&self) -> Seq<u8> {
        self.working_memory_song@ + self.filesystem@
    }

    /// A save image with an empty song and a filesystem without files.
    pub fn new() -> (sram: Self)
        ensures
            sram.wf(),
            sram.working_memory_song@ == crate::song::song_memory::empty_song(),
            sram.filesystem@ == crate::fs::filesystem::empty_image(),
    {
        SRam { working_memory_song: SongMemory::new(), filesystem: Filesystem::new() }
    }

    /// Read a save image from `reader`: the song, then the filesystem.
    pub fn from_reader(reader: &mut Reader) -> (r: Result<Self, FromReaderError>)
        ensures
            final(reader).data() == old(reader).data(),
            match sram_from_stream(old(reader).data(), old(reader).offset()) {
                Ok(image) => r.is_ok() && r.unwrap().wf() && r.unwrap().working_memory_song@
                    == image.song && r.unwrap().filesystem@ == image.filesystem,
                Err(e) => r == Err::<Self, FromReaderError>(e),
            },
            final(reader).offset() == sram_read_end(old(reader).data(), old(reader).offset()),
    {
        let working_memory_song = match SongMemory::from_reader(reader) {
            Ok(song) => song,
            Err(e) => {
                return Err(FromReaderError::WorkingSong(e));
            },
        };
        let filesystem = match Filesystem::from_reader(reader) {
            Ok(filesystem) => filesystem,
            Err(e) => {
                return Err(FromReaderError::Filesystem(e));
            },
        };
        Ok(SRam { working_memory_song, filesystem })
    }

    /// Write the save image to `writer`: the song, then the filesystem.
    pub fn to_writer(&self, writer: &mut Writer) -> (r: Result<(), IoError>)
        requires
            old(writer).wf(),
            self.wf(),
        ensures
            old(writer).after_write(self.serialized(), final(writer)),
            r.is_ok() <==> self.serialized().len() <= old(writer).room(),
            r.is_err() ==> r == Err::<(), IoError>(IoError::WriteZero),
    {
        let ghost start = writer.offset();
        let ghost before = writer.buffer();
        let ghost room = writer.room();
        proof {
            writer.lemma_wf();
        }
        match self.working_memory_song.to_writer(writer) {
            Err(e) => {
                assert(self.serialized().take(room) =~= self.working_memory_song@.take(room));
                return Err(e);
            },
            Ok(()) => {},
        }
        let r = self.filesystem.to_writer(writer);
        proof {
            let head = self.working_memory_song@;
            let kept = crate::io::fitting(self.filesystem@, room - head.len());
            assert(writer.buffer() =~= overlay(before, start, head + kept));
            if r.is_err() {
                assert(self.serialized().take(room) =~= head + kept);
            } else {
                assert(self.serialized() =~= head + kept);
            }
        }
        r
    }
}

impl Default for SRam {
    /// A save image with an empty song and a filesystem without files.
    fn default() -> (sram: Self)
        ensures
            sram.wf(),
            sram.working_memory_song@ == crate::song::song_memory::empty_song(),
            sram.filesystem@ == crate::fs::filesystem::empty_image(),
    {
        Self::new()
    }
}

} // verus!
