//! What the files in a filesystem and exported songs have in common.

use crate::fs::filesystem::{
    file_blocks, flat_blocks, name_bytes, song_at, version_of, Entry, FileToLsdSngError,
};
use crate::io::copy_range;
use crate::lsdsng::{song_blocks, unpack_flat, LsdSng};
use crate::name::{first_invalid_from, padded, FromBytesError, Name};
use crate::song::song_memory::song_from_unpacked;
use crate::song::{FromReaderError as SongReadError, SongMemory};
use vstd::prelude::*;

verus! {

/// Whether `r` is what reading the name kept in `bytes` gives: the name up
/// to its first zero, or the first byte that may not stand in a name.
pub open spec fn is_name_of(bytes: Seq<u8>, r: Result<Name<8>, FromBytesError>) -> bool {
    match first_invalid_from(bytes, 0) {
        Some(index) => r == Err::<Name<8>, FromBytesError>(
            FromBytesError::InvalidByte { byte: bytes[index], index: index as usize },
        ),
        None => r.is_ok() && r.unwrap().wf() && r.unwrap()@ == padded(bytes, 8),
    }
}

/// Whether `r` is what decompressing to `song` gives.
pub open spec fn is_song_of(
    song: Result<Seq<u8>, SongReadError>,
    r: Result<SongMemory, SongReadError>,
) -> bool {
    match song {
        Ok(bytes) => r.is_ok() && r.unwrap()@ == bytes && r.unwrap().wf(),
        Err(e) => r == Err::<SongMemory, SongReadError>(e),
    }
}

/// Something that has a name, a version and a compressed song: a file in
/// a filesystem, or an exported song.
pub trait File {
    /// What has to hold of the file for it to be read.
    spec fn readable(&self) -> bool;

    /// The bytes kept as the name of the file.
    spec fn name_field(&self) -> Seq<u8>;

    /// The version kept for the file.
    spec fn version_field(&self) -> u8;

    /// What the compressed song of the file decompresses to.
    spec fn song(&self) -> Result<Seq<u8>, SongReadError>;

    /// The compressed blocks of the file, in the order in which they are
    /// stored.
    spec fn stored_blocks(&self) -> Seq<u8>;

    /// The name of the song stored in the file.
    fn name(&self) -> (r: Result<Name<8>, FromBytesError>)
        requires
            self.readable(),
        ensures
            is_name_of(self.name_field(), r),
    ;

    /// The version of the song, which goes up with every save.
    fn version(&self) -> (version: u8)
        requires
            self.readable(),
        ensures
            version == self.version_field(),
    ;

    /// Decompress the song stored in the file.
    fn decompress(&self) -> (r: Result<SongMemory, SongReadError>)
        requires
            self.readable(),
        ensures
            is_song_of(self.song(), r),
    ;

    /// The file as an exported song: its name, its version and its
    /// blocks as they are stored. It fails if the bytes kept as the name
    /// are not a name.
    fn lsdsng(&self) -> (r: Result<LsdSng, FileToLsdSngError>)
        requires
            self.readable(),
        ensures
            match first_invalid_from(self.name_field(), 0) {
                Some(index) => r == Err::<LsdSng, FileToLsdSngError>(
                    FileToLsdSngError::Name(
                        FromBytesError::InvalidByte {
                            byte: self.name_field()[index],
                            index: index as usize,
                        },
                    ),
                ),
                None => r.is_ok() && r.unwrap().wf() && r.unwrap().name@ == padded(
                    self.name_field(),
                    8,
                ) && r.unwrap().version == self.version_field() && r.unwrap().blocks@
                    == self.stored_blocks(),
            },
    ;
}

/// Make an exported song of any file from its three parts: read the name
/// and the version, decompress the song, and compress it again into
/// blocks that follow each other.
pub fn recompress<F: File>(file: &F) -> (r: Result<LsdSng, FileToLsdSngError>)
    requires
        file.readable(),
    ensures
        match first_invalid_from(file.name_field(), 0) {
            Some(index) => r == Err::<LsdSng, FileToLsdSngError>(
                FileToLsdSngError::Name(
                    FromBytesError::InvalidByte {
                        byte: file.name_field()[index],
                        index: index as usize,
                    },
                ),
            ),
            None => match file.song() {
                Err(e) => r == Err::<LsdSng, FileToLsdSngError>(FileToLsdSngError::Decompress(e)),
                Ok(song) => r.is_ok() && r.unwrap().wf() && r.unwrap().name@ == padded(
                    file.name_field(),
                    8,
                ) && r.unwrap().version == file.version_field() && r.unwrap().blocks@
                    == song_blocks(song, 0, 0),
            },
        },
{
    let name = match file.name() {
        Ok(name) => name,
        Err(e) => {
            return Err(FileToLsdSngError::Name(e));
        },
    };
    let version = file.version();
    let song = match file.decompress() {
        Ok(song) => song,
        Err(e) => {
            return Err(FileToLsdSngError::Decompress(e));
        },
    };
    match LsdSng::from_song(name, version, &song) {
        Ok(lsdsng) => Ok(lsdsng),
        Err(e) => Err(FileToLsdSngError::Compress(e)),
    }
}

impl<'a> File for Entry<'a> {
    open spec fn readable(&self) -> bool {
        self.wf()
    }

    open spec fn name_field(&self) -> Seq<u8> {
        name_bytes(self.image(), self.slot())
    }

    open spec fn version_field(&self) -> u8 {
        version_of(self.image(), self.slot())
    }

    open spec fn song(&self) -> Result<Seq<u8>, SongReadError> {
        song_at(self.image(), file_blocks(self.image(), self.slot())[0] as int)
    }

    open spec fn stored_blocks(&self) -> Seq<u8> {
        flat_blocks(self.image(), file_blocks(self.image(), self.slot()))
    }

    fn name(&self) -> (r: Result<Name<8>, FromBytesError>) {
        Entry::name(self)
    }

    fn version(&self) -> (version: u8) {
        Entry::version(self)
    }

    fn decompress(&self) -> (r: Result<SongMemory, SongReadError>) {
        Entry::decompress(self)
    }

    fn lsdsng(&self) -> (r: Result<LsdSng, FileToLsdSngError>) {
        Entry::lsdsng(self)
    }
}

impl File for LsdSng {
    open spec fn readable(&self) -> bool {
        self.wf()
    }

    open spec fn name_field(&self) -> Seq<u8> {
        self.name@
    }

    open spec fn version_field(&self) -> u8 {
        self.version
    }

    open spec fn song(&self) -> Result<Seq<u8>, SongReadError> {
        song_from_unpacked(unpack_flat(self.blocks@, 0, SongMemory::LEN as int))
    }

    open spec fn stored_blocks(&self) -> Seq<u8> {
        self.blocks@
    }

    fn name(&self) -> (r: Result<Name<8>, FromBytesError>) {
        proof {
            self.name.lemma_reads_back();
        }
        Ok(LsdSng::name(self))
    }

    fn version(&self) -> (version: u8) {
        LsdSng::version(self)
    }

    fn decompress(&self) -> (r: Result<SongMemory, SongReadError>) {
        LsdSng::decompress(self)
    }

    fn lsdsng(&self) -> (r: Result<LsdSng, FileToLsdSngError>)
        ensures
            r.is_ok(),
            r.unwrap().name == self.name,
    {
        proof {
            self.name.lemma_reads_back();
        }
        let blocks = copy_range(self.blocks.as_slice(), 0, self.blocks.len());
        assert(blocks@ =~= self.blocks@);
        Ok(LsdSng::new(self.name, self.version, blocks))
    }
}

} // verus!
