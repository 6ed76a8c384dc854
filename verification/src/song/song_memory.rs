//! The memory of one song, kept as the bytes the tracker works on.

use crate::io::{IoError, Reader, Writer};
use vstd::prelude::*;

verus! {

/// The two bytes that mark initialised song memory.
pub open spec fn marked_at(bytes: Seq<u8>, offset: int) -> bool {
    bytes[offset] == 0x72 && bytes[offset + 1] == 0x62
}

/// Song memory counts as initialised when the marker stands at one of its
/// three places.
pub open spec fn is_initialized(bytes: Seq<u8>) -> bool
    recommends
        bytes.len() == SongMemory::LEN,
{
    marked_at(bytes, 0x1E78) || marked_at(bytes, 0x3E80) || marked_at(bytes, 0x7FF0)
}

/// A digit of the names of the default speech words: `0` to `9`, then `A`
/// onwards.
pub open spec fn word_digit(n: int) -> u8 {
    if n < 10 {
        (0x30 + n) as u8
    } else {
        (0x37 + n) as u8
    }
}

/// The byte at `offset` within the default frame of the synth wave table.
pub open spec fn synth_wave_byte(offset: int) -> u8 {
    seq![
        0x71u8, 0x32u8, 0x33u8, 0x44u8, 0x45u8, 0x55u8, 0x66u8, 0x77u8,
        0x78u8, 0x89u8, 0x99u8, 0xAAu8, 0xABu8, 0xBCu8, 0xCDu8, 0xCEu8,
    ][offset]
}

/// The byte at index `i` of a song in which nothing has been entered yet.
pub open spec fn empty_song_byte(i: int) -> u8 {
    if 0x0FF0 <= i < 0x1000 {
        0xFF
    } else if 0x1090 <= i < 0x1290 {
        if (i - 0x1090) % 16 < 2 {
            0x06
        } else {
            0x00
        }
    } else if 0x1290 <= i < 0x1690 {
        0xFF
    } else if 0x1DD0 <= i < 0x1DFA {
        let word = (i - 0x1DD0) / 6;
        let letter = (i - 0x1DD0) % 6;
        if letter == 0 || letter == 3 {
            0x57
        } else if letter == 1 || letter == 4 {
            0x2D
        } else if letter == 2 {
            word_digit(2 * word)
        } else {
            word_digit(2 * word + 1)
        }
    } else if i == 0x1E78 || i == 0x3E80 || i == 0x7FF0 {
        0x72
    } else if i == 0x1E79 || i == 0x3E81 || i == 0x7FF1 {
        0x62
    } else if 0x2080 <= i < 0x2880 {
        0xFF
    } else if 0x3EB0 <= i < 0x3FB0 {
        let field = (i - 0x3EB0) % 16;
        if field == 7 || field == 11 {
            0x10
        } else if field == 8 || field == 12 {
            0xFF
        } else {
            0x00
        }
    } else if i == 0x3FB4 {
        0x80
    } else if i == 0x3FBA {
        0x07
    } else if i == 0x3FBB {
        0x02
    } else if i == 0x3FC1 {
        0x20
    } else if i == 0x3FC3 {
        0x01
    } else if 0x3FC6 <= i < 0x3FCA {
        0xFF
    } else if 0x6000 <= i < 0x7000 {
        synth_wave_byte((i - 0x6000) % 16)
    } else if 0x7000 <= i < 0x7FF0 {
        0xFF
    } else if i == 0x7FFF {
        0x16
    } else {
        0x00
    }
}

/// The bytes of a song in which nothing has been entered yet.
pub open spec fn empty_song() -> Seq<u8> {
    Seq::new(SongMemory::LEN as nat, |i: int| empty_song_byte(i))
}

/// Why bytes could not be taken as song memory.
#[derive(Debug, Clone, Copy, PartialEq, Eq, Structural)]
pub enum FromBytesError {
    /// The number of bytes is not that of a song.
    IncorrectSize,
    /// The marker of initialised song memory stands at none of its places.
    InitializationCheckIncorrect,
}

/// Why song memory could not be read or decompressed.
#[derive(Debug, Clone, Copy, PartialEq, Eq, Structural)]
pub enum FromReaderError {
    /// Reading the source or writing the song failed.
    Read(IoError),
    /// The bytes read are not song memory.
    FromBytes(FromBytesError),
    /// The compressed data ended before the song was full.
    Incomplete,
    /// The compressed data jumps from block to block without end.
    EndlessJumps,
}

/// What `SongMemory::from_bytes` makes of `bytes`.
pub open spec fn song_from_bytes(bytes: Seq<u8>) -> Result<Seq<u8>, FromBytesError> {
    if bytes.len() != SongMemory::LEN {
        Err(FromBytesError::IncorrectSize)
    } else if !is_initialized(bytes) {
        Err(FromBytesError::InitializationCheckIncorrect)
    } else {
        Ok(bytes)
    }
}

/// What `SongMemory::from_reader` makes of the bytes `data` from `pos` on.
pub open spec fn song_from_stream(data: Seq<u8>, pos: int) -> Result<Seq<u8>, FromReaderError> {
    if pos + SongMemory::LEN > data.len() {
        Err(FromReaderError::Read(IoError::UnexpectedEof))
    } else {
        match song_from_bytes(data.subrange(pos, pos + SongMemory::LEN)) {
            Ok(bytes) => Ok(bytes),
            Err(e) => Err(FromReaderError::FromBytes(e)),
        }
    }
}

/// What decompression has written, and the error that stopped it, if any.
pub struct Unpacked {
    /// The plain bytes that were written.
    pub out: Seq<u8>,
    /// Why decompression stopped before the end of the file.
    pub error: Option<FromReaderError>,
}

/// What is made of the outcome of decompression: a song, if the end of the
/// file was reached and the bytes written are exactly one song.
pub open spec fn song_from_unpacked(unpacked: Unpacked) -> Result<Seq<u8>, FromReaderError> {
    match unpacked.error {
        Some(e) => Err(e),
        None => if unpacked.out.len() != SongMemory::LEN {
            Err(FromReaderError::Incomplete)
        } else {
            match song_from_bytes(unpacked.out) {
                Ok(bytes) => Ok(bytes),
                Err(e) => Err(FromReaderError::FromBytes(e)),
            }
        },
    }
}

/// A contiguous block of memory that holds one unparsed song.
#[derive(Debug, Clone, PartialEq, Eq)]
pub struct SongMemory {
    bytes: Vec<u8>,
}

impl SongMemory {
    /// The number of bytes taken up by a single song.
    pub const LEN: usize = 0x8000;

    /// The bytes of the song.
    pub closed spec fn view(&self) -> Seq<u8> {
        self.bytes@
    }

    /// The song has its full length and is marked as initialised.
    pub open spec fn wf(&self) -> bool {
        self@.len() == Self::LEN && is_initialized(self@)
    }

    /// A new song in which nothing has been entered yet.
    pub fn new() -> (song: Self)
        ensures
            song.wf(),
            song@ == empty_song(),
    {
        SongMemory { bytes: Self::make_empty_song() }
    }

    /// The bytes of a song in which nothing has been entered yet, with the
    /// markers the tracker checks for.
    pub fn make_empty_song() -> (bytes: Vec<u8>)
        ensures
            bytes@ == empty_song(),
    {
        let mut bytes: Vec<u8> = Vec::new();
        let mut i: usize = 0;
        while i < Self::LEN
            invariant
                i <= Self::LEN,
                bytes@.len() == i,
                forall|j: int| 0 <= j < i ==> bytes@[j] == empty_song_byte(j),
            decreases Self::LEN - i,
        {
            bytes.push(empty_song_byte_at(i));
            i = i + 1;
        }
        assert(bytes@ =~= empty_song());
        bytes
    }

    /// Take `bytes` as song memory, if they have the length of a song and
    /// are marked as initialised.
    pub fn from_bytes(bytes: &[u8]) -> (r: Result<Self, FromBytesError>)
        ensures
            match song_from_bytes(bytes@) {
                Ok(taken) => r.is_ok() && r.unwrap()@ == taken && r.unwrap().wf(),
                Err(e) => r == Err::<Self, FromBytesError>(e),
            },
    {
        if bytes.len() != Self::LEN {
            return Err(FromBytesError::IncorrectSize);
        }
        if !(check(bytes, 0x1E78) || check(bytes, 0x3E80) || check(bytes, 0x7FF0)) {
            return Err(FromBytesError::InitializationCheckIncorrect);
        }
        let mut copy: Vec<u8> = Vec::new();
        let mut i: usize = 0;
        while i < bytes.len()
            invariant
                i <= bytes@.len(),
                copy@ == bytes@.take(i as int),
            decreases bytes@.len() - i,
        {
            copy.push(bytes[i]);
            i = i + 1;
            assert(copy@ =~= bytes@.take(i as int));
        }
        assert(bytes@.take(bytes@.len() as int) =~= bytes@);
        Ok(SongMemory { bytes: copy })
    }

    /// Read the bytes of one song from `reader` and take them as song
    /// memory.
    pub fn from_reader(reader: &mut Reader) -> (r: Result<Self, FromReaderError>)
        ensures
            final(reader).data() == old(reader).data(),
            match song_from_stream(old(reader).data(), old(reader).offset()) {
                Ok(taken) => r.is_ok() && r.unwrap()@ == taken && r.unwrap().wf(),
                Err(e) => r == Err::<Self, FromReaderError>(e),
            },
            final(reader).offset() == if old(reader).offset() + Self::LEN <= old(
                reader,
            ).data().len() {
                old(reader).offset() + Self::LEN
            } else {
                old(reader).data().len() as int
            },
    {
        let bytes = match reader.read_exact(Self::LEN) {
            Ok(bytes) => bytes,
            Err(e) => {
                return Err(FromReaderError::Read(e));
            },
        };
        match Self::from_bytes(bytes.as_slice()) {
            Ok(song) => Ok(song),
            Err(e) => Err(FromReaderError::FromBytes(e)),
        }
    }

    /// Take what a decompressor has written as song memory, if it has
    /// filled the writer with exactly one song.
    pub fn from_writer(writer: Writer) -> (r: Result<Self, FromReaderError>)
        requires
            writer.wf(),
            writer.buffer().len() == Self::LEN,
        ensures
            match song_from_unpacked(
                Unpacked { out: writer.buffer().take(writer.offset()), error: None },
            ) {
                Ok(taken) => r.is_ok() && r.unwrap()@ == taken && r.unwrap().wf(),
                Err(e) => r == Err::<Self, FromReaderError>(e),
            },
    {
        proof {
            writer.lemma_wf();
        }
        if writer.position() != Self::LEN {
            return Err(FromReaderError::Incomplete);
        }
        assert(writer.buffer().take(writer.offset()) =~= writer.buffer());
        match Self::from_bytes(writer.as_slice()) {
            Ok(song) => Ok(song),
            Err(e) => Err(FromReaderError::FromBytes(e)),
        }
    }

    /// Write the bytes of the song to `writer`.
    pub fn to_writer(&self, writer: &mut Writer) -> (r: Result<(), IoError>)
        requires
            old(writer).wf(),
        ensures
            old(writer).after_write(self@, final(writer)),
            r.is_ok() <==> self@.len() <= old(writer).room(),
            r.is_err() ==> r == Err::<(), IoError>(IoError::WriteZero),
    {
        writer.write_all(self.bytes.as_slice())
    }

    /// The version of the format the song is stored in.
    pub fn format_version(&self) -> (version: u8)
        requires
            self.wf(),
        ensures
            version == self@[0x7FFF],
    {
        self.bytes[0x7FFF]
    }

    /// The bytes of the song.
    pub fn as_slice(&self) -> (bytes: &[u8])
        ensures
            bytes@ == self@,
    {
        self.bytes.as_slice()
    }
}

impl Default for SongMemory {
    /// A new song in which nothing has been entered yet.
    fn default() -> (song: Self)
        ensures
            song.wf(),
            song@ == empty_song(),
    {
        Self::new()
    }
}

/// Whether the marker of initialised song memory stands at `offset`.
fn check(bytes: &[u8], offset: usize) -> (marked: bool)
    requires
        offset + 1 < bytes@.len(),
    ensures
        marked == marked_at(bytes@, offset as int),
{
    bytes[offset] == 0x72 && bytes[offset + 1] == 0x62
}

/// The byte at index `i` of a song in which nothing has been entered yet.
fn empty_song_byte_at(i: usize) -> (byte: u8)
    requires
        i < SongMemory::LEN,
    ensures
        byte == empty_song_byte(i as int),
{
    if 0x0FF0 <= i && i < 0x1000 {
        0xFF
    } else if 0x1090 <= i && i < 0x1290 {
        if (i - 0x1090) % 16 < 2 {
            0x06
        } else {
            0x00
        }
    } else if 0x1290 <= i && i < 0x1690 {
        0xFF
    } else if 0x1DD0 <= i && i < 0x1DFA {
        let word = (i - 0x1DD0) / 6;
        let letter = (i - 0x1DD0) % 6;
        if letter == 0 || letter == 3 {
            0x57
        } else if letter == 1 || letter == 4 {
            0x2D
        } else if letter == 2 {
            word_digit_of(2 * word)
        } else {
            word_digit_of(2 * word + 1)
        }
    } else if i == 0x1E78 || i == 0x3E80 || i == 0x7FF0 {
        0x72
    } else if i == 0x1E79 || i == 0x3E81 || i == 0x7FF1 {
        0x62
    } else if 0x2080 <= i && i < 0x2880 {
        0xFF
    } else if 0x3EB0 <= i && i < 0x3FB0 {
        let field = (i - 0x3EB0) % 16;
        if field == 7 || field == 11 {
            0x10
        } else if field == 8 || field == 12 {
            0xFF
        } else {
            0x00
        }
    } else if i == 0x3FB4 {
        0x80
    } else if i == 0x3FBA {
        0x07
    } else if i == 0x3FBB {
        0x02
    } else if i == 0x3FC1 {
        0x20
    } else if i == 0x3FC3 {
        0x01
    } else if 0x3FC6 <= i && i < 0x3FCA {
        0xFF
    } else if 0x6000 <= i && i < 0x7000 {
        let frame: [u8; 16] = [
            0x71, 0x32, 0x33, 0x44, 0x45, 0x55, 0x66, 0x77,
            0x78, 0x89, 0x99, 0xAA, 0xAB, 0xBC, 0xCD, 0xCE,
        ];
        frame[(i - 0x6000) % 16]
    } else if 0x7000 <= i && i < 0x7FF0 {
        0xFF
    } else if i == 0x7FFF {
        0x16
    } else {
        0x00
    }
}

/// A digit of the names of the default speech words.
fn word_digit_of(n: usize) -> (digit: u8)
    requires
        n < 14,
    ensures
        digit == word_digit(n as int),
{
    if n < 10 {
        0x30 + n as u8
    } else {
        0x37 + n as u8
    }
}

} // verus!
