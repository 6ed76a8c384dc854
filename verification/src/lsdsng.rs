//! The export format for a single song: a name, a version and the
//! compressed blocks of the song, one after the other.

use crate::codec::compress::{
    compress_block, compress_from, encode_from, lemma_compress_from_full, lemma_encode_fits,
    lemma_next_block_unused, lemma_step_advances, needs_next_block, step_at, CompressBlockError,
};
use crate::codec::decompress::{decode_from, decompress_block, lemma_decode_fits};
use crate::codec::round_trip::{lemma_decode_block, lemma_encode_ratio, lemma_subrange_split};
use crate::codec::{End, BLOCK_LEN};
use crate::io::{append, overlay, IoError, Reader, Writer};
use crate::name::{first_invalid_from, padded, FromBytesError, Name};
use crate::song::song_memory::{is_initialized, song_from_unpacked};
use crate::song::{FromReaderError as SongReadError, SongMemory, Unpacked};
use vstd::prelude::*;

verus! {

/// Why an exported song could not be read.
#[derive(Debug, Clone, Copy, PartialEq, Eq, Structural)]
pub enum FromReaderError {
    /// Reading the source failed.
    Read(IoError),
    /// The name holds a byte that may not stand in a name.
    Name(FromBytesError),
}

/// The parts of an exported song, as plain values.
pub struct Parts {
    /// The eight bytes of the name.
    pub name: Seq<u8>,
    /// The version of the song.
    pub version: u8,
    /// The compressed blocks.
    pub blocks: Seq<u8>,
}

/// What `LsdSng::from_reader` makes of the bytes `data` from `pos` on.
pub open spec fn parts_from_stream(data: Seq<u8>, pos: int) -> Result<Parts, FromReaderError> {
    if pos + 8 > data.len() {
        Err(FromReaderError::Read(IoError::UnexpectedEof))
    } else {
        let name = data.subrange(pos, pos + 8);
        match first_invalid_from(name, 0) {
            Some(index) => Err(
                FromReaderError::Name(
                    FromBytesError::InvalidByte { byte: name[index], index: index as usize },
                ),
            ),
            None => if pos + 8 >= data.len() {
                Err(FromReaderError::Read(IoError::UnexpectedEof))
            } else {
                Ok(
                    Parts {
                        name: padded(name, 8),
                        version: data[pos + 8],
                        blocks: data.subrange(pos + 9, data.len() as int),
                    },
                )
            },
        }
    }
}

/// The blocks that a song compresses to when each block is followed
/// directly by the next, from the block with the number `count` on.
pub open spec fn song_blocks(src: Seq<u8>, pos: int, count: nat) -> Seq<u8>
    decreases src.len() - pos,
{
    let packed = compress_from(src, pos, BLOCK_LEN as int, Some(count as u8));
    match packed.end {
        Ok(End::JumpToBlock(_)) => {
            if 0 <= pos {
                proof {
                    lemma_block_advances(src, pos, Some(count as u8));
                }
                packed.out + song_blocks(src, packed.pos, count + 1)
            } else {
                packed.out
            }
        },
        _ => packed.out,
    }
}

/// A block that ends in a jump has taken at least one byte of the source,
/// and none beyond its end; every closed block is full.
pub proof fn lemma_block_advances(src: Seq<u8>, pos: int, next: Option<u8>)
    requires
        0 <= pos,
    ensures
        compress_from(src, pos, BLOCK_LEN as int, next).end is Ok ==> compress_from(
            src,
            pos,
            BLOCK_LEN as int,
            next,
        ).out.len() == BLOCK_LEN,
        compress_from(src, pos, BLOCK_LEN as int, next).end matches Ok(End::JumpToBlock(_))
            ==> pos < compress_from(src, pos, BLOCK_LEN as int, next).pos < src.len(),
        compress_from(src, pos, BLOCK_LEN as int, next).end != Err::<End, CompressBlockError>(
            CompressBlockError::Io(IoError::WriteZero),
        ),
        pos <= src.len() ==> compress_from(src, pos, BLOCK_LEN as int, next).pos <= src.len(),
{
    let units = encode_from(src, pos, BLOCK_LEN as int);
    lemma_compress_from_full(src, pos, BLOCK_LEN as int, next);
    lemma_encode_fits(src, pos, BLOCK_LEN as int);
    if pos < src.len() {
        lemma_step_advances(src, pos);
        let unit = step_at(src, pos);
        lemma_encode_fits(src, pos + unit.plain_len(), BLOCK_LEN - unit.encoded_len());
    }
}

/// How much of `data` lies at or after the start of `block`.
pub open spec fn blocks_left(data: Seq<u8>, block: int) -> int {
    if BLOCK_LEN * block < data.len() {
        data.len() - BLOCK_LEN * block
    } else {
        0
    }
}

/// Decompress `data` from the start of `block` on, going on with the next
/// block in storage order after each jump, whatever its target.
pub open spec fn unpack_flat(data: Seq<u8>, block: int, room: int) -> Unpacked
    decreases blocks_left(data, block),
{
    let d = decode_from(data, BLOCK_LEN * block, room);
    match d.end {
        Ok(End::EndOfFile) => Unpacked { out: d.out, error: None },
        Ok(End::JumpToBlock(_)) => {
            let rest = unpack_flat(data, block + 1, room - d.out.len());
            Unpacked { out: d.out + rest.out, error: rest.error }
        },
        Err(e) => Unpacked { out: d.out, error: Some(SongReadError::Read(e)) },
    }
}

/// A block that ends in a jump has taken at least 254 bytes of the source.
pub proof fn lemma_block_takes(src: Seq<u8>, pos: int, next: Option<u8>)
    requires
        0 <= pos,
    ensures
        compress_from(src, pos, BLOCK_LEN as int, next).end matches Ok(End::JumpToBlock(_))
            ==> compress_from(src, pos, BLOCK_LEN as int, next).pos >= pos + 254,
{
    lemma_encode_ratio(src, pos, BLOCK_LEN as int);
    lemma_encode_fits(src, pos, BLOCK_LEN as int);
}

/// Where the blocks that a song compresses to stand in `data` from the
/// start of `block` on, unpacking them in storage order gives back the
/// song.
#[verifier::rlimit(50)]
pub proof fn lemma_unpack_song_blocks(
    src: Seq<u8>,
    pos: int,
    count: nat,
    data: Seq<u8>,
    block: int,
    room: int,
)
    requires
        0 <= pos <= src.len(),
        254 * count <= pos,
        src.len() <= 254 * 223,
        0 <= block,
        BLOCK_LEN * block <= data.len(),
        data.subrange(BLOCK_LEN * block, data.len() as int) == song_blocks(src, pos, count),
        room >= src.len() - pos,
    ensures
        unpack_flat(data, block, room) == (Unpacked {
            out: src.subrange(pos, src.len() as int),
            error: None,
        }),
    decreases src.len() - pos,
{
    let code = count as u8;
    assert(code == count);
    let at = BLOCK_LEN * block;
    let packed = compress_from(src, pos, BLOCK_LEN as int, Some(code));
    lemma_block_advances(src, pos, Some(code));
    lemma_block_takes(src, pos, Some(code));
    let stored = data.subrange(at, data.len() as int);
    assert(packed.out.len() == BLOCK_LEN);
    assert(stored.len() >= BLOCK_LEN);
    assert(data.subrange(at, at + BLOCK_LEN) == packed.out) by {
        assert(data.subrange(at, at + BLOCK_LEN) =~= stored.subrange(0, BLOCK_LEN as int));
        assert(stored.subrange(0, BLOCK_LEN as int) =~= packed.out);
    }
    lemma_decode_block(src, pos, BLOCK_LEN as int, Some(code), data, at, room);
    match packed.end {
        Ok(End::JumpToBlock(_)) => {
            let rest = song_blocks(src, packed.pos, count + 1);
            assert(song_blocks(src, pos, count) == packed.out + rest);
            assert(data.subrange(at + BLOCK_LEN, data.len() as int) == rest) by {
                assert(data.subrange(at + BLOCK_LEN, data.len() as int) =~= stored.subrange(
                    BLOCK_LEN as int,
                    stored.len() as int,
                ));
                assert(stored.subrange(BLOCK_LEN as int, stored.len() as int) =~= rest);
            }
            lemma_unpack_song_blocks(
                src,
                packed.pos,
                count + 1,
                data,
                block + 1,
                room - (packed.pos - pos),
            );
            lemma_subrange_split(src, pos, packed.pos, src.len() as int);
        },
        _ => {},
    }
}

/// Compressing a song into blocks that follow each other and unpacking
/// those blocks gives back the song, byte for byte.
pub proof fn lemma_round_trip(song: Seq<u8>)
    requires
        song.len() == SongMemory::LEN,
        is_initialized(song),
    ensures
        song_from_unpacked(unpack_flat(song_blocks(song, 0, 0), 0, SongMemory::LEN as int)) == Ok::<
            Seq<u8>,
            SongReadError,
        >(song),
{
    let data = song_blocks(song, 0, 0);
    assert(data.subrange(0, data.len() as int) =~= data);
    lemma_unpack_song_blocks(song, 0, 0, data, 0, SongMemory::LEN as int);
    assert(song.subrange(0, song.len() as int) =~= song);
}

/// Writing an exported song out and reading it back gives the same name,
/// version and blocks.
pub proof fn lemma_lsdsng_round_trip(lsdsng: LsdSng)
    requires
        lsdsng.wf(),
    ensures
        parts_from_stream(lsdsng.serialized(), 0) == Ok::<Parts, FromReaderError>(
            Parts { name: lsdsng.name@, version: lsdsng.version, blocks: lsdsng.blocks@ },
        ),
{
    let data = lsdsng.serialized();
    lsdsng.name.lemma_reads_back();
    assert(data.subrange(0, 8) =~= lsdsng.name@);
    assert(data.subrange(9, data.len() as int) =~= lsdsng.blocks@);
}

/// A name, a version and the compressed blocks of one song.
#[derive(Debug, Clone, PartialEq, Eq)]
pub struct LsdSng {
    /// The name of the song.
    pub name: Name<8>,
    /// The version of the song, which goes up with every save.
    pub version: u8,
    /// The compressed blocks of the song, in storage order. Jumps in them
    /// are not followed: each block is continued by the next.
    pub blocks: Vec<u8>,
}

impl LsdSng {
    /// The name is well-formed.
    pub open spec fn wf(&self) -> bool {
        self.name.wf()
    }

    /// The bytes of the export file: the name, the version, the blocks.
    pub open spec fn serialized(&self) -> Seq<u8> {
        self.name@ + seq![self.version] + self.blocks@
    }

    /// An exported song made of its parts.
    pub fn new(name: Name<8>, version: u8, blocks: Vec<u8>) -> (lsdsng: Self)
        ensures
            lsdsng.name == name,
            lsdsng.version == version,
            lsdsng.blocks == blocks,
    {
        LsdSng { name, version, blocks }
    }

    /// Compress `song` into blocks that follow each other directly.
    pub fn from_song(name: Name<8>, version: u8, song: &SongMemory) -> (r: Result<
        Self,
        CompressBlockError,
    >)
        ensures
            r.is_ok(),
            r.unwrap().name == name,
            r.unwrap().version == version,
            r.unwrap().blocks@ == song_blocks(song@, 0, 0),
    {
        let mut blocks: Vec<u8> = Vec::new();
        let mut reader = Reader::new(song.as_slice());
        let total = reader.len();
        let mut count: usize = 0;
        loop
            invariant
                reader.data() == song@,
                total == song@.len(),
                count <= reader.offset() <= total,
                song_blocks(song@, 0, 0) == blocks@ + song_blocks(
                    song@,
                    reader.offset(),
                    count as nat,
                ),
            decreases song@.len() - reader.offset(),
        {
            let ghost pos = reader.offset();
            let mut writer = Writer::new(BLOCK_LEN);
            #[verifier::truncate]
            let next = count as u8;
            let pick = || -> (index: Option<u8>) ensures index == Some(next) { Some(next) };
            let end = compress_block(&mut reader, &mut writer, pick);
            proof {
                lemma_block_advances(song@, pos, Some(next));
                if !needs_next_block(song@, pos, BLOCK_LEN as int) {
                    lemma_next_block_unused(song@, pos, BLOCK_LEN as int, Some(next));
                }
                assert(next == (count as nat) as u8);
            }
            let block = writer.into_bytes();
            let ghost packed = compress_from(song@, pos, BLOCK_LEN as int, Some(next));
            assert(block@ =~= packed.out);
            let ghost before = blocks@;
            append(&mut blocks, block.as_slice());
            match end {
                Ok(End::EndOfFile) => {
                    return Ok(LsdSng::new(name, version, blocks));
                },
                Ok(End::JumpToBlock(_)) => {
                    assert(before + (packed.out + song_blocks(
                        song@,
                        packed.pos,
                        (count + 1) as nat,
                    )) =~= (before + packed.out) + song_blocks(
                        song@,
                        packed.pos,
                        (count + 1) as nat,
                    ));
                    count = count + 1;
                },
                Err(_) => unreached(),
            }
        }
    }

    /// Read an exported song from `reader`: eight bytes of name, one byte
    /// of version, and blocks up to the end.
    pub fn from_reader(reader: &mut Reader) -> (r: Result<Self, FromReaderError>)
        ensures
            final(reader).data() == old(reader).data(),
            match parts_from_stream(old(reader).data(), old(reader).offset()) {
                Ok(parts) => r.is_ok() && r.unwrap().wf() && r.unwrap().name@ == parts.name
                    && r.unwrap().version == parts.version && r.unwrap().blocks@ == parts.blocks,
                Err(e) => r == Err::<Self, FromReaderError>(e),
            },
            final(reader).offset() == match parts_from_stream(
                old(reader).data(),
                old(reader).offset(),
            ) {
                Err(FromReaderError::Name(_)) => old(reader).offset() + 8,
                _ => old(reader).data().len() as int,
            },
    {
        let bytes = match reader.read_exact(8) {
            Ok(bytes) => bytes,
            Err(e) => {
                return Err(FromReaderError::Read(e));
            },
        };
        let name = match Name::<8>::from_bytes(bytes.as_slice()) {
            Ok(name) => name,
            Err(e) => {
                return Err(FromReaderError::Name(e));
            },
        };
        let version = match reader.read_byte() {
            Ok(version) => version,
            Err(e) => {
                return Err(FromReaderError::Read(e));
            },
        };
        let blocks = reader.read_to_end();
        Ok(LsdSng { name, version, blocks })
    }

    /// Write the export file to `writer`: the name, the version, the
    /// blocks.
    pub fn to_writer(&self, writer: &mut Writer) -> (r: Result<(), IoError>)
        requires
            old(writer).wf(),
            self.wf(),
        ensures
            old(writer).after_write(self.serialized(), final(writer)),
            r.is_ok() <==> self.serialized().len() <= old(writer).room(),
            r.is_err() ==> r == Err::<(), IoError>(IoError::WriteZero),
    {
        let ghost start = writer.offset();
        let ghost before = writer.buffer();
        let ghost room = writer.room();
        proof {
            writer.lemma_wf();
        }
        let name = self.name.bytes();
        match writer.write_all(name.as_slice()) {
            Err(e) => {
                assert(self.serialized().take(room) =~= self.name@.take(room));
                return Err(e);
            },
            Ok(()) => {},
        }
        match writer.write_byte(self.version) {
            Err(e) => {
                assert(self.serialized().take(room) =~= self.name@);
                assert(writer.buffer() =~= overlay(before, start, self.name@));
                return Err(e);
            },
            Ok(()) => {},
        }
        let ghost head = self.name@ + seq![self.version];
        assert(writer.buffer() =~= overlay(before, start, head));
        let r = writer.write_all(self.blocks.as_slice());
        proof {
            let kept = crate::io::fitting(self.blocks@, room - 9);
            assert(writer.buffer() =~= overlay(before, start, head + kept));
            if r.is_err() {
                assert(self.serialized().take(room) =~= head + kept);
            } else {
                assert(self.serialized() =~= head + kept);
            }
        }
        r
    }

    /// The name of the song.
    pub fn name(&self) -> (name: Name<8>)
        ensures
            name == self.name,
    {
        self.name
    }

    /// The version of the song.
    pub fn version(&self) -> (version: u8)
        ensures
            version == self.version,
    {
        self.version
    }

    /// Decompress the song. Each block is continued by the one that
    /// follows it in storage, whatever block its jump names.
    pub fn decompress(&self) -> (r: Result<SongMemory, SongReadError>)
        ensures
            match song_from_unpacked(unpack_flat(self.blocks@, 0, SongMemory::LEN as int)) {
                Ok(song) => r.is_ok() && r.unwrap()@ == song && r.unwrap().wf(),
                Err(e) => r == Err::<SongMemory, SongReadError>(e),
            },
    {
        let mut reader = Reader::new(self.blocks.as_slice());
        let mut writer = Writer::new(SongMemory::LEN);
        let mut block: usize = 0;
        let ghost data = self.blocks@;
        let ghost zeros = writer.buffer();
        let ghost mut done: Seq<u8> = Seq::empty();
        let ghost goal = unpack_flat(data, 0, SongMemory::LEN as int);
        proof {
            assert(zeros =~= overlay(zeros, 0, done));
        }
        loop
            invariant
                data == self.blocks@,
                reader.data() == data,
                reader.offset() == BLOCK_LEN * block,
                writer.wf(),
                zeros.len() == SongMemory::LEN,
                writer.buffer().len() == SongMemory::LEN,
                writer.buffer() == overlay(zeros, 0, done),
                writer.offset() == done.len(),
                goal == unpack_flat(data, 0, SongMemory::LEN as int),
                goal.out == done + unpack_flat(data, block as int, writer.room()).out,
                goal.error == unpack_flat(data, block as int, writer.room()).error,
            decreases blocks_left(data, block as int),
        {
            let ghost mid = writer;
            let ghost d = decode_from(data, BLOCK_LEN * block, mid.room());
            proof {
                writer.lemma_wf();
                lemma_decode_fits(data, BLOCK_LEN * block, mid.room());
            }
            let end = decompress_block(&mut reader, &mut writer);
            proof {
                assert(writer.buffer() =~= overlay(zeros, 0, done + d.out));
            }
            match end {
                Err(e) => {
                    return Err(SongReadError::Read(e));
                },
                Ok(End::EndOfFile) => {
                    assert(writer.buffer().take(writer.offset()) =~= done + d.out);
                    return SongMemory::from_writer(writer);
                },
                Ok(End::JumpToBlock(_)) => {
                    proof {
                        let rest = unpack_flat(data, block + 1, mid.room() - d.out.len());
                        assert(done + (d.out + rest.out) =~= (done + d.out) + rest.out);
                        done = done + d.out;
                    }
                    if reader.len() - block * BLOCK_LEN <= BLOCK_LEN {
                        return Err(SongReadError::Read(IoError::UnexpectedEof));
                    }
                    block = block + 1;
                    reader.seek(block * BLOCK_LEN);
                },
            }
        }
    }
}

} // verus!
