//! Compression: from plain bytes to the units of a compressed block.

use crate::codec::utils::{read_byte, write_repeated_byte};
use crate::codec::{
    Compression, End, CMD_BYTE, DEFAULT_INSTRUMENT_BYTE, DEFAULT_WAVE_BYTE, EOF_BYTE, RLE_BYTE,
};
use crate::io::{
    fitting, lemma_repeated_len, overlay, repeated, starts_with_at, IoError, Reader, Writer,
};
use crate::song::instrument::{default_instrument, default_instrument_bytes};
use crate::song::wave::{default_wave, default_wave_bytes};
use vstd::prelude::*;

verus! {

/// Why a block could not be compressed.
#[derive(Debug, Clone, Copy, PartialEq, Eq, Structural)]
pub enum CompressBlockError {
    /// Reading the source or writing the block failed.
    Io(IoError),
    /// The block is full and there is no block left to continue in.
    NoBlockLeft,
}

/// The number of copies of `pattern` that stand in `src` from `pos` on,
/// counted on from `count` and never beyond 255.
pub open spec fn count_from(src: Seq<u8>, pos: int, pattern: Seq<u8>, count: u8) -> u8
    decreases 255 - count,
{
    if count < 255 && starts_with_at(src, pos, pattern) {
        count_from(src, pos + pattern.len(), pattern, (count + 1) as u8)
    } else {
        count
    }
}

/// Counting never goes down.
pub proof fn lemma_count_from_grows(src: Seq<u8>, pos: int, pattern: Seq<u8>, count: u8)
    ensures
        count <= count_from(src, pos, pattern, count),
    decreases 255 - count,
{
    if count < 255 && starts_with_at(src, pos, pattern) {
        lemma_count_from_grows(src, pos + pattern.len(), pattern, (count + 1) as u8);
    }
}

/// The unit that the compressor chooses at `pos`: default instruments
/// first, then default waves, then an escape, a run or a single byte.
#[verifier::opaque]
pub open spec fn step_at(src: Seq<u8>, pos: int) -> Compression
    recommends
        0 <= pos < src.len(),
{
    let instruments = count_from(src, pos, default_instrument(), 0);
    let waves = count_from(src, pos, default_wave(), 0);
    let value = src[pos];
    let run = count_from(src, pos + 1, seq![value], 1);
    if instruments >= 1 {
        Compression::DefaultInstrument { count: instruments }
    } else if waves >= 1 {
        Compression::DefaultWave { count: waves }
    } else if value == CMD_BYTE {
        Compression::CmdLiteral
    } else if value == RLE_BYTE {
        Compression::RleLiteral
    } else if run >= 2 {
        Compression::RunLengthEncoding { value, count: run }
    } else {
        Compression::Literal { value }
    }
}

/// The copies that were counted lie within the source.
pub proof fn lemma_count_from_within(src: Seq<u8>, pos: int, pattern: Seq<u8>, count: u8)
    requires
        0 <= pos <= src.len(),
    ensures
        pos + (count_from(src, pos, pattern, count) - count) * pattern.len() <= src.len(),
    decreases 255 - count,
{
    let total = count_from(src, pos, pattern, count);
    if count < 255 && starts_with_at(src, pos, pattern) {
        lemma_count_from_within(src, pos + pattern.len(), pattern, (count + 1) as u8);
        assert((total - count) * pattern.len() == pattern.len() + (total - (count + 1))
            * pattern.len()) by (nonlinear_arith);
    } else {
        assert((total - count) * pattern.len() == 0) by (nonlinear_arith)
            requires
                total == count,
        ;
    }
}

/// Every unit that the compressor chooses stands for at least one byte,
/// and for no more bytes than the source has left.
pub proof fn lemma_step_advances(src: Seq<u8>, pos: int)
    requires
        0 <= pos < src.len(),
    ensures
        step_at(src, pos).plain_len() >= 1,
        pos + step_at(src, pos).plain_len() <= src.len(),
        1 <= step_at(src, pos).encoded_len() <= 3,
{
    reveal(step_at);
    let instruments = count_from(src, pos, default_instrument(), 0);
    let waves = count_from(src, pos, default_wave(), 0);
    let run = count_from(src, pos + 1, seq![src[pos]], 1);
    lemma_count_from_within(src, pos, default_instrument(), 0);
    lemma_count_from_within(src, pos, default_wave(), 0);
    lemma_count_from_within(src, pos + 1, seq![src[pos]], 1);
    lemma_count_from_grows(src, pos + 1, seq![src[pos]], 1);
    assert(default_instrument().len() == 16);
    assert(default_wave().len() == 16);
    assert(instruments * 16 == 16 * instruments) by (nonlinear_arith);
    assert(waves * 16 == 16 * waves) by (nonlinear_arith);
    assert((run - 1) * 1 == run - 1) by (nonlinear_arith);
}

/// The units written into one block, and where the source stands then.
pub struct Encoded {
    /// The compressed bytes of the units.
    pub out: Seq<u8>,
    /// The position in the source after the last unit.
    pub pos: int,
}

/// Compress `src` from `pos`, unit by unit, while the source lasts and at
/// least five bytes of the block are free.
pub open spec fn encode_from(src: Seq<u8>, pos: int, room: int) -> Encoded
    decreases src.len() - pos,
{
    if pos < 0 || pos >= src.len() || room < 5 {
        Encoded { out: Seq::empty(), pos }
    } else {
        let unit = step_at(src, pos);
        proof {
            lemma_step_advances(src, pos);
        }
        let rest = encode_from(src, pos + unit.plain_len(), room - unit.encoded_len());
        Encoded { out: unit.encoded() + rest.out, pos: rest.pos }
    }
}

/// The units of a block leave at least two bytes free, if there were two
/// to begin with, and never move the source backwards.
pub proof fn lemma_encode_fits(src: Seq<u8>, pos: int, room: int)
    requires
        0 <= pos,
    ensures
        encode_from(src, pos, room).pos >= pos,
        pos <= src.len() ==> encode_from(src, pos, room).pos <= src.len(),
        room >= 2 ==> encode_from(src, pos, room).out.len() + 2 <= room,
        0 <= room < 2 ==> encode_from(src, pos, room).out.len() == 0,
        encode_from(src, pos, room).pos < src.len() ==> room - encode_from(
            src,
            pos,
            room,
        ).out.len() < 5,
    decreases src.len() - pos,
{
    if !(pos < 0 || pos >= src.len() || room < 5) {
        let unit = step_at(src, pos);
        unit.lemma_lens();
        lemma_step_advances(src, pos);
        lemma_encode_fits(src, pos + unit.plain_len(), room - unit.encoded_len());
    }
}

/// The command that closes a block, padded with zeros to the end of the
/// block: as much of it as fits into `left` bytes.
pub open spec fn terminator(code: u8, left: int) -> Seq<u8> {
    if left >= 2 {
        seq![CMD_BYTE, code] + repeated(seq![0u8], (left - 2) as nat)
    } else {
        fitting(seq![CMD_BYTE, code], left)
    }
}

/// A terminator fills what is left of the block.
pub proof fn lemma_terminator_len(code: u8, left: int)
    requires
        0 <= left,
    ensures
        terminator(code, left).len() == left,
{
    if left >= 2 {
        lemma_repeated_len(seq![0u8], (left - 2) as nat);
        assert((left - 2) * 1 == left - 2) by (nonlinear_arith);
    }
}

/// The outcome of compressing into one block.
pub struct Compressed {
    /// The bytes written to the block.
    pub out: Seq<u8>,
    /// Where the source stands afterwards.
    pub pos: int,
    /// How compression ended.
    pub end: Result<End, CompressBlockError>,
}

/// Compress `src` from `pos` into a block with `room` bytes free, where
/// `next` is the block to continue in, if there is one.
pub open spec fn compress_from(src: Seq<u8>, pos: int, room: int, next: Option<u8>) -> Compressed {
    let units = encode_from(src, pos, room);
    let left = room - units.out.len();
    if units.pos >= src.len() {
        Compressed {
            out: units.out + terminator(EOF_BYTE, left),
            pos: units.pos,
            end: if left >= 2 {
                Ok(End::EndOfFile)
            } else {
                Err(CompressBlockError::Io(IoError::WriteZero))
            },
        }
    } else {
        match next {
            None => Compressed {
                out: units.out,
                pos: units.pos,
                end: Err(CompressBlockError::NoBlockLeft),
            },
            Some(block) => Compressed {
                out: units.out + terminator(block, left),
                pos: units.pos,
                end: if left >= 2 {
                    Ok(End::JumpToBlock(block))
                } else {
                    Err(CompressBlockError::Io(IoError::WriteZero))
                },
            },
        }
    }
}

impl Compression {
    /// The number of bytes this unit takes in a compressed stream.
    pub fn len(&self) -> (len: usize)
        ensures
            len == self.encoded_len(),
    {
        match self {
            Compression::RunLengthEncoding { .. } => 3,
            Compression::DefaultInstrument { .. } => 3,
            Compression::DefaultWave { .. } => 3,
            Compression::RleLiteral => 2,
            Compression::CmdLiteral => 2,
            Compression::Literal { .. } => 1,
        }
    }

    /// Write the bytes of this unit to `writer`.
    pub fn write(self, writer: &mut Writer) -> (r: Result<(), IoError>)
        requires
            old(writer).wf(),
        ensures
            old(writer).after_write(self.encoded(), final(writer)),
            r.is_ok() <==> self.encoded_len() <= old(writer).room(),
            r.is_err() ==> r == Err::<(), IoError>(IoError::WriteZero),
    {
        match self {
            Compression::RunLengthEncoding { value, count } => {
                let bytes: [u8; 3] = [RLE_BYTE, value, count];
                assert(bytes@ =~= self.encoded());
                writer.write_all(bytes.as_slice())
            },
            Compression::DefaultInstrument { count } => {
                let bytes: [u8; 3] = [CMD_BYTE, DEFAULT_INSTRUMENT_BYTE, count];
                assert(bytes@ =~= self.encoded());
                writer.write_all(bytes.as_slice())
            },
            Compression::DefaultWave { count } => {
                let bytes: [u8; 3] = [CMD_BYTE, DEFAULT_WAVE_BYTE, count];
                assert(bytes@ =~= self.encoded());
                writer.write_all(bytes.as_slice())
            },
            Compression::RleLiteral => {
                let bytes: [u8; 2] = [RLE_BYTE, RLE_BYTE];
                assert(bytes@ =~= self.encoded());
                writer.write_all(bytes.as_slice())
            },
            Compression::CmdLiteral => {
                let bytes: [u8; 2] = [CMD_BYTE, CMD_BYTE];
                assert(bytes@ =~= self.encoded());
                writer.write_all(bytes.as_slice())
            },
            Compression::Literal { value } => {
                let bytes: [u8; 1] = [value];
                assert(bytes@ =~= self.encoded());
                writer.write_all(bytes.as_slice())
            },
        }
    }
}

/// Whether the bytes at the reader's position start with `slice`. The
/// reader does not move.
pub fn matches_slice(reader: &Reader, slice: &[u8]) -> (found: bool)
    ensures
        found == starts_with_at(reader.data(), reader.offset(), slice@),
{
    reader.starts_with(slice)
}

/// Count the copies of `slice` at the reader's position, on from `init`
/// and up to 255, and move the reader past them.
pub fn count_matches(reader: &mut Reader, init: u8, slice: &[u8]) -> (count: u8)
    ensures
        final(reader).data() == old(reader).data(),
        count == count_from(old(reader).data(), old(reader).offset(), slice@, init),
        init <= count,
        final(reader).offset() == old(reader).offset() + (count - init) * slice@.len(),
{
    let ghost src = reader.data();
    let ghost start = reader.offset();
    let mut count: u8 = init;
    proof {
        assert((count - init) * slice@.len() == 0) by (nonlinear_arith)
            requires
                count == init,
        ;
    }
    loop
        invariant
            reader.data() == src,
            src == old(reader).data(),
            start == old(reader).offset(),
            init <= count,
            reader.offset() == start + (count - init) * slice@.len(),
            count_from(src, start, slice@, init) == count_from(
                src,
                reader.offset(),
                slice@,
                count,
            ),
        ensures
            reader.data() == src,
            init <= count,
            reader.offset() == start + (count - init) * slice@.len(),
            count == count_from(src, start, slice@, init),
        decreases 255 - count,
    {
        if count == u8::MAX || !reader.starts_with(slice) {
            break;
        }
        proof {
            assert((count + 1 - init) * slice@.len() == (count - init) * slice@.len()
                + slice@.len()) by (nonlinear_arith);
        }
        count = count + 1;
        reader.skip(slice.len());
    }
    count
}

/// Choose the next unit at the reader's position and move the reader past
/// the bytes it stands for.
pub fn compress_step(reader: &mut Reader) -> (r: Result<Compression, IoError>)
    ensures
        final(reader).data() == old(reader).data(),
        old(reader).offset() < old(reader).data().len() ==> r == Ok::<Compression, IoError>(
            step_at(old(reader).data(), old(reader).offset()),
        ) && final(reader).offset() == old(reader).offset() + step_at(
            old(reader).data(),
            old(reader).offset(),
        ).plain_len(),
        old(reader).offset() >= old(reader).data().len() ==> r == Err::<Compression, IoError>(
            IoError::UnexpectedEof,
        ) && final(reader).offset() == old(reader).data().len(),
{
    proof {
        reveal(step_at);
    }
    let instrument = default_instrument_bytes();
    let count = count_matches(reader, 0, instrument.as_slice());
    if count >= 1 {
        proof {
            assert(count * 16 == 16 * count) by (nonlinear_arith);
        }
        return Ok(Compression::DefaultInstrument { count });
    }
    let wave = default_wave_bytes();
    let count = count_matches(reader, 0, wave.as_slice());
    if count >= 1 {
        proof {
            assert(count * 16 == 16 * count) by (nonlinear_arith);
        }
        return Ok(Compression::DefaultWave { count });
    }
    let value = match read_byte(reader) {
        Err(e) => {
            return Err(e);
        },
        Ok(value) => value,
    };
    if value == CMD_BYTE {
        Ok(Compression::CmdLiteral)
    } else if value == RLE_BYTE {
        Ok(Compression::RleLiteral)
    } else {
        let pattern: [u8; 1] = [value];
        assert(pattern@ =~= seq![value]);
        let count = count_matches(reader, 1, pattern.as_slice());
        proof {
            assert((count - 1) * 1 == count - 1) by (nonlinear_arith);
        }
        if count >= 2 {
            Ok(Compression::RunLengthEncoding { value, count })
        } else {
            Ok(Compression::Literal { value })
        }
    }
}

/// Close the block: write the command with `code`, then zeros up to the
/// end of the block.
fn write_terminator(writer: &mut Writer, code: u8) -> (r: Result<(), IoError>)
    requires
        old(writer).wf(),
    ensures
        final(writer).wf(),
        final(writer).buffer() == overlay(
            old(writer).buffer(),
            old(writer).offset(),
            terminator(code, old(writer).room()),
        ),
        final(writer).offset() == old(writer).offset() + terminator(code, old(writer).room()).len(),
        r.is_ok() <==> old(writer).room() >= 2,
        r.is_err() ==> r == Err::<(), IoError>(IoError::WriteZero),
{
    proof {
        writer.lemma_wf();
    }
    let left = writer.len() - writer.position();
    let command: [u8; 2] = [CMD_BYTE, code];
    assert(command@ =~= seq![CMD_BYTE, code]);
    let ghost before = *writer;
    match writer.write_all(command.as_slice()) {
        Err(e) => Err(e),
        Ok(()) => {
            let r = write_repeated_byte(0, left - 2, writer);
            proof {
                let zeros = repeated(seq![0u8], (left - 2) as nat);
                lemma_repeated_len(seq![0u8], (left - 2) as nat);
                assert((left - 2) * 1 == left - 2) by (nonlinear_arith);
                assert(writer.buffer() =~= overlay(
                    before.buffer(),
                    before.offset(),
                    command@ + zeros,
                ));
            }
            r
        },
    }
}

/// Compress bytes from `reader` into `writer`, unit by unit, while the
/// source lasts and at least five bytes of the block are free.
#[verifier::rlimit(50)]
pub fn compress_units(reader: &mut Reader, writer: &mut Writer)
    requires
        old(writer).wf(),
    ensures
        final(reader).data() == old(reader).data(),
        final(writer).wf(),
        ({
            let units = encode_from(
                old(reader).data(),
                old(reader).offset(),
                old(writer).room(),
            );
            &&& final(reader).offset() == units.pos
            &&& final(writer).buffer() == overlay(
                old(writer).buffer(),
                old(writer).offset(),
                units.out,
            )
            &&& final(writer).offset() == old(writer).offset() + units.out.len()
        }),
{
    let ghost src = reader.data();
    let ghost from = reader.offset();
    let ghost room = writer.room();
    let ghost before = writer.buffer();
    let ghost start = writer.offset();
    let ghost mut done: Seq<u8> = Seq::empty();
    proof {
        writer.lemma_wf();
        assert(before =~= overlay(before, start, done));
    }
    loop
        invariant
            writer.wf(),
            reader.data() == src,
            src == old(reader).data(),
            from == old(reader).offset(),
            room == old(writer).room(),
            before == old(writer).buffer(),
            start == old(writer).offset(),
            0 <= start,
            0 <= room,
            start + room == before.len(),
            done.len() <= room,
            writer.offset() == start + done.len(),
            writer.buffer().len() == before.len(),
            writer.buffer() == overlay(before, start, done),
            encode_from(src, from, room).out == done + encode_from(
                src,
                reader.offset(),
                writer.room(),
            ).out,
            encode_from(src, from, room).pos == encode_from(
                src,
                reader.offset(),
                writer.room(),
            ).pos,
        decreases src.len() - reader.offset(),
    {
        let ghost pos = reader.offset();
        let ghost mid = *writer;
        let ghost here = encode_from(src, pos, mid.room());
        proof {
            writer.lemma_wf();
        }
        let left = writer.len() - writer.position();
        if reader.is_at_end() || left < 5 {
            proof {
                assert(done + here.out =~= done);
            }
            return ;
        }
        let unit = match compress_step(reader) {
            Ok(unit) => unit,
            Err(_) => unreached(),
        };
        proof {
            unit.lemma_lens();
            lemma_step_advances(src, pos);
        }
        let written = unit.write(writer);
        proof {
            assert(written.is_ok());
            assert(writer.buffer() =~= overlay(before, start, done + unit.encoded()));
            assert(done + here.out =~= (done + unit.encoded()) + encode_from(
                src,
                reader.offset(),
                writer.room(),
            ).out);
            done = done + unit.encoded();
        }
    }
}

/// Whether `r` and the streams afterwards are as the outcome `c` of
/// compressing into a block says.
pub open spec fn closed_as(
    c: Compressed,
    before: &Writer,
    after: &Writer,
    pos_after: int,
    r: Result<End, CompressBlockError>,
) -> bool {
    &&& r == c.end
    &&& pos_after == c.pos
    &&& after.wf()
    &&& after.buffer() == overlay(before.buffer(), before.offset(), c.out)
    &&& after.offset() == before.offset() + c.out.len()
}

/// Whether the units of a block leave bytes of the source over, so that
/// the block has to end in a jump.
pub open spec fn needs_next_block(src: Seq<u8>, pos: int, room: int) -> bool {
    encode_from(src, pos, room).pos < src.len()
}

/// Compress bytes from `reader` into one block, the rest of `writer`.
///
/// Units are written while the source lasts and at least five bytes of the
/// block are free. When the source is exhausted, the end-of-file command
/// closes the block and [`End::EndOfFile`] is returned. When the block is
/// full first, `next_block` is called for the index of the block to go on
/// in, a jump to it closes the block and [`End::JumpToBlock`] is returned;
/// without a next block this fails with
/// [`CompressBlockError::NoBlockLeft`]. A closed block is padded with zeros.
/// A block that starts with fewer than two bytes free cannot be closed.
pub fn compress_block<F: FnOnce() -> Option<u8>>(
    reader: &mut Reader,
    writer: &mut Writer,
    next_block: F,
) -> (r: Result<End, CompressBlockError>)
    requires
        old(writer).wf(),
        next_block.requires(()),
    ensures
        final(reader).data() == old(reader).data(),
        final(writer).wf(),
        !needs_next_block(old(reader).data(), old(reader).offset(), old(writer).room())
            ==> closed_as(
            compress_from(old(reader).data(), old(reader).offset(), old(writer).room(), None),
            old(writer),
            final(writer),
            final(reader).offset(),
            r,
        ),
        needs_next_block(old(reader).data(), old(reader).offset(), old(writer).room())
            ==> exists|next: Option<u8>|
            next_block.ensures((), next) && #[trigger] closed_as(
                compress_from(old(reader).data(), old(reader).offset(), old(writer).room(), next),
                old(writer),
                final(writer),
                final(reader).offset(),
                r,
            ),
{
    let ghost src = reader.data();
    let ghost pos = reader.offset();
    let ghost room = writer.room();
    let ghost before = *writer;
    let ghost units = encode_from(src, pos, room);
    proof {
        writer.lemma_wf();
        lemma_encode_fits(src, pos, room);
    }
    compress_units(reader, writer);
    let ghost mid = *writer;
    proof {
        writer.lemma_wf();
    }
    if reader.is_at_end() {
        let closed = write_terminator(writer, EOF_BYTE);
        proof {
            let tail = terminator(EOF_BYTE, mid.room());
            lemma_terminator_len(EOF_BYTE, mid.room());
            assert(writer.buffer() =~= overlay(before.buffer(), before.offset(), units.out + tail));
        }
        match closed {
            Ok(()) => Ok(End::EndOfFile),
            Err(e) => Err(CompressBlockError::Io(e)),
        }
    } else {
        let next = next_block();
        let r = match next {
            None => Err(CompressBlockError::NoBlockLeft),
            Some(index) => {
                let closed = write_terminator(writer, index);
                proof {
                    let tail = terminator(index, mid.room());
                    lemma_terminator_len(index, mid.room());
                    assert(writer.buffer() =~= overlay(
                        before.buffer(),
                        before.offset(),
                        units.out + tail,
                    ));
                }
                match closed {
                    Ok(()) => Ok(End::JumpToBlock(index)),
                    Err(e) => Err(CompressBlockError::Io(e)),
                }
            },
        };
        proof {
            assert(closed_as(
                compress_from(src, pos, room, next),
                &before,
                writer,
                reader.offset(),
                r,
            ));
        }
        r
    }
}

/// A block that does not need a next block is the same whatever the next
/// block would be.
pub proof fn lemma_next_block_unused(src: Seq<u8>, pos: int, room: int, next: Option<u8>)
    requires
        !needs_next_block(src, pos, room),
    ensures
        compress_from(src, pos, room, next) == compress_from(src, pos, room, None),
{
}

/// The blocks that `src` compresses to from `pos` on, when each block has
/// `block_len` bytes and the blocks to write to are `indices` from the one
/// at `from` on: each block but the last ends in a jump to the index that
/// follows its own.
pub open spec fn pack(src: Seq<u8>, pos: int, indices: Seq<u8>, from: int, block_len: int)
    -> Result<Seq<Seq<u8>>, CompressBlockError>
    decreases indices.len() - from,
{
    if from < 0 || from >= indices.len() {
        Err(CompressBlockError::NoBlockLeft)
    } else {
        let next = if from + 1 < indices.len() {
            Some(indices[from + 1])
        } else {
            None
        };
        let packed = compress_from(src, pos, block_len, next);
        match packed.end {
            Ok(End::EndOfFile) => Ok(seq![packed.out]),
            Ok(End::JumpToBlock(_)) => match pack(src, packed.pos, indices, from + 1, block_len) {
                Ok(rest) => Ok(seq![packed.out] + rest),
                Err(e) => Err(e),
            },
            Err(e) => Err(e),
        }
    }
}

/// Where the source stands after `pack`: at its end, or behind the bytes
/// that went into the last block written.
pub open spec fn pack_end(src: Seq<u8>, pos: int, indices: Seq<u8>, from: int, block_len: int)
    -> int
    decreases indices.len() - from,
{
    if from < 0 || from >= indices.len() {
        pos
    } else {
        let next = if from + 1 < indices.len() {
            Some(indices[from + 1])
        } else {
            None
        };
        let packed = compress_from(src, pos, block_len, next);
        match packed.end {
            Ok(End::JumpToBlock(_)) => pack_end(src, packed.pos, indices, from + 1, block_len),
            _ => packed.pos,
        }
    }
}

/// A block that was closed is full, and a block with room for the closing
/// command can be closed.
pub proof fn lemma_compress_from_full(src: Seq<u8>, pos: int, room: int, next: Option<u8>)
    requires
        0 <= pos,
        0 <= room,
    ensures
        compress_from(src, pos, room, next).end is Ok ==> compress_from(
            src,
            pos,
            room,
            next,
        ).out.len() == room,
        room >= 2 ==> compress_from(src, pos, room, next).end != Err::<End, CompressBlockError>(
            CompressBlockError::Io(IoError::WriteZero),
        ),
        compress_from(src, pos, room, next).end matches Err(e) ==> e == CompressBlockError::Io(
            IoError::WriteZero,
        ) || e == CompressBlockError::NoBlockLeft,
        compress_from(src, pos, room, next).pos >= pos,
        pos <= src.len() ==> compress_from(src, pos, room, next).pos <= src.len(),
{
    let units = encode_from(src, pos, room);
    lemma_encode_fits(src, pos, room);
    let left = room - units.out.len();
    match next {
        Some(block) => {
            lemma_terminator_len(block, left);
        },
        None => {},
    }
    lemma_terminator_len(EOF_BYTE, left);
}

/// The blocks that a source packs into are no more than the blocks given,
/// and each of them is full.
pub proof fn lemma_pack(src: Seq<u8>, pos: int, indices: Seq<u8>, from: int, block_len: int)
    requires
        0 <= pos,
        0 <= from,
        0 <= block_len,
    ensures
        pack(src, pos, indices, from, block_len) matches Ok(blocks) ==> 1 <= blocks.len()
            <= indices.len() - from && forall|j: int|
            0 <= j < blocks.len() ==> (#[trigger] blocks[j]).len() == block_len,
        block_len >= 2 ==> (pack(src, pos, indices, from, block_len) matches Err(e) ==> e
            == CompressBlockError::NoBlockLeft),
    decreases indices.len() - from,
{
    if from < indices.len() {
        let next = if from + 1 < indices.len() {
            Some(indices[from + 1])
        } else {
            None
        };
        let packed = compress_from(src, pos, block_len, next);
        lemma_compress_from_full(src, pos, block_len, next);
        match packed.end {
            Ok(End::JumpToBlock(_)) => {
                lemma_pack(src, packed.pos, indices, from + 1, block_len);
            },
            _ => {},
        }
    }
}

/// Compress all that is left in `reader` into blocks of `block_len` bytes,
/// one for each of `indices` in turn. Each block but the last ends in a
/// jump to the index that follows its own; the last ends the file.
///
/// Fails with [`CompressBlockError::NoBlockLeft`] when the indices run out
/// before the source does, and with an I/O error when `block_len` is too
/// small for a block to be closed.
#[verifier::rlimit(50)]
pub fn compress(reader: &mut Reader, indices: &[u8], block_len: usize) -> (r: Result<
    Vec<Vec<u8>>,
    CompressBlockError,
>)
    ensures
        final(reader).data() == old(reader).data(),
        match pack(old(reader).data(), old(reader).offset(), indices@, 0, block_len as int) {
            Err(e) => r == Err::<Vec<Vec<u8>>, CompressBlockError>(e),
            Ok(packed) => r.is_ok() && r.unwrap()@.len() == packed.len() && forall|j: int|
                0 <= j < packed.len() ==> (#[trigger] r.unwrap()@[j])@ == packed[j],
        },
        final(reader).offset() == pack_end(
            old(reader).data(),
            old(reader).offset(),
            indices@,
            0,
            block_len as int,
        ),
{
    let ghost src = reader.data();
    let ghost start = reader.offset();
    let mut blocks: Vec<Vec<u8>> = Vec::new();
    let ghost mut done: Seq<Seq<u8>> = Seq::empty();
    loop
        invariant
            reader.data() == src,
            src == old(reader).data(),
            start == old(reader).offset(),
            blocks@.len() <= indices@.len(),
            blocks@.len() == done.len(),
            forall|j: int| 0 <= j < blocks@.len() ==> (#[trigger] blocks@[j])@ == done[j],
            pack(src, start, indices@, 0, block_len as int) == match pack(
                src,
                reader.offset(),
                indices@,
                blocks@.len() as int,
                block_len as int,
            ) {
                Ok(rest) => Ok::<Seq<Seq<u8>>, CompressBlockError>(done + rest),
                Err(e) => Err::<Seq<Seq<u8>>, CompressBlockError>(e),
            },
            pack_end(src, start, indices@, 0, block_len as int) == pack_end(
                src,
                reader.offset(),
                indices@,
                blocks@.len() as int,
                block_len as int,
            ),
        decreases indices@.len() - blocks@.len(),
    {
        let used = blocks.len();
        if used >= indices.len() {
            return Err(CompressBlockError::NoBlockLeft);
        }
        let next = if used + 1 < indices.len() {
            Some(indices[used + 1])
        } else {
            None
        };
        let ghost pos = reader.offset();
        let mut writer = Writer::new(block_len);
        let pick = || -> (index: Option<u8>) ensures index == next { next };
        let end = compress_block(reader, &mut writer, pick);
        let block = writer.into_bytes();
        let ghost packed = compress_from(src, pos, block_len as int, next);
        proof {
            lemma_compress_from_full(src, pos, block_len as int, next);
            if !needs_next_block(src, pos, block_len as int) {
                lemma_next_block_unused(src, pos, block_len as int, next);
            }
        }
        match end {
            Err(e) => {
                return Err(e);
            },
            Ok(End::EndOfFile) => {
                proof {
                    assert(block@ =~= packed.out);
                    assert(done + seq![packed.out] =~= done.push(packed.out));
                }
                blocks.push(block);
                return Ok(blocks);
            },
            Ok(End::JumpToBlock(_)) => {
                proof {
                    assert(block@ =~= packed.out);
                    match pack(src, packed.pos, indices@, used + 1, block_len as int) {
                        Ok(rest) => {
                            assert(done + (seq![packed.out] + rest) =~= done.push(packed.out)
                                + rest);
                        },
                        Err(_) => {},
                    }
                    done = done.push(packed.out);
                }
                blocks.push(block);
            },
        }
    }
}

} // verus!
