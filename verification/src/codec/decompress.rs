//! Decompression: from a compressed stream back to plain bytes.

use crate::codec::utils::{read_byte, write_repeated_byte, write_repeated_bytes};
use crate::codec::{
    Compression, End, CMD_BYTE, DEFAULT_INSTRUMENT_BYTE, DEFAULT_WAVE_BYTE, EOF_BYTE, RLE_BYTE,
};
use crate::codec::BLOCK_LEN;
use crate::io::{fitting, overlay, IoError, Reader, Writer};
use crate::song::instrument::default_instrument_bytes;
use crate::song::song_memory::song_from_unpacked;
use crate::song::wave::default_wave_bytes;
use crate::song::{FromReaderError, SongMemory, Unpacked};
use vstd::prelude::*;

verus! {

/// What a command leaves the decoder to do.
#[derive(Debug, Clone, Copy, PartialEq, Eq, Structural)]
pub enum Continuation {
    /// Go on with the next unit.
    Continue,
    /// Go on at the start of the block with this index.
    JumpToBlock(u8),
    /// Stop: the file has ended.
    EndOfFile,
}

/// What stands at some position of a compressed stream.
pub enum Parsed {
    /// A unit that stands for plain bytes.
    Unit(Compression),
    /// A command that ends the block.
    End(End),
    /// The stream ends before the unit is complete.
    Truncated,
}

/// What follows a run-length byte, when its operands start at `pos`.
pub open spec fn parse_rle(src: Seq<u8>, pos: int) -> Parsed {
    if pos < 0 || pos >= src.len() {
        Parsed::Truncated
    } else if src[pos] == RLE_BYTE {
        Parsed::Unit(Compression::RleLiteral)
    } else if pos + 1 >= src.len() {
        Parsed::Truncated
    } else {
        Parsed::Unit(Compression::RunLengthEncoding { value: src[pos], count: src[pos + 1] })
    }
}

/// What follows a command byte, when its operands start at `pos`.
pub open spec fn parse_cmd(src: Seq<u8>, pos: int) -> Parsed {
    if pos < 0 || pos >= src.len() {
        Parsed::Truncated
    } else if src[pos] == CMD_BYTE {
        Parsed::Unit(Compression::CmdLiteral)
    } else if src[pos] == DEFAULT_WAVE_BYTE {
        if pos + 1 >= src.len() {
            Parsed::Truncated
        } else {
            Parsed::Unit(Compression::DefaultWave { count: src[pos + 1] })
        }
    } else if src[pos] == DEFAULT_INSTRUMENT_BYTE {
        if pos + 1 >= src.len() {
            Parsed::Truncated
        } else {
            Parsed::Unit(Compression::DefaultInstrument { count: src[pos + 1] })
        }
    } else if src[pos] == EOF_BYTE {
        Parsed::End(End::EndOfFile)
    } else {
        Parsed::End(End::JumpToBlock(src[pos]))
    }
}

/// What stands at `pos` in the compressed stream `src`.
pub open spec fn parse_at(src: Seq<u8>, pos: int) -> Parsed {
    if pos < 0 || pos >= src.len() {
        Parsed::Truncated
    } else if src[pos] == RLE_BYTE {
        parse_rle(src, pos + 1)
    } else if src[pos] == CMD_BYTE {
        parse_cmd(src, pos + 1)
    } else {
        Parsed::Unit(Compression::Literal { value: src[pos] })
    }
}

/// The outcome of decoding up to the end of a block.
pub struct Decoded {
    /// The plain bytes that were written.
    pub out: Seq<u8>,
    /// Where the reader stands afterwards.
    pub pos: int,
    /// How decoding ended.
    pub end: Result<End, IoError>,
}

/// Decode `src` from `pos` until a command ends the block, the stream runs
/// out, or more than `room` bytes would be written.
pub open spec fn decode_from(src: Seq<u8>, pos: int, room: int) -> Decoded
    decreases src.len() - pos,
{
    match parse_at(src, pos) {
        Parsed::Truncated => Decoded {
            out: Seq::empty(),
            pos: src.len() as int,
            end: Err(IoError::UnexpectedEof),
        },
        Parsed::End(end) => Decoded { out: Seq::empty(), pos: pos + 2, end: Ok(end) },
        Parsed::Unit(unit) => {
            if unit.plain_len() > room {
                Decoded {
                    out: fitting(unit.plain(), room),
                    pos: pos + unit.encoded_len(),
                    end: Err(IoError::WriteZero),
                }
            } else {
                let rest = decode_from(src, pos + unit.encoded_len(), room - unit.plain_len());
                Decoded { out: unit.plain() + rest.out, pos: rest.pos, end: rest.end }
            }
        },
    }
}

/// Decoding never writes more than there is room for.
pub proof fn lemma_decode_fits(src: Seq<u8>, pos: int, room: int)
    requires
        0 <= room,
    ensures
        decode_from(src, pos, room).out.len() <= room,
    decreases src.len() - pos,
{
    match parse_at(src, pos) {
        Parsed::Unit(unit) => {
            unit.lemma_lens();
            if unit.plain_len() <= room {
                lemma_decode_fits(src, pos + unit.encoded_len(), room - unit.plain_len());
            }
        },
        _ => {},
    }
}

/// What a step of the decoder does to its streams, given what it parsed.
pub open spec fn step_done(
    parsed: Parsed,
    operands_at: int,
    src_len: int,
    before: &Writer,
    after: &Writer,
    next_pos: int,
    r: Result<Continuation, IoError>,
) -> bool {
    match parsed {
        Parsed::Truncated => {
            &&& r == Err::<Continuation, IoError>(IoError::UnexpectedEof)
            &&& next_pos == src_len
            &&& before.after_write(Seq::empty(), after)
        },
        Parsed::End(End::EndOfFile) => {
            &&& r == Ok::<Continuation, IoError>(Continuation::EndOfFile)
            &&& next_pos == operands_at + 1
            &&& before.after_write(Seq::empty(), after)
        },
        Parsed::End(End::JumpToBlock(block)) => {
            &&& r == Ok::<Continuation, IoError>(Continuation::JumpToBlock(block))
            &&& next_pos == operands_at + 1
            &&& before.after_write(Seq::empty(), after)
        },
        Parsed::Unit(unit) => {
            &&& r == if unit.plain_len() <= before.room() {
                Ok::<Continuation, IoError>(Continuation::Continue)
            } else {
                Err::<Continuation, IoError>(IoError::WriteZero)
            }
            &&& next_pos == operands_at + unit.encoded_len() - 1
            &&& before.after_write(unit.plain(), after)
        },
    }
}

/// Decode what follows a run-length byte: the byte itself if it is doubled,
/// else a value and how many times to write it.
pub fn decompress_rle_byte(reader: &mut Reader, writer: &mut Writer) -> (r: Result<(), IoError>)
    requires
        old(writer).wf(),
    ensures
        final(reader).data() == old(reader).data(),
        step_done(
            parse_rle(old(reader).data(), old(reader).offset()),
            old(reader).offset(),
            old(reader).data().len() as int,
            old(writer),
            final(writer),
            final(reader).offset(),
            match r {
                Ok(()) => Ok(Continuation::Continue),
                Err(e) => Err(e),
            },
        ),
{
    proof {
        writer.lemma_wf();
        assert(overlay(writer.buffer(), writer.offset(), Seq::empty()) =~= writer.buffer());
    }
    let value = match read_byte(reader) {
        Err(e) => {
            return Err(e);
        },
        Ok(value) => value,
    };
    if value == RLE_BYTE {
        proof {
            Compression::RleLiteral.lemma_lens();
        }
        writer.write_byte(RLE_BYTE)
    } else {
        let count = match read_byte(reader) {
            Err(e) => {
                return Err(e);
            },
            Ok(count) => count,
        };
        proof {
            (Compression::RunLengthEncoding { value, count }).lemma_lens();
        }
        write_repeated_byte(value, count as usize, writer)
    }
}

/// Decode what follows a command byte: the byte itself if it is doubled, a
/// repeated default pattern, the end of the file, or a jump to a block.
pub fn decompress_cmd_byte(reader: &mut Reader, writer: &mut Writer) -> (r: Result<
    Continuation,
    IoError,
>)
    requires
        old(writer).wf(),
    ensures
        final(reader).data() == old(reader).data(),
        step_done(
            parse_cmd(old(reader).data(), old(reader).offset()),
            old(reader).offset(),
            old(reader).data().len() as int,
            old(writer),
            final(writer),
            final(reader).offset(),
            r,
        ),
{
    proof {
        writer.lemma_wf();
        assert(overlay(writer.buffer(), writer.offset(), Seq::empty()) =~= writer.buffer());
    }
    let command = match read_byte(reader) {
        Err(e) => {
            return Err(e);
        },
        Ok(command) => command,
    };
    if command == CMD_BYTE {
        proof {
            Compression::CmdLiteral.lemma_lens();
        }
        match writer.write_byte(CMD_BYTE) {
            Ok(()) => Ok(Continuation::Continue),
            Err(e) => Err(e),
        }
    } else if command == DEFAULT_WAVE_BYTE {
        let count = match read_byte(reader) {
            Err(e) => {
                return Err(e);
            },
            Ok(count) => count,
        };
        proof {
            (Compression::DefaultWave { count }).lemma_lens();
            assert(count * 16 == 16 * count) by (nonlinear_arith);
        }
        let wave = default_wave_bytes();
        match write_repeated_bytes(wave.as_slice(), count as usize, writer) {
            Ok(()) => Ok(Continuation::Continue),
            Err(e) => Err(e),
        }
    } else if command == DEFAULT_INSTRUMENT_BYTE {
        let count = match read_byte(reader) {
            Err(e) => {
                return Err(e);
            },
            Ok(count) => count,
        };
        proof {
            (Compression::DefaultInstrument { count }).lemma_lens();
            assert(count * 16 == 16 * count) by (nonlinear_arith);
        }
        let instrument = default_instrument_bytes();
        match write_repeated_bytes(instrument.as_slice(), count as usize, writer) {
            Ok(()) => Ok(Continuation::Continue),
            Err(e) => Err(e),
        }
    } else if command == EOF_BYTE {
        Ok(Continuation::EndOfFile)
    } else {
        Ok(Continuation::JumpToBlock(command))
    }
}

/// Decompress from `reader` into `writer` until a command ends the block.
///
/// Returns [`End::EndOfFile`] when the end-of-file command was read and
/// [`End::JumpToBlock`] when a jump was read; the caller then moves the
/// reader to that block and calls again. The writer keeps its place. Fails
/// when the stream ends inside a unit or the writer is full; what fitted
/// has then been written.
#[verifier::rlimit(50)]
pub fn decompress_block(reader: &mut Reader, writer: &mut Writer) -> (r: Result<End, IoError>)
    requires
        old(writer).wf(),
    ensures
        final(reader).data() == old(reader).data(),
        final(writer).wf(),
        ({
            let d = decode_from(old(reader).data(), old(reader).offset(), old(writer).room());
            &&& r == d.end
            &&& final(reader).offset() == d.pos
            &&& final(writer).buffer() == overlay(
                old(writer).buffer(),
                old(writer).offset(),
                d.out,
            )
            &&& final(writer).offset() == old(writer).offset() + d.out.len()
        }),
{
    let ghost src = reader.data();
    let ghost goal = decode_from(src, reader.offset(), writer.room());
    let ghost before = writer.buffer();
    let ghost start = writer.offset();
    let ghost mut done: Seq<u8> = Seq::empty();
    proof {
        writer.lemma_wf();
        assert(before =~= overlay(before, start, done));
    }
    loop
        invariant
            writer.wf(),
            reader.data() == src,
            src == old(reader).data(),
            before == old(writer).buffer(),
            start == old(writer).offset(),
            goal == decode_from(src, old(reader).offset(), old(writer).room()),
            0 <= start,
            start + done.len() == writer.offset(),
            writer.buffer().len() == before.len(),
            writer.buffer() == overlay(before, start, done),
            goal.out == done + decode_from(src, reader.offset(), writer.room()).out,
            goal.pos == decode_from(src, reader.offset(), writer.room()).pos,
            goal.end == decode_from(src, reader.offset(), writer.room()).end,
        decreases src.len() - reader.offset(),
    {
        let ghost pos = reader.offset();
        let ghost mid = *writer;
        let ghost here = decode_from(src, pos, mid.room());
        proof {
            writer.lemma_wf();
            assert(overlay(mid.buffer(), mid.offset(), Seq::empty()) =~= mid.buffer());
        }
        let byte = match read_byte(reader) {
            Err(e) => {
                proof {
                    assert(done + here.out =~= done);
                }
                return Err(e);
            },
            Ok(byte) => byte,
        };
        let step: Result<Continuation, IoError> = if byte == RLE_BYTE {
            match decompress_rle_byte(reader, writer) {
                Ok(()) => Ok(Continuation::Continue),
                Err(e) => Err(e),
            }
        } else if byte == CMD_BYTE {
            decompress_cmd_byte(reader, writer)
        } else {
            proof {
                (Compression::Literal { value: byte }).lemma_lens();
            }
            match writer.write_byte(byte) {
                Ok(()) => Ok(Continuation::Continue),
                Err(e) => Err(e),
            }
        };
        proof {
            let parsed = parse_at(src, pos);
            assert(step_done(
                parsed,
                pos + 1,
                src.len() as int,
                &mid,
                writer,
                reader.offset(),
                step,
            ));
            match parsed {
                Parsed::Unit(unit) => {
                    unit.lemma_lens();
                    let kept = fitting(unit.plain(), mid.room());
                    assert(writer.buffer() =~= overlay(before, start, done + kept));
                    if unit.plain_len() <= mid.room() {
                        assert(done + here.out =~= (done + kept) + decode_from(
                            src,
                            reader.offset(),
                            writer.room(),
                        ).out);
                    } else {
                        assert(done + here.out =~= done + kept);
                    }
                    done = done + kept;
                },
                _ => {
                    assert(done + here.out =~= done);
                },
            }
        }
        match step {
            Err(e) => {
                return Err(e);
            },
            Ok(Continuation::Continue) => {},
            Ok(Continuation::JumpToBlock(block)) => {
                return Ok(End::JumpToBlock(block));
            },
            Ok(Continuation::EndOfFile) => {
                return Ok(End::EndOfFile);
            },
        }
    }
}

/// How many jumps in a row may write nothing. With more, some block has
/// been entered twice with nothing written in between, and decompression
/// would never end.
pub const IDLE_JUMPS: usize = 256;

/// Decompress `data` from `pos` on, following each jump to the start of
/// the block it names, where block 0 starts at `base`; with `room` bytes
/// of output left and `idle` more jumps allowed before something is
/// written.
pub open spec fn unpack_chain(data: Seq<u8>, base: int, pos: int, room: int, idle: nat) -> Unpacked
    decreases room, idle,
    when 0 <= room
{
    let d = decode_from(data, pos, room);
    match d.end {
        Ok(End::EndOfFile) => Unpacked { out: d.out, error: None },
        Ok(End::JumpToBlock(block)) => {
            if d.out.len() > 0 {
                proof {
                    lemma_decode_fits(data, pos, room);
                }
                let rest = unpack_chain(
                    data,
                    base,
                    base + BLOCK_LEN * block,
                    room - d.out.len(),
                    IDLE_JUMPS as nat,
                );
                Unpacked { out: d.out + rest.out, error: rest.error }
            } else if idle == 0 {
                Unpacked { out: d.out, error: Some(FromReaderError::EndlessJumps) }
            } else {
                unpack_chain(data, base, base + BLOCK_LEN * block, room, (idle - 1) as nat)
            }
        },
        Err(e) => Unpacked { out: d.out, error: Some(FromReaderError::Read(e)) },
    }
}

/// Where the reader stands after `unpack_chain`: behind the command that
/// ended the file, or where decompression failed.
pub open spec fn chain_end(data: Seq<u8>, base: int, pos: int, room: int, idle: nat) -> int
    decreases room, idle,
    when 0 <= room
{
    let d = decode_from(data, pos, room);
    match d.end {
        Ok(End::JumpToBlock(block)) => {
            if d.out.len() > 0 {
                proof {
                    lemma_decode_fits(data, pos, room);
                }
                chain_end(
                    data,
                    base,
                    base + BLOCK_LEN * block,
                    room - d.out.len(),
                    IDLE_JUMPS as nat,
                )
            } else if idle == 0 {
                d.pos
            } else {
                chain_end(data, base, base + BLOCK_LEN * block, room, (idle - 1) as nat)
            }
        },
        _ => d.pos,
    }
}

/// Whatever a chain of blocks unpacks to fits into the room given.
pub proof fn lemma_unpack_chain_fits(data: Seq<u8>, base: int, pos: int, room: int, idle: nat)
    requires
        0 <= room,
    ensures
        unpack_chain(data, base, pos, room, idle).out.len() <= room,
    decreases room, idle,
{
    let d = decode_from(data, pos, room);
    lemma_decode_fits(data, pos, room);
    match d.end {
        Ok(End::JumpToBlock(block)) => {
            if d.out.len() > 0 {
                lemma_unpack_chain_fits(
                    data,
                    base,
                    base + BLOCK_LEN * block,
                    room - d.out.len(),
                    IDLE_JUMPS as nat,
                );
            } else if idle > 0 {
                lemma_unpack_chain_fits(
                    data,
                    base,
                    base + BLOCK_LEN * block,
                    room,
                    (idle - 1) as nat,
                );
            }
        },
        _ => {},
    }
}

/// Decompress from `reader` into `writer` up to the end of the file,
/// moving the reader to the block named by each jump on the way. Block 0
/// starts at `blocks_offset` in the reader's data.
///
/// Fails when the data ends inside a unit, when the writer is full, and
/// when more than [`IDLE_JUMPS`] jumps in a row wrote nothing.
#[verifier::rlimit(50)]
pub fn decompress_until_eof(reader: &mut Reader, writer: &mut Writer, blocks_offset: usize) -> (r:
    Result<(), FromReaderError>)
    requires
        old(writer).wf(),
        blocks_offset <= usize::MAX - 0x20000,
    ensures
        final(reader).data() == old(reader).data(),
        final(writer).wf(),
        ({
            let unpacked = unpack_chain(
                old(reader).data(),
                blocks_offset as int,
                old(reader).offset(),
                old(writer).room(),
                IDLE_JUMPS as nat,
            );
            &&& r == match unpacked.error {
                None => Ok::<(), FromReaderError>(()),
                Some(e) => Err::<(), FromReaderError>(e),
            }
            &&& final(writer).buffer() == overlay(
                old(writer).buffer(),
                old(writer).offset(),
                unpacked.out,
            )
            &&& final(writer).offset() == old(writer).offset() + unpacked.out.len()
        }),
        final(reader).offset() == chain_end(
            old(reader).data(),
            blocks_offset as int,
            old(reader).offset(),
            old(writer).room(),
            IDLE_JUMPS as nat,
        ),
{
    let mut idle: usize = IDLE_JUMPS;
    let ghost data = reader.data();
    let ghost base = blocks_offset as int;
    let ghost before = writer.buffer();
    let ghost start = writer.offset();
    let ghost mut done: Seq<u8> = Seq::empty();
    let ghost goal = unpack_chain(data, base, reader.offset(), writer.room(), IDLE_JUMPS as nat);
    proof {
        writer.lemma_wf();
        assert(before =~= overlay(before, start, done));
    }
    loop
        invariant
            data == old(reader).data(),
            reader.data() == data,
            base == blocks_offset,
            blocks_offset <= usize::MAX - 0x20000,
            before == old(writer).buffer(),
            start == old(writer).offset(),
            writer.wf(),
            idle <= IDLE_JUMPS,
            writer.buffer().len() == before.len(),
            writer.buffer() == overlay(before, start, done),
            writer.offset() == start + done.len(),
            goal == unpack_chain(
                data,
                base,
                old(reader).offset(),
                old(writer).room(),
                IDLE_JUMPS as nat,
            ),
            goal.out == done + unpack_chain(
                data,
                base,
                reader.offset(),
                writer.room(),
                idle as nat,
            ).out,
            goal.error == unpack_chain(
                data,
                base,
                reader.offset(),
                writer.room(),
                idle as nat,
            ).error,
            chain_end(data, base, old(reader).offset(), old(writer).room(), IDLE_JUMPS as nat)
                == chain_end(data, base, reader.offset(), writer.room(), idle as nat),
        decreases writer.room(), idle,
    {
        let ghost mid = *writer;
        let ghost pos = reader.offset();
        let ghost d = decode_from(data, pos, mid.room());
        proof {
            writer.lemma_wf();
            lemma_decode_fits(data, pos, mid.room());
        }
        let written = writer.position();
        let end = decompress_block(reader, writer);
        proof {
            assert(writer.buffer() =~= overlay(before, start, done + d.out));
        }
        match end {
            Err(e) => {
                return Err(FromReaderError::Read(e));
            },
            Ok(End::EndOfFile) => {
                return Ok(());
            },
            Ok(End::JumpToBlock(next)) => {
                if writer.position() == written {
                    if idle == 0 {
                        return Err(FromReaderError::EndlessJumps);
                    }
                    proof {
                        assert(done + d.out =~= done);
                    }
                    idle = idle - 1;
                } else {
                    proof {
                        let rest = unpack_chain(
                            data,
                            base,
                            base + BLOCK_LEN * next,
                            mid.room() - d.out.len(),
                            IDLE_JUMPS as nat,
                        );
                        assert(done + (d.out + rest.out) =~= (done + d.out) + rest.out);
                        done = done + d.out;
                    }
                    idle = IDLE_JUMPS;
                }
                reader.seek(blocks_offset + BLOCK_LEN * (next as usize));
            },
        }
    }
}

/// Decompress one song from `reader`, following jumps from block to block
/// up to the end of the file. Block 0 starts at `blocks_offset` in the
/// reader's data.
///
/// Fails when the data ends inside a unit, jumps without end, writes more
/// or less than one song, or does not give initialised song memory.
pub fn decompress(reader: &mut Reader, blocks_offset: usize) -> (r: Result<
    SongMemory,
    FromReaderError,
>)
    requires
        blocks_offset <= usize::MAX - 0x20000,
    ensures
        final(reader).data() == old(reader).data(),
        match song_from_unpacked(
            unpack_chain(
                old(reader).data(),
                blocks_offset as int,
                old(reader).offset(),
                SongMemory::LEN as int,
                IDLE_JUMPS as nat,
            ),
        ) {
            Ok(song) => r.is_ok() && r.unwrap()@ == song && r.unwrap().wf(),
            Err(e) => r == Err::<SongMemory, FromReaderError>(e),
        },
        final(reader).offset() == chain_end(
            old(reader).data(),
            blocks_offset as int,
            old(reader).offset(),
            SongMemory::LEN as int,
            IDLE_JUMPS as nat,
        ),
{
    let mut writer = Writer::new(SongMemory::LEN);
    let ghost unpacked = unpack_chain(
        reader.data(),
        blocks_offset as int,
        reader.offset(),
        SongMemory::LEN as int,
        IDLE_JUMPS as nat,
    );
    proof {
        lemma_unpack_chain_fits(
            reader.data(),
            blocks_offset as int,
            reader.offset(),
            SongMemory::LEN as int,
            IDLE_JUMPS as nat,
        );
    }
    match decompress_until_eof(reader, &mut writer, blocks_offset) {
        Err(e) => Err(e),
        Ok(()) => {
            assert(writer.buffer().take(writer.offset()) =~= unpacked.out);
            SongMemory::from_writer(writer)
        },
    }
}

} // verus!
