//! The block compression scheme that the tracker stores its songs in.
//!
//! A compressed stream is a sequence of units. Most bytes stand for
//! themselves. Two bytes are reserved: one starts a run of a repeated byte,
//! the other starts a command, which repeats one of two fixed patterns, ends
//! the file, or sends the decoder on to another block.

pub mod compress;
pub mod decompress;
pub mod round_trip;
pub mod utils;

use crate::io::{lemma_repeated_len, repeated};
use crate::song::instrument::default_instrument;
use crate::song::wave::default_wave;
use vstd::prelude::*;

verus! {

/// Starts a run-length encoded run; doubled, it stands for itself.
pub const RLE_BYTE: u8 = 0xC0;

/// Starts a command; doubled, it stands for itself.
pub const CMD_BYTE: u8 = 0xE0;

/// The command that repeats the default wave frame.
pub const DEFAULT_WAVE_BYTE: u8 = 0xF0;

/// The command that repeats the default instrument.
pub const DEFAULT_INSTRUMENT_BYTE: u8 = 0xF1;

/// The command that ends the file.
pub const EOF_BYTE: u8 = 0xFF;

/// The length in bytes of a compression block.
pub const BLOCK_LEN: usize = 0x200;

/// How the compression or decompression of one block ended.
#[derive(Debug, Clone, Copy, PartialEq, Eq, Structural)]
pub enum End {
    /// A jump to the block with this index was written or read.
    JumpToBlock(u8),
    /// The end-of-file command was written or read.
    EndOfFile,
}

/// One unit of a compressed stream.
#[derive(Debug, Clone, Copy, PartialEq, Eq, Structural)]
pub enum Compression {
    /// `count` copies of `value`.
    RunLengthEncoding { value: u8, count: u8 },
    /// `count` copies of the default instrument.
    DefaultInstrument { count: u8 },
    /// `count` copies of the default wave frame.
    DefaultWave { count: u8 },
    /// The run-length byte itself.
    RleLiteral,
    /// The command byte itself.
    CmdLiteral,
    /// Any other byte.
    Literal { value: u8 },
}

impl Compression {
    /// The bytes that stand for this unit in a compressed stream.
    pub open spec fn encoded(self) -> Seq<u8> {
        match self {
            Compression::RunLengthEncoding { value, count } => seq![RLE_BYTE, value, count],
            Compression::DefaultInstrument { count } => seq![
                CMD_BYTE,
                DEFAULT_INSTRUMENT_BYTE,
                count,
            ],
            Compression::DefaultWave { count } => seq![CMD_BYTE, DEFAULT_WAVE_BYTE, count],
            Compression::RleLiteral => seq![RLE_BYTE, RLE_BYTE],
            Compression::CmdLiteral => seq![CMD_BYTE, CMD_BYTE],
            Compression::Literal { value } => seq![value],
        }
    }

    /// The number of bytes that stand for this unit in a compressed stream.
    pub open spec fn encoded_len(self) -> int {
        match self {
            Compression::RunLengthEncoding { .. } => 3,
            Compression::DefaultInstrument { .. } => 3,
            Compression::DefaultWave { .. } => 3,
            Compression::RleLiteral => 2,
            Compression::CmdLiteral => 2,
            Compression::Literal { .. } => 1,
        }
    }

    /// The uncompressed bytes that this unit stands for.
    pub open spec fn plain(self) -> Seq<u8> {
        match self {
            Compression::RunLengthEncoding { value, count } => repeated(seq![value], count as nat),
            Compression::DefaultInstrument { count } => repeated(
                default_instrument(),
                count as nat,
            ),
            Compression::DefaultWave { count } => repeated(default_wave(), count as nat),
            Compression::RleLiteral => seq![RLE_BYTE],
            Compression::CmdLiteral => seq![CMD_BYTE],
            Compression::Literal { value } => seq![value],
        }
    }

    /// The number of uncompressed bytes that this unit stands for.
    pub open spec fn plain_len(self) -> int {
        match self {
            Compression::RunLengthEncoding { count, .. } => count as int,
            Compression::DefaultInstrument { count } => 16 * count,
            Compression::DefaultWave { count } => 16 * count,
            Compression::RleLiteral => 1,
            Compression::CmdLiteral => 1,
            Compression::Literal { .. } => 1,
        }
    }

    /// The two length functions agree with the byte sequences.
    pub proof fn lemma_lens(self)
        ensures
            self.encoded().len() == self.encoded_len(),
            self.plain().len() == self.plain_len(),
            1 <= self.encoded_len() <= 3,
            0 <= self.plain_len(),
    {
        match self {
            Compression::RunLengthEncoding { value, count } => {
                lemma_repeated_len(seq![value], count as nat);
                assert(count * 1 == count) by (nonlinear_arith);
            },
            Compression::DefaultInstrument { count } => {
                lemma_repeated_len(default_instrument(), count as nat);
                assert(count * 16 == 16 * count) by (nonlinear_arith);
            },
            Compression::DefaultWave { count } => {
                lemma_repeated_len(default_wave(), count as nat);
                assert(count * 16 == 16 * count) by (nonlinear_arith);
            },
            _ => {},
        }
    }
}

} // verus!
