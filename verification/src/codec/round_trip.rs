//! Why decompression undoes compression: each unit that the compressor
//! chooses is read back as the bytes it was chosen for.

use crate::codec::compress::{
    compress_from, count_from, encode_from, lemma_encode_fits, lemma_step_advances,
    lemma_terminator_len, step_at, terminator,
};
use crate::codec::decompress::{decode_from, parse_at, Decoded, Parsed};
use crate::codec::{
    Compression, End, CMD_BYTE, DEFAULT_INSTRUMENT_BYTE, DEFAULT_WAVE_BYTE, EOF_BYTE, RLE_BYTE,
};
use crate::io::{repeated, starts_with_at, IoError};
use crate::song::instrument::default_instrument;
use crate::song::wave::default_wave;
use vstd::prelude::*;

verus! {

/// One more copy of a pattern may as well be put in front.
pub proof fn lemma_repeated_front(pattern: Seq<u8>, count: nat)
    ensures
        repeated(pattern, count + 1) == pattern + repeated(pattern, count),
    decreases count,
{
    if count == 0 {
        assert(repeated(pattern, 1) =~= pattern + repeated(pattern, 0));
    } else {
        lemma_repeated_front(pattern, (count - 1) as nat);
        assert(repeated(pattern, count + 1) =~= pattern + repeated(pattern, count));
    }
}

/// Where the copies end that `count_from` counts.
pub open spec fn end_from(src: Seq<u8>, pos: int, pattern: Seq<u8>, count: u8) -> int
    decreases 255 - count,
{
    if count < 255 && starts_with_at(src, pos, pattern) {
        end_from(src, pos + pattern.len(), pattern, (count + 1) as u8)
    } else {
        pos
    }
}

/// The copies end as many pattern lengths on as copies were counted.
pub proof fn lemma_end_from(src: Seq<u8>, pos: int, pattern: Seq<u8>, count: u8)
    ensures
        end_from(src, pos, pattern, count) == pos + (count_from(src, pos, pattern, count) - count)
            * pattern.len(),
    decreases 255 - count,
{
    let total = count_from(src, pos, pattern, count) as int;
    let len = pattern.len() as int;
    if count < 255 && starts_with_at(src, pos, pattern) {
        lemma_end_from(src, pos + len, pattern, (count + 1) as u8);
        assert(len + (total - (count + 1)) * len == (total - count) * len) by (nonlinear_arith);
    } else {
        assert((total - count) * len == 0) by (nonlinear_arith)
            requires
                total == count,
        ;
    }
}

/// The copies that were counted are what the source holds there.
#[verifier::rlimit(50)]
pub proof fn lemma_count_from_plain(src: Seq<u8>, pos: int, pattern: Seq<u8>, count: u8)
    requires
        0 <= pos <= src.len(),
    ensures
        count <= count_from(src, pos, pattern, count),
        pos <= end_from(src, pos, pattern, count) <= src.len(),
        src.subrange(pos, end_from(src, pos, pattern, count)) == repeated(
            pattern,
            (count_from(src, pos, pattern, count) - count) as nat,
        ),
    decreases 255 - count,
{
    let total = count_from(src, pos, pattern, count);
    let end = end_from(src, pos, pattern, count);
    let len = pattern.len() as int;
    if count < 255 && starts_with_at(src, pos, pattern) {
        let next = (count + 1) as u8;
        lemma_count_from_plain(src, pos + len, pattern, next);
        let more = (total - next) as nat;
        let head = src.subrange(pos, pos + len);
        let tail = src.subrange(pos + len, end);
        assert(head == pattern);
        assert(tail == repeated(pattern, more));
        assert(repeated(pattern, more + 1) == pattern + repeated(pattern, more)) by {
            lemma_repeated_front(pattern, more);
        }
        assert(src.subrange(pos, end) == head + tail) by {
            lemma_subrange_split(src, pos, pos + len, end);
        }
        assert((total - count) as nat == more + 1);
    } else {
        assert(src.subrange(pos, pos) =~= Seq::<u8>::empty());
    }
}

/// A range of a sequence is its two halves, one after the other.
pub proof fn lemma_subrange_split(s: Seq<u8>, from: int, mid: int, to: int)
    requires
        0 <= from <= mid <= to <= s.len(),
    ensures
        s.subrange(from, to) == s.subrange(from, mid) + s.subrange(mid, to),
{
    assert(s.subrange(from, to) =~= s.subrange(from, mid) + s.subrange(mid, to));
}

/// The unit chosen at a position stands for the bytes of the source from
/// that position on.
#[verifier::rlimit(50)]
pub proof fn lemma_step_plain(src: Seq<u8>, pos: int)
    requires
        0 <= pos < src.len(),
    ensures
        pos + step_at(src, pos).plain_len() <= src.len(),
        step_at(src, pos).plain() == src.subrange(pos, pos + step_at(src, pos).plain_len()),
{
    reveal(step_at);
    let unit = step_at(src, pos);
    lemma_step_advances(src, pos);
    match unit {
        Compression::DefaultInstrument { count } => {
            let pattern = default_instrument();
            lemma_count_from_plain(src, pos, pattern, 0);
            lemma_end_from(src, pos, pattern, 0);
            assert(count * pattern.len() == 16 * count) by (nonlinear_arith)
                requires
                    pattern.len() == 16,
            ;
        },
        Compression::DefaultWave { count } => {
            let pattern = default_wave();
            lemma_count_from_plain(src, pos, pattern, 0);
            lemma_end_from(src, pos, pattern, 0);
            assert(count * pattern.len() == 16 * count) by (nonlinear_arith)
                requires
                    pattern.len() == 16,
            ;
        },
        Compression::RunLengthEncoding { value, count } => {
            let pattern = seq![value];
            lemma_count_from_plain(src, pos + 1, pattern, 1);
            lemma_end_from(src, pos + 1, pattern, 1);
            assert((count - 1) * pattern.len() == count - 1) by (nonlinear_arith)
                requires
                    pattern.len() == 1,
            ;
            lemma_repeated_front(pattern, (count - 1) as nat);
            assert(src.subrange(pos, pos + count) =~= pattern + src.subrange(
                pos + 1,
                pos + count,
            ));
        },
        Compression::RleLiteral => {
            assert(seq![RLE_BYTE] =~= src.subrange(pos, pos + 1));
        },
        Compression::CmdLiteral => {
            assert(seq![CMD_BYTE] =~= src.subrange(pos, pos + 1));
        },
        Compression::Literal { value } => {
            assert(seq![value] =~= src.subrange(pos, pos + 1));
        },
    }
}

/// Where the bytes of the unit chosen at a position stand in compressed
/// data, the decompressor reads that unit.
pub proof fn lemma_step_parses(src: Seq<u8>, pos: int, data: Seq<u8>, at: int)
    requires
        0 <= pos < src.len(),
        0 <= at,
        at + step_at(src, pos).encoded_len() <= data.len(),
        data.subrange(at, at + step_at(src, pos).encoded_len()) == step_at(src, pos).encoded(),
    ensures
        parse_at(data, at) == Parsed::Unit(step_at(src, pos)),
{
    reveal(step_at);
    let unit = step_at(src, pos);
    let bytes = data.subrange(at, at + unit.encoded_len());
    unit.lemma_lens();
    assert(bytes[0] == data[at]);
    if unit.encoded_len() >= 2 {
        assert(bytes[1] == data[at + 1]);
    }
    if unit.encoded_len() >= 3 {
        assert(bytes[2] == data[at + 2]);
    }
}

/// A unit takes at most twice as many bytes as it stands for.
pub proof fn lemma_step_ratio(src: Seq<u8>, pos: int)
    requires
        0 <= pos < src.len(),
    ensures
        step_at(src, pos).encoded_len() <= 2 * step_at(src, pos).plain_len(),
{
    reveal(step_at);
    lemma_step_advances(src, pos);
}

/// The units of a block take at most twice as many bytes as they stand
/// for.
pub proof fn lemma_encode_ratio(src: Seq<u8>, pos: int, room: int)
    requires
        0 <= pos,
    ensures
        encode_from(src, pos, room).out.len() <= 2 * (encode_from(src, pos, room).pos - pos),
    decreases src.len() - pos,
{
    if !(pos >= src.len() || room < 5) {
        let unit = step_at(src, pos);
        unit.lemma_lens();
        lemma_step_advances(src, pos);
        lemma_step_ratio(src, pos);
        lemma_encode_ratio(src, pos + unit.plain_len(), room - unit.encoded_len());
    }
}

/// How a block ends that is closed by the command with `code`.
pub open spec fn end_of(code: u8) -> End {
    if code == EOF_BYTE {
        End::EndOfFile
    } else {
        End::JumpToBlock(code)
    }
}

/// Whether `code` closes a block when it follows the command byte: it is
/// not the command byte itself nor one of the two pattern commands.
pub open spec fn closes_block(code: u8) -> bool {
    code != CMD_BYTE && code != DEFAULT_WAVE_BYTE && code != DEFAULT_INSTRUMENT_BYTE
}

/// Where two sequences stand one after the other in `data`, each of them
/// stands there by itself.
pub proof fn lemma_concat_within(data: Seq<u8>, at: int, first: Seq<u8>, second: Seq<u8>)
    requires
        0 <= at,
        at + first.len() + second.len() <= data.len(),
        data.subrange(at, at + first.len() + second.len()) == first + second,
    ensures
        data.subrange(at, at + first.len()) == first,
        data.subrange(at + first.len(), at + first.len() + second.len()) == second,
{
    let both = data.subrange(at, at + first.len() + second.len());
    assert(data.subrange(at, at + first.len()) =~= both.subrange(0, first.len() as int));
    assert(both.subrange(0, first.len() as int) =~= first);
    assert(data.subrange(at + first.len(), at + first.len() + second.len()) =~= both.subrange(
        first.len() as int,
        both.len() as int,
    ));
    assert(both.subrange(first.len() as int, both.len() as int) =~= second);
}

/// Decoding a unit that fits writes its bytes and goes on behind it.
pub proof fn lemma_decode_unit(data: Seq<u8>, at: int, room: int, unit: Compression)
    requires
        parse_at(data, at) == Parsed::Unit(unit),
        unit.plain_len() <= room,
    ensures
        decode_from(data, at, room) == (Decoded {
            out: unit.plain() + decode_from(
                data,
                at + unit.encoded_len(),
                room - unit.plain_len(),
            ).out,
            pos: decode_from(data, at + unit.encoded_len(), room - unit.plain_len()).pos,
            end: decode_from(data, at + unit.encoded_len(), room - unit.plain_len()).end,
        }),
{
}

/// Decoding a command that closes the block writes nothing and ends as
/// the command says.
pub proof fn lemma_decode_end(data: Seq<u8>, at: int, room: int, code: u8)
    requires
        0 <= at,
        at + 2 <= data.len(),
        data[at] == CMD_BYTE,
        data[at + 1] == code,
        closes_block(code),
    ensures
        decode_from(data, at, room) == (Decoded {
            out: Seq::empty(),
            pos: at + 2,
            end: Ok(end_of(code)),
        }),
{
}

/// Where the units of a block stand in compressed data, followed by a
/// command that closes the block, decompression gives back the bytes that
/// the units were chosen for, and ends as the command says.
#[verifier::rlimit(50)]
pub proof fn lemma_decode_units(
    src: Seq<u8>,
    pos: int,
    block_room: int,
    data: Seq<u8>,
    at: int,
    room: int,
    code: u8,
)
    requires
        0 <= pos <= src.len(),
        0 <= at,
        closes_block(code),
        at + encode_from(src, pos, block_room).out.len() + 2 <= data.len(),
        data.subrange(at, at + encode_from(src, pos, block_room).out.len()) == encode_from(
            src,
            pos,
            block_room,
        ).out,
        data[at + encode_from(src, pos, block_room).out.len()] == CMD_BYTE,
        data[at + encode_from(src, pos, block_room).out.len() + 1] == code,
        room >= encode_from(src, pos, block_room).pos - pos,
    ensures
        pos <= encode_from(src, pos, block_room).pos <= src.len(),
        decode_from(data, at, room) == (Decoded {
            out: src.subrange(pos, encode_from(src, pos, block_room).pos),
            pos: at + encode_from(src, pos, block_room).out.len() + 2,
            end: Ok(end_of(code)),
        }),
    decreases src.len() - pos,
{
    let units = encode_from(src, pos, block_room);
    lemma_encode_fits(src, pos, block_room);
    if pos >= src.len() || block_room < 5 {
        lemma_decode_end(data, at, room, code);
        assert(src.subrange(pos, pos) =~= Seq::<u8>::empty());
    } else {
        let unit = step_at(src, pos);
        let next = pos + unit.plain_len();
        let rest = encode_from(src, next, block_room - unit.encoded_len());
        assert(units.out == unit.encoded() + rest.out);
        assert(units.pos == rest.pos);
        unit.lemma_lens();
        lemma_step_advances(src, pos);
        lemma_step_plain(src, pos);
        lemma_encode_fits(src, next, block_room - unit.encoded_len());
        lemma_concat_within(data, at, unit.encoded(), rest.out);
        lemma_step_parses(src, pos, data, at);
        lemma_decode_units(
            src,
            next,
            block_room - unit.encoded_len(),
            data,
            at + unit.encoded_len(),
            room - unit.plain_len(),
            code,
        );
        lemma_decode_unit(data, at, room, unit);
        lemma_subrange_split(src, pos, next, units.pos);
    }
}

/// Where a block that the compressor closed stands in compressed data,
/// decompression gives back the bytes that were compressed into it, and
/// ends as the block does. The block that a jump names must be neither
/// the command byte nor one of the other commands.
#[verifier::rlimit(50)]
pub proof fn lemma_decode_block(
    src: Seq<u8>,
    pos: int,
    block_len: int,
    next: Option<u8>,
    data: Seq<u8>,
    at: int,
    room: int,
)
    requires
        0 <= pos <= src.len(),
        0 <= at,
        0 <= block_len,
        at + block_len <= data.len(),
        compress_from(src, pos, block_len, next).end is Ok,
        data.subrange(at, at + block_len) == compress_from(src, pos, block_len, next).out,
        next matches Some(code) ==> closes_block(code) && code != EOF_BYTE,
        room >= compress_from(src, pos, block_len, next).pos - pos,
    ensures
        pos <= compress_from(src, pos, block_len, next).pos <= src.len(),
        decode_from(data, at, room).out == src.subrange(
            pos,
            compress_from(src, pos, block_len, next).pos,
        ),
        decode_from(data, at, room).end == Ok::<End, IoError>(
            compress_from(src, pos, block_len, next).end.unwrap(),
        ),
{
    let packed = compress_from(src, pos, block_len, next);
    let units = encode_from(src, pos, block_len);
    let left = block_len - units.out.len();
    lemma_encode_fits(src, pos, block_len);
    let closing = if units.pos >= src.len() {
        EOF_BYTE
    } else {
        next.unwrap()
    };
    lemma_terminator_len(closing, left);
    let tail = terminator(closing, left);
    assert(packed.out == units.out + tail);
    assert(tail[0] == CMD_BYTE && tail[1] == closing);
    lemma_concat_within(data, at, units.out, tail);
    assert(data[at + units.out.len()] == CMD_BYTE) by {
        assert(data.subrange(at + units.out.len(), at + units.out.len() + tail.len())[0]
            == data[at + units.out.len()]);
    }
    assert(data[at + units.out.len() + 1] == closing) by {
        assert(data.subrange(at + units.out.len(), at + units.out.len() + tail.len())[1]
            == data[at + units.out.len() + 1]);
    }
    lemma_decode_units(src, pos, block_len, data, at, room, closing);
}

} // verus!
