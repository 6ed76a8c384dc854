//! Small stream helpers shared by both directions of the codec.

use crate::io::{fitting, lemma_repeated_len, overlay, repeated, IoError, Reader, Writer};
use vstd::prelude::*;

verus! {

/// Read one byte from `reader`.
pub fn read_byte(reader: &mut Reader) -> (r: Result<u8, IoError>)
    ensures
        final(reader).data() == old(reader).data(),
        old(reader).offset() < old(reader).data().len() ==> r == Ok::<u8, IoError>(
            old(reader).data()[old(reader).offset()],
        ) && final(reader).offset() == old(reader).offset() + 1,
        old(reader).offset() >= old(reader).data().len() ==> r == Err::<u8, IoError>(
            IoError::UnexpectedEof,
        ) && final(reader).offset() == old(reader).data().len(),
{
    reader.read_byte()
}

/// A whole number of copies of `pattern` is a prefix of any larger number
/// of copies.
pub proof fn lemma_repeated_prefix(pattern: Seq<u8>, few: nat, many: nat)
    requires
        few <= many,
    ensures
        repeated(pattern, few).len() <= repeated(pattern, many).len(),
        repeated(pattern, many).take(repeated(pattern, few).len() as int) == repeated(
            pattern,
            few,
        ),
    decreases many - few,
{
    if few == many {
        assert(repeated(pattern, many).take(repeated(pattern, few).len() as int) =~= repeated(
            pattern,
            few,
        ));
    } else {
        lemma_repeated_prefix(pattern, few, (many - 1) as nat);
        let shorter = repeated(pattern, (many - 1) as nat);
        assert(repeated(pattern, many) == shorter + pattern);
        assert((shorter + pattern).take(repeated(pattern, few).len() as int) =~= shorter.take(
            repeated(pattern, few).len() as int,
        ));
    }
}

/// Write `count` copies of `value` to `writer`.
pub fn write_repeated_byte(value: u8, count: usize, writer: &mut Writer) -> (r: Result<
    (),
    IoError,
>)
    requires
        old(writer).wf(),
    ensures
        old(writer).after_write(repeated(seq![value], count as nat), final(writer)),
        r.is_ok() <==> count <= old(writer).room(),
        r.is_err() ==> r == Err::<(), IoError>(IoError::WriteZero),
{
    let pattern: [u8; 1] = [value];
    assert(pattern@ =~= seq![value]);
    proof {
        assert(count * 1 == count) by (nonlinear_arith);
    }
    write_repeated_bytes(pattern.as_slice(), count, writer)
}

/// Write `count` copies of `bytes` to `writer`, stopping at the first copy
/// that does not fit.
pub fn write_repeated_bytes(bytes: &[u8], count: usize, writer: &mut Writer) -> (r: Result<
    (),
    IoError,
>)
    requires
        old(writer).wf(),
    ensures
        old(writer).after_write(repeated(bytes@, count as nat), final(writer)),
        r.is_ok() <==> count * bytes@.len() <= old(writer).room(),
        r.is_err() ==> r == Err::<(), IoError>(IoError::WriteZero),
{
    let ghost start = writer.offset();
    let ghost before = writer.buffer();
    let ghost room = writer.room();
    proof {
        writer.lemma_wf();
    }
    let mut i: usize = 0;
    assert(before =~= overlay(before, start, repeated(bytes@, 0)));
    while i < count
        invariant
            i <= count,
            writer.wf(),
            before == old(writer).buffer(),
            start == old(writer).offset(),
            room == old(writer).room(),
            0 <= start,
            start + room == before.len(),
            0 <= room,
            repeated(bytes@, i as nat).len() == i * bytes@.len(),
            i * bytes@.len() <= room,
            writer.buffer() == overlay(before, start, repeated(bytes@, i as nat)),
            writer.offset() == start + i * bytes@.len(),
        decreases count - i,
    {
        let ghost mid = *writer;
        let ghost done = repeated(bytes@, i as nat);
        let r = writer.write_all(bytes);
        proof {
            let kept = fitting(bytes@, mid.room());
            lemma_repeated_len(bytes@, (i + 1) as nat);
            lemma_repeated_len(bytes@, count as nat);
            lemma_repeated_prefix(bytes@, (i + 1) as nat, count as nat);
            assert((i + 1) * bytes@.len() == i * bytes@.len() + bytes@.len())
                by (nonlinear_arith);
            assert(writer.buffer() =~= overlay(before, start, done + kept));
        }
        if r.is_err() {
            proof {
                let kept = fitting(bytes@, mid.room());
                let all = repeated(bytes@, count as nat);
                let next = repeated(bytes@, (i + 1) as nat);
                assert(next == done + bytes@);
                assert(all.take(next.len() as int) == next);
                assert(all.len() >= next.len());
                assert(all.len() > room);
                assert(all.take(room) =~= done + kept) by {
                    assert(all.take(room) =~= next.take(room));
                }
                assert(count * bytes@.len() > room);
            }
            return r;
        }
        i = i + 1;
    }
    proof {
        lemma_repeated_len(bytes@, count as nat);
    }
    Ok(())
}

} // verus!
