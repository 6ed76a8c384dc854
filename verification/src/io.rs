//! In-memory byte streams: a read cursor over a borrowed slice and a write
//! cursor over a buffer of fixed length.

use vstd::prelude::*;

verus! {

/// Why a read or write on an in-memory stream failed.
#[derive(Debug, Clone, Copy, PartialEq, Eq, Structural)]
pub enum IoError {
    /// The source ended before the requested bytes could be read.
    UnexpectedEof,
    /// The destination was full before all bytes could be written.
    WriteZero,
}

/// `buf` with `data` laid over it from index `pos` on.
pub open spec fn overlay(buf: Seq<u8>, pos: int, data: Seq<u8>) -> Seq<u8>
    recommends
        0 <= pos,
        pos + data.len() <= buf.len(),
{
    buf.subrange(0, pos) + data + buf.subrange(pos + data.len(), buf.len() as int)
}

/// The part of `data` that still fits when `room` bytes are free.
pub open spec fn fitting(data: Seq<u8>, room: int) -> Seq<u8>
    recommends
        0 <= room,
{
    if data.len() <= room {
        data
    } else {
        data.take(room)
    }
}

/// `count` copies of `pattern`, one after the other.
pub open spec fn repeated(pattern: Seq<u8>, count: nat) -> Seq<u8>
    decreases count,
{
    if count == 0 {
        Seq::empty()
    } else {
        repeated(pattern, (count - 1) as nat) + pattern
    }
}

/// The length of `repeated(pattern, count)`.
pub proof fn lemma_repeated_len(pattern: Seq<u8>, count: nat)
    ensures
        repeated(pattern, count).len() == count * pattern.len(),
    decreases count,
{
    if count > 0 {
        lemma_repeated_len(pattern, (count - 1) as nat);
        assert(count * pattern.len() == (count - 1) * pattern.len() + pattern.len())
            by (nonlinear_arith);
    } else {
        assert(count * pattern.len() == 0) by (nonlinear_arith)
            requires
                count == 0,
        ;
    }
}

/// A read cursor over a borrowed byte slice.
///
/// The position may lie beyond the end of the data; every read there fails.
pub struct Reader<'a> {
    bytes: &'a [u8],
    pos: usize,
}

impl<'a> Reader<'a> {
    /// All the bytes the reader runs over.
    pub closed spec fn data(&self) -> Seq<u8> {
        self.bytes@
    }

    /// The index of the next byte to read, as a natural number.
    pub closed spec fn index(&self) -> nat {
        self.pos as nat
    }

    /// The index of the next byte to read.
    pub open spec fn offset(&self) -> int {
        self.index() as int
    }

    /// The bytes not yet read.
    pub open spec fn rest(&self) -> Seq<u8> {
        if self.offset() <= self.data().len() {
            self.data().subrange(self.offset(), self.data().len() as int)
        } else {
            Seq::empty()
        }
    }

    /// A reader at the start of `bytes`.
    pub fn new(bytes: &'a [u8]) -> (reader: Self)
        ensures
            reader.data() == bytes@,
            reader.offset() == 0,
    {
        Reader { bytes, pos: 0 }
    }

    /// The index of the next byte to read.
    pub fn position(&self) -> (pos: usize)
        ensures
            pos == self.offset(),
    {
        self.pos
    }

    /// The number of bytes the reader runs over.
    pub fn len(&self) -> (len: usize)
        ensures
            len == self.data().len(),
    {
        self.bytes.len()
    }

    /// Whether no byte is left to read.
    pub fn is_at_end(&self) -> (at_end: bool)
        ensures
            at_end == (self.offset() >= self.data().len()),
    {
        self.pos >= self.bytes.len()
    }

    /// Move the cursor to `pos`, which may lie beyond the end.
    pub fn seek(&mut self, pos: usize)
        ensures
            final(self).data() == old(self).data(),
            final(self).offset() == pos,
    {
        self.pos = pos;
    }

    /// Read one byte; at the end of the data this fails and leaves the
    /// cursor at the end.
    pub fn read_byte(&mut self) -> (r: Result<u8, IoError>)
        ensures
            final(self).data() == old(self).data(),
            old(self).offset() < old(self).data().len() ==> r == Ok::<u8, IoError>(
                old(self).data()[old(self).offset()],
            ) && final(self).offset() == old(self).offset() + 1,
            old(self).offset() >= old(self).data().len() ==> r == Err::<u8, IoError>(
                IoError::UnexpectedEof,
            ) && final(self).offset() == old(self).data().len(),
    {
        if self.pos < self.bytes.len() {
            let byte = self.bytes[self.pos];
            self.pos = self.pos + 1;
            Ok(byte)
        } else {
            self.pos = self.bytes.len();
            Err(IoError::UnexpectedEof)
        }
    }

    /// Read exactly `count` bytes; if fewer are left this fails and leaves
    /// the cursor at the end.
    pub fn read_exact(&mut self, count: usize) -> (r: Result<Vec<u8>, IoError>)
        ensures
            final(self).data() == old(self).data(),
            old(self).offset() + count <= old(self).data().len() ==> r.is_ok()
                && r.unwrap()@ == old(self).data().subrange(
                old(self).offset(),
                old(self).offset() + count,
            ) && final(self).offset() == old(self).offset() + count,
            old(self).offset() + count > old(self).data().len() ==> r == Err::<Vec<u8>, IoError>(
                IoError::UnexpectedEof,
            ) && final(self).offset() == old(self).data().len(),
    {
        let len = self.bytes.len();
        if self.pos > len || count > len - self.pos {
            self.pos = len;
            return Err(IoError::UnexpectedEof);
        }
        let start = self.pos;
        let out = copy_range(self.bytes, start, start + count);
        self.pos = start + count;
        Ok(out)
    }

    /// Read everything that is left, which may be nothing.
    pub fn read_to_end(&mut self) -> (out: Vec<u8>)
        ensures
            final(self).data() == old(self).data(),
            out@ == old(self).rest(),
            final(self).offset() == if old(self).offset() <= old(self).data().len() {
                old(self).data().len() as int
            } else {
                old(self).offset()
            },
    {
        let len = self.bytes.len();
        if self.pos > len {
            return Vec::new();
        }
        let out = copy_range(self.bytes, self.pos, len);
        self.pos = len;
        out
    }

    /// Whether the bytes at the cursor start with `pattern`; the cursor
    /// does not move.
    pub fn starts_with(&self, pattern: &[u8]) -> (found: bool)
        ensures
            found == starts_with_at(self.data(), self.offset(), pattern@),
            found ==> self.offset() + pattern@.len() <= usize::MAX,
    {
        let len = self.bytes.len();
        let n = pattern.len();
        if self.pos > len || n > len - self.pos {
            return false;
        }
        let start = self.pos;
        let bytes = self.bytes;
        let mut i: usize = 0;
        while i < n
            invariant
                i <= n,
                n == pattern@.len(),
                len == bytes@.len(),
                bytes@ == self.bytes@,
                start == self.pos,
                start + n <= len,
                forall|j: int| 0 <= j < i ==> bytes@[start + j] == pattern@[j],
            decreases n - i,
        {
            if bytes[start + i] != pattern[i] {
                assert(bytes@.subrange(start as int, start + n)[i as int] == bytes@[start + i]);
                return false;
            }
            i = i + 1;
        }
        assert(bytes@.subrange(start as int, start + n) =~= pattern@);
        true
    }

    /// Move the cursor forward by `count` bytes.
    pub fn skip(&mut self, count: usize)
        requires
            old(self).offset() + count <= usize::MAX,
        ensures
            final(self).data() == old(self).data(),
            final(self).offset() == old(self).offset() + count,
    {
        self.pos = self.pos + count;
    }
}

/// Whether `data` holds `pattern` at index `pos`.
pub open spec fn starts_with_at(data: Seq<u8>, pos: int, pattern: Seq<u8>) -> bool {
    &&& 0 <= pos
    &&& pos + pattern.len() <= data.len()
    &&& data.subrange(pos, pos + pattern.len()) == pattern
}

/// A write cursor over a buffer whose length never changes.
pub struct Writer {
    buf: Vec<u8>,
    pos: usize,
}

impl Writer {
    /// The cursor lies within the buffer.
    pub closed spec fn wf(&self) -> bool {
        self.pos <= self.buf@.len()
    }

    /// The whole buffer, written or not.
    pub closed spec fn buffer(&self) -> Seq<u8> {
        self.buf@
    }

    /// The index at which the next byte is written, as a natural number.
    pub closed spec fn index(&self) -> nat {
        self.pos as nat
    }

    /// The index at which the next byte is written.
    pub open spec fn offset(&self) -> int {
        self.index() as int
    }

    /// How many bytes can still be written.
    pub open spec fn room(&self) -> int {
        self.buffer().len() - self.offset()
    }

    /// The state after writing `data`: as much of it as fits, from the
    /// cursor on.
    pub open spec fn after_write(&self, data: Seq<u8>, next: &Writer) -> bool {
        let kept = fitting(data, self.room());
        &&& next.wf()
        &&& next.buffer() == overlay(self.buffer(), self.offset(), kept)
        &&& next.offset() == self.offset() + kept.len()
    }

    /// Every well-formed writer has its cursor within the buffer.
    pub proof fn lemma_wf(&self)
        requires
            self.wf(),
        ensures
            0 <= self.offset() <= self.buffer().len(),
            0 <= self.room(),
    {
    }

    /// A writer at the start of a buffer of `len` zero bytes.
    pub fn new(len: usize) -> (writer: Self)
        ensures
            writer.wf(),
            writer.buffer() == Seq::new(len as nat, |i: int| 0u8),
            writer.offset() == 0,
    {
        let mut buf: Vec<u8> = Vec::new();
        let mut i: usize = 0;
        while i < len
            invariant
                i <= len,
                buf@.len() == i,
                forall|j: int| 0 <= j < i ==> buf@[j] == 0u8,
            decreases len - i,
        {
            buf.push(0u8);
            i = i + 1;
        }
        assert(buf@ =~= Seq::new(len as nat, |i: int| 0u8));
        Writer { buf, pos: 0 }
    }

    /// The index at which the next byte is written.
    pub fn position(&self) -> (pos: usize)
        ensures
            pos == self.offset(),
    {
        self.pos
    }

    /// The length of the buffer.
    pub fn len(&self) -> (len: usize)
        ensures
            len == self.buffer().len(),
    {
        self.buf.len()
    }

    /// The whole buffer, written or not.
    pub fn as_slice(&self) -> (bytes: &[u8])
        ensures
            bytes@ == self.buffer(),
    {
        self.buf.as_slice()
    }

    /// Give up the writer for its buffer.
    pub fn into_bytes(self) -> (bytes: Vec<u8>)
        ensures
            bytes@ == self.buffer(),
    {
        self.buf
    }

    /// Write one byte, or fail if the buffer is full.
    pub fn write_byte(&mut self, byte: u8) -> (r: Result<(), IoError>)
        requires
            old(self).wf(),
        ensures
            old(self).after_write(seq![byte], final(self)),
            r.is_ok() <==> old(self).room() >= 1,
            r.is_err() ==> r == Err::<(), IoError>(IoError::WriteZero),
    {
        if self.pos < self.buf.len() {
            self.buf.set(self.pos, byte);
            self.pos = self.pos + 1;
            assert(self.buf@ =~= overlay(old(self).buf@, old(self).pos as int, seq![byte]));
            Ok(())
        } else {
            assert(self.buf@ =~= overlay(old(self).buf@, old(self).pos as int, seq![byte].take(0)));
            Err(IoError::WriteZero)
        }
    }

    /// Write all of `data`. If it does not fit, the part that fits is
    /// written and the call fails.
    pub fn write_all(&mut self, data: &[u8]) -> (r: Result<(), IoError>)
        requires
            old(self).wf(),
        ensures
            old(self).after_write(data@, final(self)),
            r.is_ok() <==> data@.len() <= old(self).room(),
            r.is_err() ==> r == Err::<(), IoError>(IoError::WriteZero),
    {
        let room = self.buf.len() - self.pos;
        let n = if data.len() <= room {
            data.len()
        } else {
            room
        };
        let start = self.pos;
        let mut i: usize = 0;
        while i < n
            invariant
                i <= n,
                n <= data@.len(),
                start + n <= self.buf@.len() <= usize::MAX,
                self.pos == start,
                self.buf@.len() == old(self).buf@.len(),
                self.buf@ == overlay(old(self).buf@, start as int, data@.take(i as int)),
            decreases n - i,
        {
            self.buf.set(start + i, data[i]);
            i = i + 1;
            assert(self.buf@ =~= overlay(old(self).buf@, start as int, data@.take(i as int)));
        }
        self.pos = start + n;
        assert(data@.take(data@.len() as int) =~= data@);
        if n == data.len() {
            Ok(())
        } else {
            Err(IoError::WriteZero)
        }
    }
}

/// A copy of `bytes` from `start` up to `end`.
pub fn copy_range(bytes: &[u8], start: usize, end: usize) -> (copy: Vec<u8>)
    requires
        start <= end <= bytes@.len(),
    ensures
        copy@ == bytes@.subrange(start as int, end as int),
{
    let mut copy: Vec<u8> = Vec::new();
    let mut i: usize = start;
    while i < end
        invariant
            start <= i <= end <= bytes@.len(),
            copy@ == bytes@.subrange(start as int, i as int),
        decreases end - i,
    {
        copy.push(bytes[i]);
        i = i + 1;
        assert(copy@ =~= bytes@.subrange(start as int, i as int));
    }
    copy
}

/// Append `bytes` to `dest`.
pub fn append(dest: &mut Vec<u8>, bytes: &[u8])
    ensures
        final(dest)@ == old(dest)@ + bytes@,
{
    let mut i: usize = 0;
    while i < bytes.len()
        invariant
            i <= bytes@.len(),
            dest@ == old(dest)@ + bytes@.take(i as int),
        decreases bytes@.len() - i,
    {
        dest.push(bytes[i]);
        i = i + 1;
        assert(dest@ =~= old(dest)@ + bytes@.take(i as int));
    }
    assert(bytes@.take(bytes@.len() as int) =~= bytes@);
}

} // verus!
