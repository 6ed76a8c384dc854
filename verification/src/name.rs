//! A null-terminated, length-restricted string over a small subset of ASCII.

use vstd::prelude::*;
use vstd::string::StringSliceAdditionalSpecFns;

verus! {

/// The byte shown as a lightning bolt; the glyph depends on the ROM.
pub const LIGHTNING_BOLT_CHAR: u8 = 120;

/// Whether `byte` may stand in a name: `A` to `Z`, `0` to `9`, a space, or
/// the lightning bolt.
pub open spec fn is_allowed(byte: u8) -> bool {
    ||| 65 <= byte <= 90
    ||| 48 <= byte <= 57
    ||| byte == 32
    ||| byte == LIGHTNING_BOLT_CHAR
}

/// The index of the first zero byte in `bytes` at or after `from`, or the
/// length of `bytes` if there is none.
pub open spec fn first_zero_from(bytes: Seq<u8>, from: int) -> int
    decreases bytes.len() - from,
{
    if from < 0 || from >= bytes.len() {
        bytes.len() as int
    } else if bytes[from] == 0 {
        from
    } else {
        first_zero_from(bytes, from + 1)
    }
}

/// The number of bytes before the terminating zero.
pub open spec fn text_len(bytes: Seq<u8>) -> int {
    first_zero_from(bytes, 0)
}

/// The index of the first byte at or after `from` that is neither allowed
/// nor zero, if one stands before the first zero.
pub open spec fn first_invalid_from(bytes: Seq<u8>, from: int) -> Option<int>
    decreases bytes.len() - from,
{
    if from < 0 || from >= bytes.len() {
        None
    } else if is_allowed(bytes[from]) {
        first_invalid_from(bytes, from + 1)
    } else if bytes[from] == 0 {
        None
    } else {
        Some(from)
    }
}

/// `bytes` up to its first zero, filled up with zeros to `len` bytes.
pub open spec fn padded(bytes: Seq<u8>, len: nat) -> Seq<u8> {
    Seq::new(
        len,
        |i: int|
            if i < text_len(bytes) {
                bytes[i]
            } else {
                0u8
            },
    )
}

/// Where the first zero lies: within bounds, with no zero before it.
pub proof fn lemma_first_zero(bytes: Seq<u8>, from: int)
    requires
        0 <= from <= bytes.len(),
    ensures
        from <= first_zero_from(bytes, from) <= bytes.len(),
        forall|i: int| from <= i < first_zero_from(bytes, from) ==> bytes[i] != 0,
        first_zero_from(bytes, from) < bytes.len() ==> bytes[first_zero_from(bytes, from)] == 0,
    decreases bytes.len() - from,
{
    if from < bytes.len() && bytes[from] != 0 {
        lemma_first_zero(bytes, from + 1);
    }
}

/// Why bytes could not be made into a [`Name`].
#[derive(Debug, Clone, Copy, PartialEq, Eq, Structural)]
pub enum FromBytesError {
    /// There are more bytes than the name has room for.
    TooLong,
    /// A byte that may not stand in a name was found before the first zero.
    InvalidByte { byte: u8, index: usize },
}

/// A name of at most `N` bytes, stored with trailing zeros.
#[derive(Debug, Clone, Copy, PartialEq, Eq)]
pub struct Name<const N: usize> {
    bytes: [u8; N],
}

impl<const N: usize> Name<N> {
    /// All `N` bytes of the name, trailing zeros included.
    pub closed spec fn view(&self) -> Seq<u8> {
        self.bytes@
    }

    /// The bytes before the first zero.
    pub open spec fn text(&self) -> Seq<u8> {
        self@.take(text_len(self@))
    }

    /// The name has `N` bytes; those before the first zero are allowed in a
    /// name, and those after it are zero.
    pub open spec fn wf(&self) -> bool {
        &&& self@.len() == N
        &&& forall|i: int| 0 <= i < text_len(self@) ==> is_allowed(#[trigger] self@[i])
        &&& forall|i: int| text_len(self@) <= i < N ==> #[trigger] self@[i] == 0
    }

    /// Make a name from `bytes`, which end at their first zero.
    ///
    /// Fails if there are more than `N` bytes, or if a byte before the first
    /// zero may not stand in a name. What follows the first zero is not
    /// looked at.
    pub fn from_bytes(bytes: &[u8]) -> (r: Result<Self, FromBytesError>)
        ensures
            bytes@.len() > N ==> r == Err::<Self, FromBytesError>(FromBytesError::TooLong),
            bytes@.len() <= N ==> match first_invalid_from(bytes@, 0) {
                Some(index) => r == Err::<Self, FromBytesError>(
                    FromBytesError::InvalidByte { byte: bytes@[index], index: index as usize },
                ),
                None => r.is_ok() && r.unwrap().wf() && r.unwrap()@ == padded(bytes@, N as nat),
            },
    {
        if bytes.len() > N {
            return Err(FromBytesError::TooLong);
        }
        let mut dest = [0u8; N];
        let mut index: usize = 0;
        while index < bytes.len()
            invariant
                index <= bytes@.len() <= N,
                dest@.len() == N,
                forall|i: int| 0 <= i < index ==> is_allowed(bytes@[i]) && dest@[i] == bytes@[i],
                forall|i: int| index <= i < N ==> dest@[i] == 0,
                first_invalid_from(bytes@, 0) == first_invalid_from(bytes@, index as int),
                first_zero_from(bytes@, 0) == first_zero_from(bytes@, index as int),
            ensures
                index == bytes@.len() || (index < bytes@.len() && bytes@[index as int] == 0),
            decreases bytes@.len() - index,
        {
            let byte = bytes[index];
            if Self::is_byte_allowed(byte) {
                dest[index] = byte;
            } else if byte == 0 {
                break;
            } else {
                return Err(FromBytesError::InvalidByte { byte, index });
            }
            index = index + 1;
        }
        let name = Name { bytes: dest };
        proof {
            lemma_first_zero(bytes@, 0);
            assert(text_len(bytes@) == index);
            assert(name@ =~= padded(bytes@, N as nat));
            Self::lemma_padded_wf(bytes@);
        }
        Ok(name)
    }

    /// Padding bytes that hold no invalid byte gives a well-formed name.
    proof fn lemma_padded_wf(bytes: Seq<u8>)
        requires
            bytes.len() <= N,
            first_invalid_from(bytes, 0) is None,
        ensures
            text_len(padded(bytes, N as nat)) == text_len(bytes),
            forall|i: int|
                0 <= i < text_len(bytes) ==> is_allowed(#[trigger] padded(bytes, N as nat)[i]),
    {
        let p = padded(bytes, N as nat);
        lemma_first_zero(bytes, 0);
        lemma_first_zero(p, 0);
        Self::lemma_valid_prefix(bytes, 0);
        let k = text_len(bytes);
        if text_len(p) < k {
            assert(p[text_len(p)] == 0);
        } else if text_len(p) > k {
            assert(p[k] != 0);
        }
    }

    /// Without an invalid byte, every byte before the first zero is allowed.
    proof fn lemma_valid_prefix(bytes: Seq<u8>, from: int)
        requires
            0 <= from <= bytes.len(),
            first_invalid_from(bytes, from) is None,
        ensures
            forall|i: int| from <= i < first_zero_from(bytes, from) ==> is_allowed(bytes[i]),
        decreases bytes.len() - from,
    {
        if from < bytes.len() && bytes[from] != 0 {
            Self::lemma_valid_prefix(bytes, from + 1);
        }
    }

    /// Without an allowed byte missing before the first zero, there is no
    /// invalid byte.
    proof fn lemma_no_invalid(bytes: Seq<u8>, from: int)
        requires
            0 <= from <= bytes.len(),
            forall|i: int| from <= i < first_zero_from(bytes, from) ==> is_allowed(bytes[i]),
        ensures
            first_invalid_from(bytes, from) is None,
        decreases bytes.len() - from,
    {
        if from < bytes.len() && bytes[from] != 0 {
            lemma_first_zero(bytes, from + 1);
            assert(is_allowed(bytes[from]));
            Self::lemma_no_invalid(bytes, from + 1);
        }
    }

    /// The bytes of a well-formed name make the same name again.
    pub proof fn lemma_reads_back(&self)
        requires
            self.wf(),
        ensures
            first_invalid_from(self@, 0) is None,
            padded(self@, N as nat) == self@,
    {
        lemma_first_zero(self@, 0);
        Self::lemma_no_invalid(self@, 0);
        assert(padded(self@, N as nat) =~= self@);
    }

    /// All `N` bytes of the name, trailing zeros included.
    pub fn bytes(&self) -> (bytes: &[u8; N])
        ensures
            bytes@ == self@,
    {
        &self.bytes
    }

    /// The largest number of bytes the name can hold.
    pub fn capacity(&self) -> (capacity: usize)
        ensures
            capacity == N,
    {
        N
    }

    /// The number of bytes before the first zero, or `N` without a zero.
    pub fn len(&self) -> (len: usize)
        ensures
            len == text_len(self@),
            len <= N,
    {
        let mut index: usize = 0;
        while index < N
            invariant
                index <= N,
                self.bytes@.len() == N,
                first_zero_from(self.bytes@, 0) == first_zero_from(self.bytes@, index as int),
            decreases N - index,
        {
            if self.bytes[index] == 0 {
                return index;
            }
            index = index + 1;
        }
        index
    }

    /// Whether the name has no bytes before its first zero.
    pub fn is_empty(&self) -> (empty: bool)
        ensures
            empty == (text_len(self@) == 0),
    {
        self.len() == 0
    }

    /// The name as text: the bytes before the first zero, each of them one
    /// character.
    pub fn as_str(&self) -> (text: &str)
        requires
            self.wf(),
        ensures
            text@ == self.text().map_values(|byte: u8| byte as char),
    {
        let len = self.len();
        let bytes = self.bytes.as_slice();
        let used = &bytes[0..len];
        assert(used@ =~= self.text());
        ascii_str(used)
    }

    /// Make a name from `text`, as [`Name::from_bytes`] does from its
    /// bytes.
    pub fn from_str(text: &str) -> (r: Result<Self, FromBytesError>)
        ensures
            text.spec_bytes().len() > N ==> r == Err::<Self, FromBytesError>(
                FromBytesError::TooLong,
            ),
            text.spec_bytes().len() <= N ==> match first_invalid_from(text.spec_bytes(), 0) {
                Some(index) => r == Err::<Self, FromBytesError>(
                    FromBytesError::InvalidByte {
                        byte: text.spec_bytes()[index],
                        index: index as usize,
                    },
                ),
                None => r.is_ok() && r.unwrap().wf() && r.unwrap()@ == padded(
                    text.spec_bytes(),
                    N as nat,
                ),
            },
    {
        Self::from_bytes(text.as_bytes())
    }

    /// Whether `byte` may stand in a name.
    pub fn is_byte_allowed(byte: u8) -> (allowed: bool)
        ensures
            allowed == is_allowed(byte),
    {
        (65 <= byte && byte <= 90) || (48 <= byte && byte <= 57) || byte == 32 || byte
            == LIGHTNING_BOLT_CHAR
    }
}

/// Calls `core::str::from_utf8` on bytes that are all ASCII. Such bytes
/// are valid UTF-8, one character each, so the call succeeds and the text
/// has the bytes as its characters.
#[verifier::external_body]
fn ascii_str(bytes: &[u8]) -> (text: &str)
    requires
        forall|i: int| 0 <= i < bytes@.len() ==> bytes@[i] < 128,
    ensures
        text@ == bytes@.map_values(|byte: u8| byte as char),
{
    match core::str::from_utf8(bytes) {
        Ok(text) => text,
        Err(_) => "",
    }
}

impl<const N: usize> Default for Name<N> {
    /// The empty name: `N` zeros.
    fn default() -> (name: Self)
        ensures
            name.wf(),
            name@ == Seq::new(N as nat, |i: int| 0u8),
    {
        let bytes = [0u8; N];
        let name = Name { bytes };
        proof {
            assert(name@ =~= Seq::new(N as nat, |i: int| 0u8));
            lemma_first_zero(name@, 0);
            if text_len(name@) > 0 {
                assert(name@[0] != 0);
            }
        }
        name
    }
}

} // verus!
