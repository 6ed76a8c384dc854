//! Telling the versions of songs apart by a hash of what they decompress
//! to.

use crate::fs::File;
use crate::song::SongMemory;
use vstd::prelude::*;

verus! {

/// The SHA-256 digest of `bytes`, as the `sha2` crate computes it.
pub uninterp spec fn sha256_digest(bytes: Seq<u8>) -> Seq<u8>;

/// Calls `Digest::digest` of `sha2::Sha256` on `bytes`. The 32 bytes that
/// come back depend on `bytes` alone.
#[verifier::external_body]
fn sha256(bytes: &[u8]) -> (digest: [u8; 32])
    ensures
        digest@ == sha256_digest(bytes@),
{
    <sha2::Sha256 as sha2::Digest>::digest(bytes).into()
}

/// Where a version of a song was found.
#[derive(Debug, Clone, PartialEq, Eq)]
pub enum Source {
    /// In an exported song at `path`.
    LsdSng { path: String },
    /// In the slot `index` of the save image at `path`.
    Sav { path: String, index: usize },
}

/// One version of a song that was found.
#[derive(Debug, Clone, PartialEq, Eq)]
pub struct Instance {
    /// The version of the song.
    pub version: u8,
    /// The SHA-256 digest of the decompressed song.
    pub sha256: [u8; 32],
    /// Where the version was found.
    pub source: Source,
}

impl Instance {
    /// The version of a song whose decompressed bytes hash to `sha256`.
    pub fn new(version: u8, sha256: [u8; 32], source: Source) -> (instance: Self)
        ensures
            instance.version == version,
            instance.sha256 == sha256,
            instance.source == source,
    {
        Instance { version, sha256, source }
    }
}

/// The SHA-256 digest of the bytes of `song`.
pub fn song_digest(song: &SongMemory) -> (digest: [u8; 32])
    ensures
        digest@ == sha256_digest(song@),
{
    sha256(song.as_slice())
}

/// Decompress `file` and note its version and the digest of its song;
/// `None` if the file does not decompress.
pub fn file_to_instance<F: File>(file: &F, source: Source) -> (r: Option<Instance>)
    requires
        file.readable(),
    ensures
        match file.song() {
            Err(_) => r.is_none(),
            Ok(song) => r.is_some() && r.unwrap().version == file.version_field()
                && r.unwrap().sha256@ == sha256_digest(song) && r.unwrap().source == source,
        },
{
    let version = file.version();
    match file.decompress() {
        Err(_) => None,
        Ok(song) => Some(Instance::new(version, song_digest(&song), source)),
    }
}

/// The character that stands for `nibble` in lower-case hexadecimal.
pub open spec fn hex_char(nibble: u8) -> char
    recommends
        nibble < 16,
{
    if nibble < 10 {
        (0x30 + nibble) as char
    } else {
        (0x57 + nibble) as char
    }
}

/// `bytes` in lower-case hexadecimal, two characters to a byte.
pub open spec fn hex_of(bytes: Seq<u8>) -> Seq<char> {
    Seq::new(
        2 * bytes.len(),
        |i: int|
            if i % 2 == 0 {
                hex_char(bytes[i / 2] / 16)
            } else {
                hex_char(bytes[i / 2] % 16)
            },
    )
}

/// The character that stands for `nibble` in lower-case hexadecimal, as
/// text.
fn hex_digit(nibble: u8) -> (text: &'static str)
    requires
        nibble < 16,
    ensures
        text@ == seq![hex_char(nibble)],
{
    proof {
        reveal_strlit("0");
        reveal_strlit("1");
        reveal_strlit("2");
        reveal_strlit("3");
        reveal_strlit("4");
        reveal_strlit("5");
        reveal_strlit("6");
        reveal_strlit("7");
        reveal_strlit("8");
        reveal_strlit("9");
        reveal_strlit("a");
        reveal_strlit("b");
        reveal_strlit("c");
        reveal_strlit("d");
        reveal_strlit("e");
        reveal_strlit("f");
    }
    let text = if nibble == 0 {
        "0"
    } else if nibble == 1 {
        "1"
    } else if nibble == 2 {
        "2"
    } else if nibble == 3 {
        "3"
    } else if nibble == 4 {
        "4"
    } else if nibble == 5 {
        "5"
    } else if nibble == 6 {
        "6"
    } else if nibble == 7 {
        "7"
    } else if nibble == 8 {
        "8"
    } else if nibble == 9 {
        "9"
    } else if nibble == 10 {
        "a"
    } else if nibble == 11 {
        "b"
    } else if nibble == 12 {
        "c"
    } else if nibble == 13 {
        "d"
    } else if nibble == 14 {
        "e"
    } else {
        "f"
    };
    assert(text@ =~= seq![hex_char(nibble)]);
    text
}

/// A digest in lower-case hexadecimal.
pub fn bytes_to_string(sha: &[u8; 32]) -> (text: String)
    ensures
        text@ == hex_of(sha@),
{
    let mut text = String::new();
    let mut i: usize = 0;
    while i < 32
        invariant
            i <= 32,
            sha@.len() == 32,
            text@ == hex_of(sha@.take(i as int)),
        decreases 32 - i,
    {
        let byte = sha[i];
        let ghost before = text@;
        text.append(hex_digit(byte / 16));
        text.append(hex_digit(byte % 16));
        i = i + 1;
        assert(text@ =~= hex_of(sha@.take(i as int))) by {
            assert(text@ == before + seq![hex_char(byte / 16)] + seq![hex_char(byte % 16)]);
            assert(text@.len() == 2 * i);
            assert forall|k: int| 0 <= k < 2 * i implies text@[k] == hex_of(
                sha@.take(i as int),
            )[k] by {
                if k < 2 * (i - 1) {
                    assert(text@[k] == before[k]);
                    assert(sha@.take(i as int)[k / 2] == sha@.take(i - 1)[k / 2]);
                }
            }
        }
    }
    assert(sha@.take(32) =~= sha@);
    text
}

/// The number of leading bytes by which the digests are told apart when
/// listed: 0 without digests, else 1.
///
/// The prefixes of one byte are gone through first. The first of them has
/// not been seen before, so one byte is settled on at once.
pub fn find_min_len(digests: &Vec<[u8; 32]>) -> (len: usize)
    ensures
        len == if digests@.len() == 0 {
            0usize
        } else {
            1usize
        },
{
    let mut unique_length: usize = 0;
    let mut seen: Vec<Vec<u8>> = Vec::new();
    let mut i: usize = 0;
    while i < 32
        invariant_except_break
            i <= 32,
            unique_length == 0,
            seen@.len() == 0,
            i > 0 ==> digests@.len() == 0,
        ensures
            unique_length == if digests@.len() == 0 {
                0usize
            } else {
                1usize
            },
        decreases 32 - i,
    {
        let mut k: usize = 0;
        while k < digests.len()
            invariant
                k <= digests@.len(),
                i < 32,
                i > 0 ==> digests@.len() == 0,
                k == 0 ==> unique_length == 0 && seen@.len() == 0,
                k > 0 ==> unique_length == 1,
            decreases digests@.len() - k,
        {
            let prefix = prefix_of(&digests[k], i + 1);
            if !contains(&seen, &prefix) {
                seen.push(prefix);
                unique_length = i + 1;
            }
            k = k + 1;
        }
        if unique_length == i + 1 {
            break;
        }
        i = i + 1;
    }
    unique_length
}

/// The first `len` bytes of `digest`.
fn prefix_of(digest: &[u8; 32], len: usize) -> (prefix: Vec<u8>)
    requires
        len <= 32,
    ensures
        prefix@ == digest@.take(len as int),
{
    let mut prefix: Vec<u8> = Vec::new();
    let mut i: usize = 0;
    while i < len
        invariant
            i <= len <= 32,
            digest@.len() == 32,
            prefix@ == digest@.take(i as int),
        decreases len - i,
    {
        prefix.push(digest[i]);
        i = i + 1;
        assert(prefix@ =~= digest@.take(i as int));
    }
    prefix
}

/// Whether `prefix` is among `seen`.
fn contains(seen: &Vec<Vec<u8>>, prefix: &Vec<u8>) -> (found: bool)
    ensures
        found == exists|i: int| 0 <= i < seen@.len() && (#[trigger] seen@[i])@ == prefix@,
{
    let mut i: usize = 0;
    while i < seen.len()
        invariant
            i <= seen@.len(),
            forall|j: int| 0 <= j < i ==> (#[trigger] seen@[j])@ != prefix@,
        decreases seen@.len() - i,
    {
        if same_bytes(&seen[i], prefix) {
            return true;
        }
        i = i + 1;
    }
    false
}

/// Whether `a` and `b` hold the same bytes.
fn same_bytes(a: &Vec<u8>, b: &Vec<u8>) -> (same: bool)
    ensures
        same == (a@ == b@),
{
    if a.len() != b.len() {
        return false;
    }
    let mut i: usize = 0;
    while i < a.len()
        invariant
            i <= a@.len(),
            a@.len() == b@.len(),
            forall|j: int| 0 <= j < i ==> a@[j] == b@[j],
        decreases a@.len() - i,
    {
        if a[i] != b[i] {
            return false;
        }
        i = i + 1;
    }
    assert(a@ =~= b@);
    true
}

} // verus!
