//! Sample kits: one ROM bank that holds the samples of a drum kit, with
//! their names and a table of where each of them starts and ends.

use crate::io::{append, copy_range, Reader};
use vstd::prelude::*;
use vstd::string::StringSliceAdditionalSpecFns;
use vstd::utf8::{decode_utf8, encode_utf8, valid_utf8};

verus! {

/// The length in bytes of a bank.
pub const BANK_SIZE: usize = 0x4000;

/// The highest offset within the bank at which a sample may end.
pub const MAX_SAMPLE_SPACE_PER_BANK: usize = 0x3FA0;

/// The largest number of samples in a bank.
pub const MAX_SAMPLES_PER_BANK: usize = 15;

/// Where the names of the samples start.
pub const SAMPLE_NAME_OFFSET: usize = 0x22;

/// The length in bytes of the name of a sample.
pub const SAMPLE_NAME_LENGTH: usize = 3;

/// Where the name of the kit starts.
pub const KIT_NAME_OFFSET: usize = 0x52;

/// The length in bytes of the name of a kit.
pub const KIT_NAME_LENGTH: usize = 6;

/// Where the version of the kit stands.
pub const KIT_VERSION_OFFSET: usize = 0x5F;

/// Where the two bytes of the force-loop flags start.
pub const FORCE_LOOP_OFFSET: usize = 0x5C;

/// Where the data of the first sample starts.
pub const SAMPLE_DATA_OFFSET: usize = 0x60;

/// Why bytes could not be read as a kit.
#[derive(Debug, Clone, Copy, PartialEq, Eq, Structural)]
pub enum KitError {
    /// The number of bytes is not that of a bank.
    InvalidSize { len: usize },
    /// The first two bytes are not those of a kit.
    InvalidHeader { first: u8, second: u8 },
    /// The name of the kit is not text.
    NameInvalid,
    /// The name of the sample on `track` is not text.
    SampleNameInvalid { track: usize },
    /// The sample on `track` starts or ends before the bank does.
    SampleOutsideBank { track: usize },
    /// The sample on `track` ends before it starts.
    SampleEndsBeforeStart { track: usize, start: usize, end: usize },
    /// The sample on `track` ends behind the space for samples.
    SampleEndsAfterSpace { track: usize, start: usize, end: usize },
}

/// One sample of a kit.
#[derive(Debug, Clone, PartialEq, Eq)]
pub struct Sample {
    /// The name of the sample.
    pub name: String,
    /// The bytes of the sample.
    pub data: Vec<u8>,
    /// Whether the sample is always played in a loop.
    pub force_loop: bool,
}

/// A kit of samples.
#[derive(Debug, Clone, PartialEq, Eq)]
pub struct Kit {
    /// The name of the kit.
    pub name: String,
    /// The version of the kit.
    pub version: u8,
    /// The samples of the kit, in the order of their tracks.
    pub samples: Vec<Sample>,
}

/// The sixteen force-loop flags held in two bytes, the highest bit of the
/// first byte first.
pub open spec fn force_loop_bits(first: u8, second: u8) -> Seq<bool> {
    seq![
        first & 0x80 == 0x80,
        first & 0x40 == 0x40,
        first & 0x20 == 0x20,
        first & 0x10 == 0x10,
        first & 0x08 == 0x08,
        first & 0x04 == 0x04,
        first & 0x02 == 0x02,
        first & 0x01 == 0x01,
        second & 0x80 == 0x80,
        second & 0x40 == 0x40,
        second & 0x20 == 0x20,
        second & 0x10 == 0x10,
        second & 0x08 == 0x08,
        second & 0x04 == 0x04,
        second & 0x02 == 0x02,
        second & 0x01 == 0x01,
    ]
}

/// The byte in which bit `i` is set where `flags[from + i]` holds, for the
/// first `count` bits.
pub open spec fn flags_byte(flags: Seq<bool>, from: int, count: nat) -> u8
    decreases count,
{
    if count == 0 {
        0
    } else {
        let lower = flags_byte(flags, from, (count - 1) as nat);
        if flags[from + count - 1] {
            lower | (1u8 << ((count - 1) as u8))
        } else {
            lower
        }
    }
}

/// The sixteen force-loop flags held in the two bytes of `bytes`.
pub fn parse_force_loop_bits(bytes: &[u8]) -> (flags: Vec<bool>)
    requires
        bytes@.len() == 2,
    ensures
        flags@ == force_loop_bits(bytes@[0], bytes@[1]),
{
    let mut flags: Vec<bool> = Vec::new();
    let mut i: usize = 0;
    while i < 2
        invariant
            i <= 2,
            bytes@.len() == 2,
            flags@ == force_loop_bits(bytes@[0], bytes@[1]).take(8 * i),
        decreases 2 - i,
    {
        let v = bytes[i];
        flags.push(v & 0x80 == 0x80);
        flags.push(v & 0x40 == 0x40);
        flags.push(v & 0x20 == 0x20);
        flags.push(v & 0x10 == 0x10);
        flags.push(v & 0x08 == 0x08);
        flags.push(v & 0x04 == 0x04);
        flags.push(v & 0x02 == 0x02);
        flags.push(v & 0x01 == 0x01);
        i = i + 1;
        assert(flags@ =~= force_loop_bits(bytes@[0], bytes@[1]).take(8 * i));
    }
    assert(force_loop_bits(bytes@[0], bytes@[1]).take(16) =~= force_loop_bits(
        bytes@[0],
        bytes@[1],
    ));
    flags
}

/// The two bytes that hold sixteen force-loop flags, the lowest bit of
/// the first byte first.
pub fn force_loop_bits_to_flags(flags: [bool; 16]) -> (bytes: [u8; 2])
    ensures
        bytes@[0] == flags_byte(flags@, 0, 8),
        bytes@[1] == flags_byte(flags@, 8, 8),
{
    let mut a: u8 = 0x00;
    let mut b: u8 = 0x00;
    let mut i: usize = 0;
    while i < 16
        invariant
            i <= 16,
            flags@.len() == 16,
            i <= 8 ==> a == flags_byte(flags@, 0, i as nat) && b == 0,
            i > 8 ==> a == flags_byte(flags@, 0, 8) && b == flags_byte(flags@, 8, (i - 8) as nat),
        decreases 16 - i,
    {
        proof {
            reveal_with_fuel(flags_byte, 2);
        }
        if flags[i] {
            if i < 8 {
                a = a | (0x01u8 << (i as u8));
            } else {
                b = b | (0x01u8 << ((i - 8) as u8));
            }
        }
        i = i + 1;
    }
    [a, b]
}

/// The number that two bytes at `at` hold, the low byte first.
pub open spec fn word_at(bytes: Seq<u8>, at: int) -> int {
    bytes[at] + 256 * bytes[at + 1]
}

/// What the offset table and the names say of one track.
pub enum Track {
    /// No sample is on the track.
    Unused,
    /// A sample with this name lies from `start` up to `end` in the bank.
    Used { name: Seq<char>, start: int, end: int },
    /// The track cannot be read.
    Failed(KitError),
}

/// What the bank `bytes` says of `track`.
#[verifier::opaque]
pub open spec fn track_at(bytes: Seq<u8>, track: int) -> Track {
    let name = bytes.subrange(
        SAMPLE_NAME_OFFSET + track * SAMPLE_NAME_LENGTH,
        SAMPLE_NAME_OFFSET + track * SAMPLE_NAME_LENGTH + SAMPLE_NAME_LENGTH,
    );
    let start = word_at(bytes, 2 * track);
    let end = word_at(bytes, 2 * track + 2);
    if !valid_utf8(name) {
        Track::Failed(KitError::SampleNameInvalid { track: track as usize })
    } else if start == 0x0000 || start == 0xFFFF {
        Track::Unused
    } else if start < BANK_SIZE {
        Track::Failed(KitError::SampleOutsideBank { track: track as usize })
    } else if end == 0x0000 || end == 0xFFFF {
        Track::Unused
    } else if end < BANK_SIZE {
        Track::Failed(KitError::SampleOutsideBank { track: track as usize })
    } else if start > end {
        Track::Failed(
            KitError::SampleEndsBeforeStart {
                track: track as usize,
                start: (start - BANK_SIZE) as usize,
                end: (end - BANK_SIZE) as usize,
            },
        )
    } else if end - BANK_SIZE > MAX_SAMPLE_SPACE_PER_BANK {
        Track::Failed(
            KitError::SampleEndsAfterSpace {
                track: track as usize,
                start: (start - BANK_SIZE) as usize,
                end: (end - BANK_SIZE) as usize,
            },
        )
    } else {
        Track::Used { name: decode_utf8(name), start: start - BANK_SIZE, end: end - BANK_SIZE }
    }
}

/// The error of the first track below `upto` that cannot be read.
pub open spec fn first_failure(bytes: Seq<u8>, upto: int) -> Option<KitError>
    decreases upto,
{
    if upto <= 0 {
        None
    } else {
        match first_failure(bytes, upto - 1) {
            Some(e) => Some(e),
            None => match track_at(bytes, upto - 1) {
                Track::Failed(e) => Some(e),
                _ => None,
            },
        }
    }
}

/// Once a track has failed, that failure stays the first.
pub proof fn lemma_first_failure_stays(bytes: Seq<u8>, upto: int, later: int)
    requires
        upto <= later,
        first_failure(bytes, upto) is Some,
    ensures
        first_failure(bytes, later) == first_failure(bytes, upto),
    decreases later - upto,
{
    if upto < later {
        lemma_first_failure_stays(bytes, upto, later - 1);
    }
}

/// The tracks below `upto` that hold a sample, in ascending order.
pub open spec fn used_tracks(bytes: Seq<u8>, upto: int) -> Seq<int>
    decreases upto,
{
    if upto <= 0 {
        Seq::empty()
    } else if track_at(bytes, upto - 1) is Used {
        used_tracks(bytes, upto - 1).push(upto - 1)
    } else {
        used_tracks(bytes, upto - 1)
    }
}

/// Whether `sample` is the sample that the bank `bytes` holds on `track`.
pub open spec fn is_sample_of(bytes: Seq<u8>, track: int, sample: Sample) -> bool {
    match track_at(bytes, track) {
        Track::Used { name, start, end } => {
            &&& sample.name@ == name
            &&& sample.data@ == bytes.subrange(start, end)
            &&& sample.force_loop == force_loop_bits(
                bytes[FORCE_LOOP_OFFSET as int],
                bytes[FORCE_LOOP_OFFSET + 1],
            )[track]
        },
        _ => false,
    }
}

/// Whether `samples` are the samples that the bank `bytes` holds on the
/// tracks below `upto`.
pub open spec fn are_samples_of(bytes: Seq<u8>, upto: int, samples: Seq<Sample>) -> bool {
    &&& samples.len() == used_tracks(bytes, upto).len()
    &&& forall|k: int|
        0 <= k < samples.len() ==> is_sample_of(
            bytes,
            used_tracks(bytes, upto)[k],
            #[trigger] samples[k],
        )
}

/// Why the bank `bytes` cannot be read as a kit, if it cannot.
pub open spec fn kit_failure(bytes: Seq<u8>) -> Option<KitError> {
    if bytes.len() != BANK_SIZE {
        Some(KitError::InvalidSize { len: bytes.len() as usize })
    } else if bytes[0] != 0x60 || bytes[1] != 0x40 {
        Some(KitError::InvalidHeader { first: bytes[0], second: bytes[1] })
    } else if !valid_utf8(
        bytes.subrange(KIT_NAME_OFFSET as int, KIT_NAME_OFFSET + KIT_NAME_LENGTH),
    ) {
        Some(KitError::NameInvalid)
    } else {
        first_failure(bytes, MAX_SAMPLES_PER_BANK as int)
    }
}

/// Whether `kit` is the kit that the bank `bytes` holds.
pub open spec fn is_kit_of(bytes: Seq<u8>, kit: Kit) -> bool {
    &&& kit.name@ == decode_utf8(
        bytes.subrange(KIT_NAME_OFFSET as int, KIT_NAME_OFFSET + KIT_NAME_LENGTH),
    )
    &&& kit.version == bytes[KIT_VERSION_OFFSET as int]
    &&& are_samples_of(bytes, MAX_SAMPLES_PER_BANK as int, kit.samples@)
}

/// Calls `String::from_utf8`, which succeeds exactly on valid UTF-8 and
/// then gives the text that the bytes encode.
#[verifier::external_body]
fn utf8_string(bytes: Vec<u8>) -> (text: Option<String>)
    ensures
        text.is_some() == valid_utf8(bytes@),
        text.is_some() ==> text.unwrap()@ == decode_utf8(bytes@),
{
    String::from_utf8(bytes).ok()
}

/// The number that the two bytes at `at` hold, the low byte first.
fn read_word(bytes: &[u8], at: usize) -> (word: usize)
    requires
        at + 1 < bytes@.len(),
    ensures
        word == word_at(bytes@, at as int),
        word <= 0xFFFF,
{
    bytes[at] as usize + 256 * (bytes[at + 1] as usize)
}

/// Read what the bank `bytes` holds on `track`: a sample, or none.
fn read_track(bytes: &[u8], track: usize, force_loop: &Vec<bool>) -> (r: Result<
    Option<Sample>,
    KitError,
>)
    requires
        bytes@.len() == BANK_SIZE,
        track < MAX_SAMPLES_PER_BANK,
        force_loop@ == force_loop_bits(
            bytes@[FORCE_LOOP_OFFSET as int],
            bytes@[FORCE_LOOP_OFFSET + 1],
        ),
    ensures
        match track_at(bytes@, track as int) {
            Track::Failed(e) => r == Err::<Option<Sample>, KitError>(e),
            Track::Unused => r == Ok::<Option<Sample>, KitError>(None),
            Track::Used { .. } => r.is_ok() && r.unwrap().is_some() && is_sample_of(
                bytes@,
                track as int,
                r.unwrap().unwrap(),
            ),
        },
{
    proof {
        reveal(track_at);
    }
    let name_offset = SAMPLE_NAME_OFFSET + track * SAMPLE_NAME_LENGTH;
    let name = match utf8_string(
        copy_range(bytes, name_offset, name_offset + SAMPLE_NAME_LENGTH),
    ) {
        Some(name) => name,
        None => {
            return Err(KitError::SampleNameInvalid { track });
        },
    };
    let start = read_word(bytes, 2 * track);
    let end = read_word(bytes, 2 * track + 2);
    if start == 0x0000 || start == 0xFFFF {
        Ok(None)
    } else if start < BANK_SIZE {
        Err(KitError::SampleOutsideBank { track })
    } else if end == 0x0000 || end == 0xFFFF {
        Ok(None)
    } else if end < BANK_SIZE {
        Err(KitError::SampleOutsideBank { track })
    } else if start > end {
        Err(
            KitError::SampleEndsBeforeStart {
                track,
                start: start - BANK_SIZE,
                end: end - BANK_SIZE,
            },
        )
    } else if end - BANK_SIZE > MAX_SAMPLE_SPACE_PER_BANK {
        Err(
            KitError::SampleEndsAfterSpace {
                track,
                start: start - BANK_SIZE,
                end: end - BANK_SIZE,
            },
        )
    } else {
        let data = copy_range(bytes, start - BANK_SIZE, end - BANK_SIZE);
        Ok(Some(Sample { name, data, force_loop: force_loop[track] }))
    }
}

impl Kit {
    /// Read the kit that the bank `bytes` holds.
    ///
    /// The bank has to have the length of a bank and start with the two
    /// bytes of a kit; the names in it have to be text; and each sample
    /// has to lie within the space for samples. The first of these that
    /// fails is reported, the tracks being gone through in order. A track
    /// whose start or end is 0 or 0xFFFF holds no sample.
    pub fn try_from(bytes: &[u8]) -> (r: Result<Kit, KitError>)
        ensures
            match kit_failure(bytes@) {
                Some(e) => r == Err::<Kit, KitError>(e),
                None => r.is_ok() && is_kit_of(bytes@, r.unwrap()),
            },
    {
        if bytes.len() != BANK_SIZE {
            return Err(KitError::InvalidSize { len: bytes.len() });
        }
        if bytes[0] != 0x60 || bytes[1] != 0x40 {
            return Err(KitError::InvalidHeader { first: bytes[0], second: bytes[1] });
        }
        let name = match utf8_string(
            copy_range(bytes, KIT_NAME_OFFSET, KIT_NAME_OFFSET + KIT_NAME_LENGTH),
        ) {
            Some(name) => name,
            None => {
                return Err(KitError::NameInvalid);
            },
        };
        let version = bytes[KIT_VERSION_OFFSET];
        let force_loop = parse_force_loop_bits(
            copy_range(bytes, FORCE_LOOP_OFFSET, FORCE_LOOP_OFFSET + 2).as_slice(),
        );
        let mut samples: Vec<Sample> = Vec::new();
        let mut track: usize = 0;
        while track < MAX_SAMPLES_PER_BANK
            invariant
                track <= MAX_SAMPLES_PER_BANK,
                bytes@.len() == BANK_SIZE,
                force_loop@ == force_loop_bits(
                    bytes@[FORCE_LOOP_OFFSET as int],
                    bytes@[FORCE_LOOP_OFFSET + 1],
                ),
                kit_failure(bytes@) == first_failure(bytes@, MAX_SAMPLES_PER_BANK as int),
                first_failure(bytes@, track as int) is None,
                are_samples_of(bytes@, track as int, samples@),
            decreases MAX_SAMPLES_PER_BANK - track,
        {
            let ghost before = samples@;
            match read_track(bytes, track, &force_loop) {
                Err(e) => {
                    proof {
                        assert(first_failure(bytes@, track + 1) == Some(e));
                        lemma_first_failure_stays(
                            bytes@,
                            track + 1,
                            MAX_SAMPLES_PER_BANK as int,
                        );
                    }
                    return Err(e);
                },
                Ok(None) => {},
                Ok(Some(sample)) => {
                    samples.push(sample);
                    proof {
                        let tracks = used_tracks(bytes@, track + 1);
                        assert forall|k: int| 0 <= k < samples@.len() implies is_sample_of(
                            bytes@,
                            tracks[k],
                            #[trigger] samples@[k],
                        ) by {
                            if k < before.len() {
                                assert(samples@[k] == before[k]);
                            }
                        }
                    }
                },
            }
            track = track + 1;
        }
        Ok(Kit { name, version, samples })
    }
}

/// `byte` with a lower-case ASCII letter made upper-case.
pub open spec fn upper(byte: u8) -> u8 {
    if 97 <= byte <= 122 {
        (byte - 32) as u8
    } else {
        byte
    }
}

/// `byte` with a lower-case ASCII letter made upper-case.
fn to_upper(byte: u8) -> (r: u8)
    ensures
        r == upper(byte),
{
    if 97 <= byte && byte <= 122 {
        byte - 32
    } else {
        byte
    }
}

/// Where the data of the first `count` of `samples` ends in the bank.
pub open spec fn data_end(samples: Seq<Sample>, count: nat) -> int
    decreases count,
{
    if count == 0 {
        SAMPLE_DATA_OFFSET as int
    } else {
        data_end(samples, (count - 1) as nat) + samples[count - 1].data@.len()
    }
}

/// The data of the first `count` of `samples`, one after the other.
pub open spec fn all_data(samples: Seq<Sample>, count: nat) -> Seq<u8>
    decreases count,
{
    if count == 0 {
        Seq::empty()
    } else {
        all_data(samples, (count - 1) as nat) + samples[count - 1].data@
    }
}

/// The force-loop flags of `samples`, filled up to sixteen.
pub open spec fn loop_flags(samples: Seq<Sample>) -> Seq<bool> {
    Seq::new(16, |k: int| k < samples.len() && samples[k].force_loop)
}

/// Whether `kit` can be written into a bank: its name has six bytes or
/// more, the name of each sample three or more, and its samples are no
/// more than fifteen and fit into the bank.
pub open spec fn fits_bank(kit: Kit) -> bool {
    &&& encode_utf8(kit.name@).len() >= KIT_NAME_LENGTH
    &&& kit.samples@.len() <= MAX_SAMPLES_PER_BANK
    &&& forall|k: int|
        0 <= k < kit.samples@.len() ==> encode_utf8(
            (#[trigger] kit.samples@[k]).name@,
        ).len() >= SAMPLE_NAME_LENGTH
    &&& data_end(kit.samples@, kit.samples@.len()) <= BANK_SIZE
}

/// The byte at offset `i` of the bank that holds `kit`.
pub open spec fn kit_byte(kit: Kit, i: int) -> u8 {
    let samples = kit.samples@;
    let count = samples.len();
    if i < 0x20 {
        let entry = i / 2;
        if entry <= count {
            let word = BANK_SIZE + data_end(samples, entry as nat);
            if i % 2 == 0 {
                (word % 256) as u8
            } else {
                (word / 256) as u8
            }
        } else {
            0
        }
    } else if i < SAMPLE_NAME_OFFSET {
        0xFF
    } else if i < SAMPLE_NAME_OFFSET + MAX_SAMPLES_PER_BANK * SAMPLE_NAME_LENGTH {
        let track = (i - SAMPLE_NAME_OFFSET) / 3;
        let letter = (i - SAMPLE_NAME_OFFSET) % 3;
        if track < count {
            upper(encode_utf8(samples[track].name@)[letter])
        } else if letter == 0 {
            0x00
        } else {
            0x2D
        }
    } else if i < KIT_NAME_OFFSET {
        0xFF
    } else if i < KIT_NAME_OFFSET + KIT_NAME_LENGTH {
        upper(encode_utf8(kit.name@)[i - KIT_NAME_OFFSET])
    } else if i < FORCE_LOOP_OFFSET {
        0xFF
    } else if i == FORCE_LOOP_OFFSET {
        flags_byte(loop_flags(samples), 0, 8)
    } else if i == FORCE_LOOP_OFFSET + 1 {
        flags_byte(loop_flags(samples), 8, 8)
    } else if i < KIT_VERSION_OFFSET {
        0xFF
    } else if i == KIT_VERSION_OFFSET {
        kit.version
    } else if i < data_end(samples, count) {
        all_data(samples, count)[i - SAMPLE_DATA_OFFSET]
    } else {
        0xFF
    }
}

/// The bank that holds `kit`.
pub open spec fn kit_image(kit: Kit) -> Seq<u8> {
    Seq::new(BANK_SIZE as nat, |i: int| kit_byte(kit, i))
}

/// The data of a part of the samples ends no later than that of all.
pub proof fn lemma_data_end(samples: Seq<Sample>, fewer: nat, count: nat)
    requires
        fewer <= count,
    ensures
        SAMPLE_DATA_OFFSET <= data_end(samples, fewer) <= data_end(samples, count),
        all_data(samples, count).len() == data_end(samples, count) - SAMPLE_DATA_OFFSET,
    decreases count,
{
    if count > 0 {
        if fewer < count {
            lemma_data_end(samples, fewer, (count - 1) as nat);
        } else {
            lemma_data_end(samples, (count - 1) as nat, (count - 1) as nat);
        }
    }
}

impl Kit {
    /// Read a kit from all that is left in `reader`.
    pub fn try_from_reader(reader: &mut Reader) -> (r: Result<Kit, KitError>)
        ensures
            final(reader).data() == old(reader).data(),
            match kit_failure(old(reader).rest()) {
                Some(e) => r == Err::<Kit, KitError>(e),
                None => r.is_ok() && is_kit_of(old(reader).rest(), r.unwrap()),
            },
            final(reader).offset() == if old(reader).offset() <= old(reader).data().len() {
                old(reader).data().len() as int
            } else {
                old(reader).offset()
            },
    {
        let bytes = reader.read_to_end();
        Kit::try_from(bytes.as_slice())
    }

    /// The bank that holds the kit: the table of where each sample ends,
    /// the names in upper case, the force-loop flags, the version and the
    /// data of the samples from offset 0x60 on. Bytes that hold nothing
    /// are 0xFF; the table is filled up with zeros and the names with
    /// dashes.
    pub fn into_bytes(&self) -> (bytes: Vec<u8>)
        requires
            fits_bank(*self),
        ensures
            bytes@ == kit_image(*self),
    {
        let count = self.samples.len();
        let mut ends: Vec<usize> = Vec::new();
        let mut data: Vec<u8> = Vec::new();
        let mut flags = [false; 16];
        ends.push(SAMPLE_DATA_OFFSET);
        let mut k: usize = 0;
        assert(flags@ =~= Seq::new(16, |j: int| j < 0 && self.samples@[j].force_loop));
        while k < count
            invariant
                k <= count,
                count == self.samples@.len(),
                fits_bank(*self),
                ends@.len() == k + 1,
                forall|e: int| 0 <= e <= k ==> #[trigger] ends@[e] == data_end(self.samples@, e as nat),
                data@ == all_data(self.samples@, k as nat),
                flags@ == Seq::new(16, |j: int| j < k && self.samples@[j].force_loop),
            decreases count - k,
        {
            proof {
                lemma_data_end(self.samples@, (k + 1) as nat, count as nat);
                lemma_data_end(self.samples@, k as nat, count as nat);
            }
            let sample = &self.samples[k];
            let end = ends[k] + sample.data.len();
            ends.push(end);
            append(&mut data, sample.data.as_slice());
            flags[k] = sample.force_loop;
            k = k + 1;
            assert(flags@ =~= Seq::new(16, |j: int| j < k && self.samples@[j].force_loop));
        }
        assert(flags@ =~= loop_flags(self.samples@));
        let loops = force_loop_bits_to_flags(flags);
        let name = self.name.as_str().as_bytes();
        proof {
            lemma_data_end(self.samples@, count as nat, count as nat);
        }
        let mut bytes: Vec<u8> = Vec::new();
        let mut i: usize = 0;
        while i < BANK_SIZE
            invariant
                i <= BANK_SIZE,
                count == self.samples@.len(),
                fits_bank(*self),
                ends@.len() == count + 1,
                forall|e: int|
                    0 <= e <= count ==> #[trigger] ends@[e] == data_end(self.samples@, e as nat),
                data@ == all_data(self.samples@, count as nat),
                data@.len() == data_end(self.samples@, count as nat) - SAMPLE_DATA_OFFSET,
                loops@[0] == flags_byte(loop_flags(self.samples@), 0, 8),
                loops@[1] == flags_byte(loop_flags(self.samples@), 8, 8),
                name@ == encode_utf8(self.name@),
                bytes@.len() == i,
                forall|j: int| 0 <= j < i ==> bytes@[j] == kit_byte(*self, j),
            decreases BANK_SIZE - i,
        {
            let byte: u8 = if i < 0x20 {
                let entry = i / 2;
                if entry <= count {
                    proof {
                        lemma_data_end(self.samples@, entry as nat, count as nat);
                    }
                    let word = BANK_SIZE + ends[entry];
                    if i % 2 == 0 {
                        (word % 256) as u8
                    } else {
                        (word / 256) as u8
                    }
                } else {
                    0
                }
            } else if i < SAMPLE_NAME_OFFSET {
                0xFF
            } else if i < SAMPLE_NAME_OFFSET + MAX_SAMPLES_PER_BANK * SAMPLE_NAME_LENGTH {
                let track = (i - SAMPLE_NAME_OFFSET) / 3;
                let letter = (i - SAMPLE_NAME_OFFSET) % 3;
                if track < count {
                    let sample_name = self.samples[track].name.as_str().as_bytes();
                    to_upper(sample_name[letter])
                } else if letter == 0 {
                    0x00
                } else {
                    0x2D
                }
            } else if i < KIT_NAME_OFFSET {
                0xFF
            } else if i < KIT_NAME_OFFSET + KIT_NAME_LENGTH {
                to_upper(name[i - KIT_NAME_OFFSET])
            } else if i < FORCE_LOOP_OFFSET {
                0xFF
            } else if i == FORCE_LOOP_OFFSET {
                loops[0]
            } else if i == FORCE_LOOP_OFFSET + 1 {
                loops[1]
            } else if i < KIT_VERSION_OFFSET {
                0xFF
            } else if i == KIT_VERSION_OFFSET {
                self.version
            } else if i < SAMPLE_DATA_OFFSET + data.len() {
                data[i - SAMPLE_DATA_OFFSET]
            } else {
                0xFF
            };
            bytes.push(byte);
            i = i + 1;
        }
        assert(bytes@ =~= kit_image(*self));
        bytes
    }
}

} // verus!
