//! The block store: its layout, its allocation table and its files.

use crate::codec::compress::{compress, lemma_pack, pack, CompressBlockError};
use crate::codec::decompress::{decompress, unpack_chain, IDLE_JUMPS};
pub use crate::codec::BLOCK_LEN;
use crate::io::{append, copy_range, overlay, IoError, Reader, Writer};
use crate::lsdsng::LsdSng;
use crate::name::{first_invalid_from, padded, FromBytesError, Name};
use crate::song::song_memory::song_from_unpacked;
use crate::song::{FromReaderError as SongReadError, SongMemory};
use vstd::prelude::*;

verus! {

/// The largest number of files the filesystem can hold.
pub const FILES_CAPACITY: usize = 0x20;

/// The number of blocks in the filesystem, the header block included.
pub const BLOCKS_CAPACITY: usize = 0xC0;

/// The length in bytes of the whole filesystem.
pub const FILESYSTEM_LEN: usize = 0x18000;

/// The length in bytes of a file name.
pub const NAME_LEN: usize = 8;

/// Where the file versions start, one byte per file.
pub const FILE_VERSIONS_START: usize = 0x0100;

/// Where the two marker bytes stand.
pub const MARKER_START: usize = 0x013E;

/// The first marker byte of an initialised filesystem.
pub const MARKER_FIRST: u8 = 0x6A;

/// The second marker byte of an initialised filesystem.
pub const MARKER_SECOND: u8 = 0x6B;

/// Where the index of the active file stands.
pub const ACTIVE_FILE_INDEX: usize = 0x0140;

/// The value that says that no file is active.
pub const NO_ACTIVE_FILE: u8 = 0xFF;

/// Where the entry of block 0 would stand; the table starts with block 1.
pub const ALLOC_TABLE_BASE: usize = 0x0140;

/// The value of the table entry of a block that no file owns.
pub const UNUSED_BLOCK: u8 = 0xFF;

/// The index of one of the 32 file slots.
#[derive(Debug, Clone, Copy, PartialEq, Eq)]
pub struct Index(u8);

impl Index {
    /// The index is below 32.
    #[verifier::type_invariant]
    pub closed spec fn wf(self) -> bool {
        self.0 < 32
    }

    /// The index as a number.
    pub closed spec fn value(self) -> u8 {
        self.0
    }

    /// The slot with the index `value`.
    pub fn new(value: u8) -> (index: Self)
        requires
            value < 32,
        ensures
            index.wf(),
            index.value() == value,
    {
        Index(value)
    }

    /// The slot with the index `value`, if there is one.
    pub fn try_new(value: u8) -> (index: Option<Self>)
        ensures
            value < 32 ==> index.is_some() && index.unwrap().value() == value
                && index.unwrap().wf(),
            value >= 32 ==> index.is_none(),
    {
        if value < 32 {
            Some(Index(value))
        } else {
            None
        }
    }

    /// The index as a number.
    pub fn get(self) -> (value: u8)
        ensures
            value == self.value(),
            value < 32,
            self.wf(),
    {
        proof {
            use_type_invariant(self);
        }
        self.0
    }
}

/// Whether the marker bytes of `image` are those of an initialised
/// filesystem.
pub open spec fn is_marked(image: Seq<u8>) -> bool {
    image[MARKER_START as int] == MARKER_FIRST && image[MARKER_START + 1] == MARKER_SECOND
}

/// The file that owns `block`, or the value of an unused block.
pub open spec fn owner(image: Seq<u8>, block: int) -> u8
    recommends
        1 <= block < BLOCKS_CAPACITY,
{
    image[ALLOC_TABLE_BASE + block]
}

/// Whether any block is allocated to `slot`.
pub open spec fn in_use(image: Seq<u8>, slot: u8) -> bool {
    exists|block: int| 1 <= block < BLOCKS_CAPACITY && #[trigger] owner(image, block) == slot
}

/// The blocks below `upto` that `slot` owns, in ascending order.
pub open spec fn blocks_below(image: Seq<u8>, slot: u8, upto: int) -> Seq<u8>
    decreases upto,
{
    if upto <= 1 {
        Seq::empty()
    } else if owner(image, upto - 1) == slot {
        blocks_below(image, slot, upto - 1).push((upto - 1) as u8)
    } else {
        blocks_below(image, slot, upto - 1)
    }
}

/// All the blocks that `slot` owns, in ascending order.
pub open spec fn file_blocks(image: Seq<u8>, slot: u8) -> Seq<u8> {
    blocks_below(image, slot, BLOCKS_CAPACITY as int)
}

/// The number of blocks below `upto` that some file owns.
pub open spec fn used_below(image: Seq<u8>, upto: int) -> nat
    decreases upto,
{
    if upto <= 1 {
        0
    } else if owner(image, upto - 1) != UNUSED_BLOCK {
        used_below(image, upto - 1) + 1
    } else {
        used_below(image, upto - 1)
    }
}

/// The number of blocks that some file owns.
pub open spec fn blocks_used(image: Seq<u8>) -> nat {
    used_below(image, BLOCKS_CAPACITY as int)
}

/// The bytes of `block`.
pub open spec fn block_bytes(image: Seq<u8>, block: int) -> Seq<u8>
    recommends
        0 <= block < BLOCKS_CAPACITY,
{
    image.subrange(BLOCK_LEN * block, BLOCK_LEN * block + BLOCK_LEN)
}

/// The bytes of `blocks`, one block after the other.
pub open spec fn flat_blocks(image: Seq<u8>, blocks: Seq<u8>) -> Seq<u8>
    decreases blocks.len(),
{
    if blocks.len() == 0 {
        Seq::empty()
    } else {
        flat_blocks(image, blocks.drop_last()) + block_bytes(image, blocks.last() as int)
    }
}

/// The eight bytes in which the name of the file in `slot` is kept.
pub open spec fn name_bytes(image: Seq<u8>, slot: u8) -> Seq<u8> {
    image.subrange(NAME_LEN * slot, NAME_LEN * slot + NAME_LEN)
}

/// The version of the file in `slot`.
pub open spec fn version_of(image: Seq<u8>, slot: u8) -> u8 {
    image[FILE_VERSIONS_START + slot]
}

/// The image of a filesystem without files.
pub open spec fn empty_image() -> Seq<u8> {
    Seq::new(
        FILESYSTEM_LEN as nat,
        |i: int|
            if i == MARKER_START {
                MARKER_FIRST
            } else if i == MARKER_START + 1 {
                MARKER_SECOND
            } else if i == ACTIVE_FILE_INDEX {
                NO_ACTIVE_FILE
            } else if ALLOC_TABLE_BASE < i < BLOCK_LEN {
                UNUSED_BLOCK
            } else {
                0u8
            },
    )
}

/// What `Filesystem::from_reader` makes of the bytes `data` from `pos` on.
pub open spec fn image_from_stream(data: Seq<u8>, pos: int) -> Result<Seq<u8>, FromReaderError> {
    if pos + FILESYSTEM_LEN > data.len() {
        Err(FromReaderError::Io(IoError::UnexpectedEof))
    } else if !is_marked(data.subrange(pos, pos + FILESYSTEM_LEN)) {
        Err(FromReaderError::InitializationCheckIncorrect)
    } else {
        Ok(data.subrange(pos, pos + FILESYSTEM_LEN))
    }
}

/// The song that the chain of blocks starting with `block` holds.
pub open spec fn song_at(image: Seq<u8>, block: int) -> Result<Seq<u8>, SongReadError> {
    song_from_unpacked(
        unpack_chain(image, 0, BLOCK_LEN * block, SongMemory::LEN as int, IDLE_JUMPS as nat),
    )
}

/// The name under which a file leaves the filesystem: the name kept for
/// it, or the empty name if the bytes kept are not a name.
pub open spec fn export_name(bytes: Seq<u8>) -> Seq<u8> {
    match first_invalid_from(bytes, 0) {
        None => padded(bytes, NAME_LEN as nat),
        Some(_) => Seq::new(NAME_LEN as nat, |i: int| 0u8),
    }
}

/// The block that the byte at `offset` lies in.
pub open spec fn block_of(offset: int) -> int {
    offset / (BLOCK_LEN as int)
}

/// `image` after the blocks below `upto` that `slot` owns have been freed
/// and zeroed, and the name and version of `slot` zeroed.
pub open spec fn removed_below(image: Seq<u8>, slot: u8, upto: int) -> Seq<u8> {
    Seq::new(
        image.len(),
        |i: int|
            if NAME_LEN * slot <= i < NAME_LEN * slot + NAME_LEN {
                0u8
            } else if i == FILE_VERSIONS_START + slot {
                0u8
            } else if ALLOC_TABLE_BASE < i < ALLOC_TABLE_BASE + upto && image[i] == slot {
                UNUSED_BLOCK
            } else if BLOCK_LEN <= i < BLOCK_LEN * upto && owner(image, block_of(i)) == slot {
                0u8
            } else {
                image[i]
            },
    )
}

/// `image` after the file in `slot` has been removed.
pub open spec fn removed(image: Seq<u8>, slot: u8) -> Seq<u8> {
    removed_below(image, slot, BLOCKS_CAPACITY as int)
}

/// The blocks below `upto` that a file in `slot` may be written to: those
/// that no file owns and those that `slot` owns, in ascending order.
pub open spec fn candidates_below(image: Seq<u8>, slot: u8, upto: int) -> Seq<u8>
    decreases upto,
{
    if upto <= 1 {
        Seq::empty()
    } else if owner(image, upto - 1) == UNUSED_BLOCK || owner(image, upto - 1) == slot {
        candidates_below(image, slot, upto - 1).push((upto - 1) as u8)
    } else {
        candidates_below(image, slot, upto - 1)
    }
}

/// All the blocks that a file in `slot` may be written to.
pub open spec fn candidates(image: Seq<u8>, slot: u8) -> Seq<u8> {
    candidates_below(image, slot, BLOCKS_CAPACITY as int)
}

/// `image` with `name` and `version` entered for `slot`.
pub open spec fn with_header(image: Seq<u8>, slot: u8, name: Seq<u8>, version: u8) -> Seq<u8> {
    overlay(image, NAME_LEN * slot, name).update(FILE_VERSIONS_START + slot, version)
}

/// `image` with `bytes` stored in `block` and the block given to `slot`.
pub open spec fn store_block(image: Seq<u8>, slot: u8, block: u8, bytes: Seq<u8>) -> Seq<u8> {
    overlay(image.update(ALLOC_TABLE_BASE + block, slot), BLOCK_LEN * block, bytes)
}

/// `image` with the first `count` of `blocks` stored in the blocks that
/// `indices` names and given to `slot`.
pub open spec fn store_blocks(
    image: Seq<u8>,
    slot: u8,
    indices: Seq<u8>,
    blocks: Seq<Seq<u8>>,
    count: nat,
) -> Seq<u8>
    decreases count,
{
    if count == 0 {
        image
    } else {
        store_block(
            store_blocks(image, slot, indices, blocks, (count - 1) as nat),
            slot,
            indices[count - 1],
            blocks[count - 1],
        )
    }
}

/// `image` after `song` has been inserted in `slot` under `name` and
/// `version`; `None` when the blocks that may be written to are too few.
pub open spec fn inserted(image: Seq<u8>, slot: u8, name: Seq<u8>, version: u8, song: Seq<u8>)
    -> Option<Seq<u8>> {
    match pack(song, 0, candidates(image, slot), 0, BLOCK_LEN as int) {
        Err(_) => None,
        Ok(blocks) => Some(
            store_blocks(
                with_header(removed(image, slot), slot, name, version),
                slot,
                candidates(image, slot),
                blocks,
                blocks.len(),
            ),
        ),
    }
}

/// A byte lies in `block` exactly if its offset lies in the range of the
/// block.
pub proof fn lemma_block_of(offset: int, block: int)
    requires
        0 <= offset,
        0 <= block,
    ensures
        block_of(offset) == block <==> BLOCK_LEN * block <= offset < BLOCK_LEN * block
            + BLOCK_LEN,
{
    assert(offset / 512 == block <==> 512 * block <= offset < 512 * block + 512)
        by (nonlinear_arith)
        requires
            0 <= offset,
            0 <= block,
    ;
}

/// The blocks that may be written to are data blocks, in ascending order.
pub proof fn lemma_candidates(image: Seq<u8>, slot: u8, upto: int)
    requires
        upto <= BLOCKS_CAPACITY,
    ensures
        candidates_below(image, slot, upto).len() < upto || upto <= 1,
        candidates_below(image, slot, upto).len() <= BLOCKS_CAPACITY,
        forall|j: int|
            0 <= j < candidates_below(image, slot, upto).len() ==> 1 <= #[trigger] candidates_below(
                image,
                slot,
                upto,
            )[j] < upto,
        forall|j: int, k: int|
            0 <= j < k < candidates_below(image, slot, upto).len() ==> candidates_below(
                image,
                slot,
                upto,
            )[j] < candidates_below(image, slot, upto)[k],
    decreases upto,
{
    if upto > 1 {
        lemma_candidates(image, slot, upto - 1);
    }
}

/// A slot is in use exactly if it owns a block; the blocks it owns are
/// data blocks that it owns indeed.
pub proof fn lemma_file_blocks(image: Seq<u8>, slot: u8, upto: int)
    requires
        upto <= BLOCKS_CAPACITY,
    ensures
        blocks_below(image, slot, upto).len() > 0 <==> exists|block: int|
            1 <= block < upto && #[trigger] owner(image, block) == slot,
        blocks_below(image, slot, upto).len() < upto || upto <= 1,
        blocks_below(image, slot, upto).len() <= BLOCKS_CAPACITY,
        forall|j: int|
            0 <= j < blocks_below(image, slot, upto).len() ==> 1 <= #[trigger] blocks_below(
                image,
                slot,
                upto,
            )[j] < upto && owner(image, blocks_below(image, slot, upto)[j] as int) == slot,
    decreases upto,
{
    if upto > 1 {
        lemma_file_blocks(image, slot, upto - 1);
        if owner(image, upto - 1) == slot {
            assert(blocks_below(image, slot, upto).len() > 0);
        }
    }
}

/// Why a filesystem could not be read.
#[derive(Debug, Clone, Copy, PartialEq, Eq, Structural)]
pub enum FromReaderError {
    /// The marker bytes are not those of an initialised filesystem.
    InitializationCheckIncorrect,
    /// Reading the source failed.
    Io(IoError),
}

/// A store of up to 32 compressed songs.
#[derive(Debug, Clone, PartialEq, Eq)]
pub struct Filesystem {
    bytes: Vec<u8>,
}

impl Filesystem {
    /// The largest number of files the filesystem can hold.
    pub const FILES_CAPACITY: usize = 0x20;

    /// The number of blocks in the filesystem, the header block included.
    pub const BLOCKS_CAPACITY: usize = 0xC0;

    /// The length in bytes of a block.
    pub const BLOCK_LEN: usize = 0x200;

    /// The bytes of the filesystem.
    pub closed spec fn view(&self) -> Seq<u8> {
        self.bytes@
    }

    /// The filesystem has its full length and its marker bytes are set.
    pub open spec fn wf(&self) -> bool {
        self@.len() == FILESYSTEM_LEN && is_marked(self@)
    }

    /// A filesystem without files, with the marker bytes set.
    pub fn new() -> (fs: Self)
        ensures
            fs.wf(),
            fs@ == empty_image(),
    {
        let mut bytes: Vec<u8> = Vec::new();
        let mut i: usize = 0;
        while i < FILESYSTEM_LEN
            invariant
                i <= FILESYSTEM_LEN,
                bytes@.len() == i,
                forall|j: int| 0 <= j < i ==> bytes@[j] == empty_image()[j],
            decreases FILESYSTEM_LEN - i,
        {
            let byte: u8 = if i == MARKER_START {
                MARKER_FIRST
            } else if i == MARKER_START + 1 {
                MARKER_SECOND
            } else if i == ACTIVE_FILE_INDEX {
                NO_ACTIVE_FILE
            } else if ALLOC_TABLE_BASE < i && i < BLOCK_LEN {
                UNUSED_BLOCK
            } else {
                0
            };
            bytes.push(byte);
            i = i + 1;
        }
        assert(bytes@ =~= empty_image());
        Filesystem { bytes }
    }

    /// Read the bytes of a filesystem from `reader`. Fails if there are too
    /// few, or if the marker bytes are not set.
    pub fn from_reader(reader: &mut Reader) -> (r: Result<Self, FromReaderError>)
        ensures
            final(reader).data() == old(reader).data(),
            match image_from_stream(old(reader).data(), old(reader).offset()) {
                Ok(image) => r.is_ok() && r.unwrap()@ == image && r.unwrap().wf(),
                Err(e) => r == Err::<Self, FromReaderError>(e),
            },
            final(reader).offset() == if old(reader).offset() + FILESYSTEM_LEN <= old(
                reader,
            ).data().len() {
                old(reader).offset() + FILESYSTEM_LEN
            } else {
                old(reader).data().len() as int
            },
    {
        let bytes = match reader.read_exact(FILESYSTEM_LEN) {
            Ok(bytes) => bytes,
            Err(e) => {
                return Err(FromReaderError::Io(e));
            },
        };
        if bytes[MARKER_START] != MARKER_FIRST || bytes[MARKER_START + 1] != MARKER_SECOND {
            return Err(FromReaderError::InitializationCheckIncorrect);
        }
        Ok(Filesystem { bytes })
    }

    /// Write the bytes of the filesystem to `writer`.
    pub fn to_writer(&self, writer: &mut Writer) -> (r: Result<(), IoError>)
        requires
            old(writer).wf(),
        ensures
            old(writer).after_write(self@, final(writer)),
            r.is_ok() <==> self@.len() <= old(writer).room(),
            r.is_err() ==> r == Err::<(), IoError>(IoError::WriteZero),
    {
        writer.write_all(self.bytes.as_slice())
    }

    /// Whether any compressed data is stored for the file in slot `index`.
    pub fn is_file_in_use(&self, index: Index) -> (used: bool)
        requires
            self.wf(),
        ensures
            used == in_use(self@, index.value()),
    {
        let slot = index.get();
        let mut block: usize = 1;
        while block < BLOCKS_CAPACITY
            invariant
                1 <= block <= BLOCKS_CAPACITY,
                self.wf(),
                slot == index.value(),
                forall|b: int| 1 <= b < block ==> owner(self@, b) != slot,
            decreases BLOCKS_CAPACITY - block,
        {
            if self.bytes[ALLOC_TABLE_BASE + block] == slot {
                assert(owner(self@, block as int) == slot);
                return true;
            }
            block = block + 1;
        }
        false
    }

    /// The index of the file that the song being worked on belongs to, if
    /// the filesystem names one of its 32 slots.
    pub fn active_file(&self) -> (active: Option<Index>)
        requires
            self.wf(),
        ensures
            self@[ACTIVE_FILE_INDEX as int] < 32 ==> active.is_some() && active.unwrap().value()
                == self@[ACTIVE_FILE_INDEX as int],
            self@[ACTIVE_FILE_INDEX as int] >= 32 ==> active.is_none(),
    {
        Index::try_new(self.bytes[ACTIVE_FILE_INDEX])
    }

    /// The number of blocks that some file owns.
    pub fn blocks_used_count(&self) -> (count: usize)
        requires
            self.wf(),
        ensures
            count == blocks_used(self@),
            count < BLOCKS_CAPACITY,
    {
        let mut count: usize = 0;
        let mut block: usize = 1;
        while block < BLOCKS_CAPACITY
            invariant
                1 <= block <= BLOCKS_CAPACITY,
                self.wf(),
                count == used_below(self@, block as int),
                count < block,
            decreases BLOCKS_CAPACITY - block,
        {
            if self.bytes[ALLOC_TABLE_BASE + block] != UNUSED_BLOCK {
                count = count + 1;
            }
            block = block + 1;
        }
        count
    }

    /// The blocks that a file in slot `index` may be written to: those that
    /// no file owns and those that the slot owns, in ascending order.
    pub fn candidate_blocks(&self, index: Index) -> (blocks: Vec<u8>)
        requires
            self.wf(),
        ensures
            blocks@ == candidates(self@, index.value()),
    {
        let slot = index.get();
        let mut blocks: Vec<u8> = Vec::new();
        let mut block: usize = 1;
        while block < BLOCKS_CAPACITY
            invariant
                1 <= block <= BLOCKS_CAPACITY,
                self.wf(),
                slot == index.value(),
                blocks@ == candidates_below(self@, slot, block as int),
            decreases BLOCKS_CAPACITY - block,
        {
            let owner = self.bytes[ALLOC_TABLE_BASE + block];
            if owner == UNUSED_BLOCK || owner == slot {
                blocks.push(block as u8);
            }
            block = block + 1;
        }
        blocks
    }

    /// The file in slot `index`, if any compressed data is stored for it.
    pub fn file(&self, index: Index) -> (entry: Option<Entry<'_>>)
        requires
            self.wf(),
        ensures
            entry.is_some() == in_use(self@, index.value()),
            entry.is_some() ==> entry.unwrap().wf() && entry.unwrap().image() == self@
                && entry.unwrap().slot() == index.value(),
    {
        if self.is_file_in_use(index) {
            proof {
                use_type_invariant(index);
            }
            Some(Entry { fs: self, index })
        } else {
            None
        }
    }

    /// Walk over all 32 slots in order; an unused slot gives `None`.
    pub fn files(&self) -> (entries: Entries<'_>)
        requires
            self.wf(),
        ensures
            entries.wf(),
            entries.image() == self@,
            entries.position() == 0,
    {
        Entries { fs: self, index: 0 }
    }

    /// Decompress the file whose first block is `block`, following jumps
    /// from block to block up to the end of the file.
    ///
    /// Fails if the data ends inside a unit, writes more or less than one
    /// song, jumps without end, or does not give initialised song memory.
    pub fn decompress(&self, block: u8) -> (r: Result<SongMemory, SongReadError>)
        requires
            self.wf(),
        ensures
            match song_at(self@, block as int) {
                Ok(song) => r.is_ok() && r.unwrap()@ == song && r.unwrap().wf(),
                Err(e) => r == Err::<SongMemory, SongReadError>(e),
            },
    {
        let mut reader = Reader::new(self.bytes.as_slice());
        reader.seek(BLOCK_LEN * (block as usize));
        decompress(&mut reader, 0)
    }

    /// Remove the file in slot `index` and hand it out as an exported
    /// song: its name, its version and its blocks in ascending order.
    ///
    /// The name and version kept for the slot are zeroed, and each of its
    /// blocks is zeroed and freed. An unused slot gives `None` and nothing
    /// changes.
    #[verifier::rlimit(50)]
    pub fn remove_file(&mut self, index: Index) -> (old_file: Option<LsdSng>)
        requires
            old(self).wf(),
        ensures
            final(self).wf(),
            !in_use(old(self)@, index.value()) ==> old_file.is_none() && final(self)@ == old(
                self,
            )@,
            in_use(old(self)@, index.value()) ==> old_file.is_some() && final(self)@ == removed(
                old(self)@,
                index.value(),
            ) && exported(old(self)@, index.value(), old_file.unwrap()),
    {
        if !self.is_file_in_use(index) {
            return None;
        }
        let slot = index.get();
        let lsdsng = self.export(index);
        let ghost image = self@;
        let name_start = NAME_LEN * (slot as usize);
        fill(&mut self.bytes, name_start, name_start + NAME_LEN, 0);
        self.bytes.set(FILE_VERSIONS_START + slot as usize, 0);
        assert(self@ =~= removed_below(image, slot, 1));
        let mut block: usize = 1;
        while block < BLOCKS_CAPACITY
            invariant
                1 <= block <= BLOCKS_CAPACITY,
                image.len() == FILESYSTEM_LEN,
                slot == index.value(),
                slot < 32,
                self@ == removed_below(image, slot, block as int),
            decreases BLOCKS_CAPACITY - block,
        {
            if self.bytes[ALLOC_TABLE_BASE + block] == slot {
                let start = BLOCK_LEN * block;
                fill(&mut self.bytes, start, start + BLOCK_LEN, 0);
                self.bytes.set(ALLOC_TABLE_BASE + block, UNUSED_BLOCK);
            }
            assert(self@ =~= removed_below(image, slot, block + 1)) by {
                assert forall|i: int| 0 <= i < FILESYSTEM_LEN implies (BLOCK_LEN * block <= i
                    < BLOCK_LEN * block + BLOCK_LEN <==> #[trigger] block_of(i) == block) by {
                    lemma_block_of(i, block as int);
                }
            }
            block = block + 1;
        }
        Some(lsdsng)
    }

    /// The file in slot `index` as an exported song, whether the slot is
    /// in use or not.
    fn export(&self, index: Index) -> (lsdsng: LsdSng)
        requires
            self.wf(),
        ensures
            exported(self@, index.value(), lsdsng),
    {
        let slot = index.get();
        let name_bytes = self.file_name(index);
        let name = match Name::<8>::from_bytes(name_bytes.as_slice()) {
            Ok(name) => name,
            Err(_) => Name::<8>::default(),
        };
        let version = self.file_version(index);
        let indices = self.file_blocks(index);
        proof {
            lemma_file_blocks(self@, slot, BLOCKS_CAPACITY as int);
        }
        let mut blocks: Vec<u8> = Vec::new();
        let mut i: usize = 0;
        while i < indices.len()
            invariant
                i <= indices@.len(),
                self.wf(),
                indices@ == file_blocks(self@, slot),
                forall|j: int| 0 <= j < indices@.len() ==> 1 <= #[trigger] indices@[j] < 192,
                blocks@ == flat_blocks(self@, indices@.take(i as int)),
            decreases indices@.len() - i,
        {
            let start = BLOCK_LEN * (indices[i] as usize);
            let block = copy_range(self.bytes.as_slice(), start, start + BLOCK_LEN);
            append(&mut blocks, block.as_slice());
            proof {
                assert(indices@.take(i + 1).drop_last() =~= indices@.take(i as int));
            }
            i = i + 1;
        }
        assert(indices@.take(indices@.len() as int) =~= indices@);
        LsdSng::new(name, version, blocks)
    }

    /// Compress `song` into the filesystem as the file in slot `file`,
    /// under `name` and `version`.
    ///
    /// The song is first compressed into blocks of its own, one for each
    /// block that is free or already belongs to the slot, in ascending
    /// order. If those blocks are too few, this fails with
    /// [`CompressBlockError::NoBlockLeft`] and the filesystem is as it was.
    /// Otherwise the file that was in the slot is removed and returned,
    /// the name and version are entered, and the blocks are stored.
    #[verifier::rlimit(50)]
    pub fn insert_file(&mut self, file: Index, name: &Name<8>, version: u8, song: &SongMemory) -> (r:
        Result<Option<LsdSng>, CompressBlockError>)
        requires
            old(self).wf(),
            name.wf(),
        ensures
            final(self).wf(),
            match inserted(old(self)@, file.value(), name@, version, song@) {
                None => r == Err::<Option<LsdSng>, CompressBlockError>(
                    CompressBlockError::NoBlockLeft,
                ) && final(self)@ == old(self)@,
                Some(image) => r.is_ok() && final(self)@ == image && (r.unwrap().is_some()
                    == in_use(old(self)@, file.value())) && (r.unwrap().is_some() ==> exported(
                    old(self)@,
                    file.value(),
                    r.unwrap().unwrap(),
                )),
            },
    {
        let slot = file.get();
        let indices = self.candidate_blocks(file);
        let ghost image = self@;
        proof {
            lemma_candidates(image, slot, BLOCKS_CAPACITY as int);
        }
        proof {
            lemma_pack(song@, 0, indices@, 0, BLOCK_LEN as int);
        }
        let mut reader = Reader::new(song.as_slice());
        let blocks = match compress(&mut reader, indices.as_slice(), BLOCK_LEN) {
            Ok(blocks) => blocks,
            Err(e) => {
                return Err(e);
            },
        };
        let ghost packed_blocks = pack(song@, 0, indices@, 0, BLOCK_LEN as int).unwrap();
        let old_file = self.remove_file(file);
        let name_start = NAME_LEN * (slot as usize);
        copy_into(&mut self.bytes, name_start, name.bytes().as_slice());
        self.bytes.set(FILE_VERSIONS_START + slot as usize, version);
        let ghost base = self@;
        proof {
            let kept = with_header(removed(image, slot), slot, name@, version);
            if !in_use(image, slot) {
                assert forall|i: int| 0 <= i < FILESYSTEM_LEN implies base[i] == kept[i] by {
                    if i >= BLOCK_LEN {
                        let block = block_of(i);
                        assert(1 <= block < BLOCKS_CAPACITY) by (nonlinear_arith)
                            requires
                                block == i / 512,
                                512 <= i < 0x18000,
                        ;
                        assert(owner(image, block) != slot);
                    } else if ALLOC_TABLE_BASE < i {
                        assert(owner(image, i - ALLOC_TABLE_BASE) != slot);
                    }
                }
            }
            assert(base =~= kept);
        }
        let mut stored: usize = 0;
        while stored < blocks.len()
            invariant
                stored <= blocks@.len() <= indices@.len(),
                blocks@.len() == packed_blocks.len(),
                forall|j: int|
                    0 <= j < blocks@.len() ==> (#[trigger] blocks@[j])@ == packed_blocks[j]
                        && packed_blocks[j].len() == BLOCK_LEN,
                forall|j: int| 0 <= j < indices@.len() ==> 1 <= #[trigger] indices@[j] < 192,
                self@.len() == FILESYSTEM_LEN,
                is_marked(self@),
                slot < 32,
                self@ == store_blocks(base, slot, indices@, packed_blocks, stored as nat),
            decreases blocks@.len() - stored,
        {
            let block = indices[stored];
            self.bytes.set(ALLOC_TABLE_BASE + block as usize, slot);
            copy_into(&mut self.bytes, BLOCK_LEN * (block as usize), blocks[stored].as_slice());
            stored = stored + 1;
        }
        Ok(old_file)
    }

    /// The blocks that the file in `slot` owns, in ascending order.
    pub fn file_blocks(&self, index: Index) -> (blocks: Vec<u8>)
        requires
            self.wf(),
        ensures
            blocks@ == file_blocks(self@, index.value()),
    {
        let slot = index.get();
        let mut blocks: Vec<u8> = Vec::new();
        let mut block: usize = 1;
        while block < BLOCKS_CAPACITY
            invariant
                1 <= block <= BLOCKS_CAPACITY,
                self.wf(),
                slot == index.value(),
                blocks@ == blocks_below(self@, slot, block as int),
            decreases BLOCKS_CAPACITY - block,
        {
            if self.bytes[ALLOC_TABLE_BASE + block] == slot {
                blocks.push(block as u8);
            }
            block = block + 1;
        }
        blocks
    }

    /// The bytes of `block`.
    pub fn block(&self, block: u8) -> (bytes: Vec<u8>)
        requires
            self.wf(),
            block < BLOCKS_CAPACITY,
        ensures
            bytes@ == block_bytes(self@, block as int),
    {
        let start = BLOCK_LEN * (block as usize);
        copy_range(self.bytes.as_slice(), start, start + BLOCK_LEN)
    }

    /// The eight bytes in which the name of the file in slot `index` is
    /// kept.
    pub fn file_name(&self, index: Index) -> (bytes: Vec<u8>)
        requires
            self.wf(),
        ensures
            bytes@ == name_bytes(self@, index.value()),
    {
        let start = NAME_LEN * (index.get() as usize);
        copy_range(self.bytes.as_slice(), start, start + NAME_LEN)
    }

    /// The version kept for the file in slot `index`.
    pub fn file_version(&self, index: Index) -> (version: u8)
        requires
            self.wf(),
        ensures
            version == version_of(self@, index.value()),
    {
        self.bytes[FILE_VERSIONS_START + index.get() as usize]
    }
}

impl Default for Filesystem {
    /// A filesystem without files, with the marker bytes set.
    fn default() -> (fs: Self)
        ensures
            fs.wf(),
            fs@ == empty_image(),
    {
        Self::new()
    }
}

/// Whether `lsdsng` is the file in `slot` as it leaves the filesystem:
/// under its name, with its version, and with its blocks in ascending
/// order.
pub open spec fn exported(image: Seq<u8>, slot: u8, lsdsng: LsdSng) -> bool {
    &&& lsdsng.wf()
    &&& lsdsng.name@ == export_name(name_bytes(image, slot))
    &&& lsdsng.version == version_of(image, slot)
    &&& lsdsng.blocks@ == flat_blocks(image, file_blocks(image, slot))
}

/// A file in a filesystem: the filesystem and the slot of the file.
pub struct Entry<'a> {
    fs: &'a Filesystem,
    index: Index,
}

impl<'a> Entry<'a> {
    /// The bytes of the filesystem that the file is in.
    pub closed spec fn image(&self) -> Seq<u8> {
        self.fs@
    }

    /// The slot of the file.
    pub closed spec fn slot(&self) -> u8 {
        self.index.value()
    }

    /// The filesystem is well-formed and the slot is in use.
    pub closed spec fn wf(&self) -> bool {
        self.fs.wf() && self.index.value() < 32 && in_use(self.fs@, self.index.value())
    }

    /// The slot of the file.
    pub fn index(&self) -> (index: Index)
        ensures
            index.value() == self.slot(),
    {
        self.index
    }

    /// The name of the file.
    pub fn name(&self) -> (r: Result<Name<8>, FromBytesError>)
        requires
            self.wf(),
        ensures
            match first_invalid_from(name_bytes(self.image(), self.slot()), 0) {
                Some(index) => r == Err::<Name<8>, FromBytesError>(
                    FromBytesError::InvalidByte {
                        byte: name_bytes(self.image(), self.slot())[index],
                        index: index as usize,
                    },
                ),
                None => r.is_ok() && r.unwrap().wf() && r.unwrap()@ == padded(
                    name_bytes(self.image(), self.slot()),
                    NAME_LEN as nat,
                ),
            },
    {
        let bytes = self.fs.file_name(self.index);
        Name::<8>::from_bytes(bytes.as_slice())
    }

    /// The version of the file, which goes up with every save.
    pub fn version(&self) -> (version: u8)
        requires
            self.wf(),
        ensures
            version == version_of(self.image(), self.slot()),
    {
        self.fs.file_version(self.index)
    }

    /// Decompress the song stored in the file, starting with the lowest
    /// block that the slot owns and following the jumps from there.
    pub fn decompress(&self) -> (r: Result<SongMemory, SongReadError>)
        requires
            self.wf(),
        ensures
            match song_at(self.image(), file_blocks(self.image(), self.slot())[0] as int) {
                Ok(song) => r.is_ok() && r.unwrap()@ == song && r.unwrap().wf(),
                Err(e) => r == Err::<SongMemory, SongReadError>(e),
            },
    {
        let blocks = self.fs.file_blocks(self.index);
        proof {
            lemma_file_blocks(self.fs@, self.index.value(), BLOCKS_CAPACITY as int);
        }
        self.fs.decompress(blocks[0])
    }

    /// The file as an exported song: its name, its version and its blocks
    /// in ascending order, whatever order the jumps in them give.
    pub fn lsdsng(&self) -> (r: Result<LsdSng, FileToLsdSngError>)
        requires
            self.wf(),
        ensures
            match first_invalid_from(name_bytes(self.image(), self.slot()), 0) {
                Some(index) => r == Err::<LsdSng, FileToLsdSngError>(
                    FileToLsdSngError::Name(
                        FromBytesError::InvalidByte {
                            byte: name_bytes(self.image(), self.slot())[index],
                            index: index as usize,
                        },
                    ),
                ),
                None => r.is_ok() && exported(self.image(), self.slot(), r.unwrap()),
            },
    {
        match self.name() {
            Err(e) => Err(FileToLsdSngError::Name(e)),
            Ok(_) => Ok(self.fs.export(self.index)),
        }
    }
}

/// Why a file could not be made into an exported song.
#[derive(Debug, Clone, Copy, PartialEq, Eq, Structural)]
pub enum FileToLsdSngError {
    /// The bytes kept as the name of the file are not a name.
    Name(FromBytesError),
    /// Decompressing the song failed.
    Decompress(SongReadError),
    /// Compressing the song again failed.
    Compress(CompressBlockError),
}

/// A walk over the 32 slots of a filesystem, in order.
pub struct Entries<'a> {
    fs: &'a Filesystem,
    index: u8,
}

impl<'a> Entries<'a> {
    /// The bytes of the filesystem that is walked over.
    pub closed spec fn image(&self) -> Seq<u8> {
        self.fs@
    }

    /// The slot that comes next.
    pub closed spec fn position(&self) -> int {
        self.index as int
    }

    /// The filesystem is well-formed and the walk has not gone past the
    /// last slot.
    pub closed spec fn wf(&self) -> bool {
        self.fs.wf() && self.index <= 32
    }

    /// The file in the next slot, or `None` in place of it if the slot is
    /// not in use; `None` alone after the last slot.
    pub fn next(&mut self) -> (item: Option<Option<Entry<'a>>>)
        requires
            old(self).wf(),
        ensures
            final(self).wf(),
            final(self).image() == old(self).image(),
            0 <= old(self).position() <= 32,
            old(self).position() == 32 ==> item.is_none() && final(self).position() == 32,
            old(self).position() < 32 ==> item.is_some() && final(self).position() == old(
                self,
            ).position() + 1 && item.unwrap().is_some() == in_use(
                old(self).image(),
                old(self).position() as u8,
            ) && (item.unwrap().is_some() ==> item.unwrap().unwrap().wf()
                && item.unwrap().unwrap().image() == old(self).image()
                && item.unwrap().unwrap().slot() == old(self).position()),
    {
        if (self.index as usize) < FILES_CAPACITY {
            let fs = self.fs;
            let file = fs.file(Index::new(self.index));
            self.index = self.index + 1;
            Some(file)
        } else {
            None
        }
    }
}

/// Set the bytes of `bytes` from `start` up to `end` to `value`.
fn fill(bytes: &mut Vec<u8>, start: usize, end: usize, value: u8)
    requires
        start <= end <= old(bytes)@.len(),
    ensures
        final(bytes)@ == Seq::new(
            old(bytes)@.len(),
            |i: int|
                if start <= i < end {
                    value
                } else {
                    old(bytes)@[i]
                },
        ),
{
    let mut i: usize = start;
    while i < end
        invariant
            start <= i <= end <= bytes@.len(),
            bytes@.len() == old(bytes)@.len(),
            forall|j: int|
                0 <= j < bytes@.len() ==> bytes@[j] == if start <= j < i {
                    value
                } else {
                    old(bytes)@[j]
                },
        decreases end - i,
    {
        bytes.set(i, value);
        i = i + 1;
    }
    assert(bytes@ =~= Seq::new(
        old(bytes)@.len(),
        |i: int|
            if start <= i < end {
                value
            } else {
                old(bytes)@[i]
            },
    ));
}

/// Copy `src` into `dest` from index `at` on.
fn copy_into(dest: &mut Vec<u8>, at: usize, src: &[u8])
    requires
        at + src@.len() <= old(dest)@.len(),
    ensures
        final(dest)@ == overlay(old(dest)@, at as int, src@),
{
    let len = dest.len();
    let mut i: usize = 0;
    while i < src.len()
        invariant
            i <= src@.len(),
            at + src@.len() <= dest@.len(),
            dest@.len() == len,
            dest@.len() == old(dest)@.len(),
            dest@ == overlay(old(dest)@, at as int, src@.take(i as int)),
        decreases src@.len() - i,
    {
        dest.set(at + i, src[i]);
        i = i + 1;
        assert(dest@ =~= overlay(old(dest)@, at as int, src@.take(i as int)));
    }
    assert(src@.take(src@.len() as int) =~= src@);
}

} // verus!
