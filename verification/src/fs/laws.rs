//! What holds of the filesystem across several operations.

use crate::codec::compress::{compress_from, lemma_pack, pack};
use crate::codec::decompress::{unpack_chain, IDLE_JUMPS};
use crate::codec::round_trip::{lemma_decode_block, lemma_subrange_split};
use crate::codec::End;
use crate::fs::filesystem::{
    block_bytes, block_of, blocks_below, candidates, candidates_below, file_blocks, flat_blocks,
    image_from_stream, in_use, inserted, is_marked, lemma_block_of, lemma_candidates,
    lemma_file_blocks, name_bytes, owner, removed, song_at, store_block, store_blocks,
    version_of, with_header, ALLOC_TABLE_BASE, BLOCKS_CAPACITY, BLOCK_LEN, FILESYSTEM_LEN,
    FILE_VERSIONS_START, NAME_LEN, UNUSED_BLOCK,
};
use crate::fs::FromReaderError;
use crate::lsdsng::lemma_block_advances;
use crate::song::song_memory::is_initialized;
use crate::song::{FromReaderError as SongReadError, SongMemory, Unpacked};
use vstd::prelude::*;

verus! {

/// Writing a filesystem out and reading it back gives the same
/// filesystem, byte for byte, whatever stands before and after it.
pub proof fn lemma_filesystem_round_trip(image: Seq<u8>, before: Seq<u8>, after: Seq<u8>)
    requires
        image.len() == FILESYSTEM_LEN,
        is_marked(image),
    ensures
        image_from_stream(before + image + after, before.len() as int) == Ok::<
            Seq<u8>,
            FromReaderError,
        >(image),
{
    let data = before + image + after;
    assert(data.subrange(before.len() as int, before.len() + FILESYSTEM_LEN) =~= image);
}

/// Where `block` stands among the first `count` of `indices`, looking
/// from the last of them; -1 if it is not among them.
pub open spec fn position_of(indices: Seq<u8>, count: nat, block: int) -> int
    decreases count,
{
    if count == 0 {
        -1
    } else if indices[count - 1] == block {
        count - 1
    } else {
        position_of(indices, (count - 1) as nat, block)
    }
}

/// What `position_of` finds is there, and what it does not find is not.
pub proof fn lemma_position_of(indices: Seq<u8>, count: nat, block: int)
    requires
        count <= indices.len(),
    ensures
        -1 <= position_of(indices, count, block) < count,
        position_of(indices, count, block) >= 0 ==> indices[position_of(indices, count, block)]
            == block,
        position_of(indices, count, block) == -1 ==> forall|j: int|
            0 <= j < count ==> #[trigger] indices[j] != block,
    decreases count,
{
    if count > 0 && indices[count - 1] != block {
        lemma_position_of(indices, (count - 1) as nat, block);
    }
}

/// Whether `indices` names data blocks in ascending order.
pub open spec fn ascending_blocks(indices: Seq<u8>) -> bool {
    &&& forall|j: int| 0 <= j < indices.len() ==> 1 <= #[trigger] indices[j] < BLOCKS_CAPACITY
    &&& forall|j: int, k: int|
        0 <= j < k < indices.len() ==> #[trigger] indices[j] < #[trigger] indices[k]
}

/// Among blocks in ascending order, each is found where it stands.
pub proof fn lemma_position_of_own(indices: Seq<u8>, count: nat, j: int)
    requires
        count <= indices.len(),
        0 <= j < count,
        ascending_blocks(indices),
    ensures
        position_of(indices, count, indices[j] as int) == j,
{
    lemma_position_of(indices, count, indices[j] as int);
    let found = position_of(indices, count, indices[j] as int);
    if found < j {
        assert(indices[found] < indices[j]);
    } else if found > j {
        assert(indices[j] < indices[found]);
    }
}

/// The byte at `i` after the first `count` of `blocks` have been stored in
/// the blocks that `indices` names: the slot in the table entry of such a
/// block, the byte stored within such a block, and the byte of `base`
/// everywhere else.
pub open spec fn stored_byte(
    base: Seq<u8>,
    slot: u8,
    indices: Seq<u8>,
    blocks: Seq<Seq<u8>>,
    count: nat,
    i: int,
) -> u8 {
    if ALLOC_TABLE_BASE < i < BLOCK_LEN {
        if position_of(indices, count, i - ALLOC_TABLE_BASE) >= 0 {
            slot
        } else {
            base[i]
        }
    } else if BLOCK_LEN <= i {
        let found = position_of(indices, count, block_of(i));
        if found >= 0 {
            blocks[found][i - BLOCK_LEN * block_of(i)]
        } else {
            base[i]
        }
    } else {
        base[i]
    }
}

/// Storing blocks one after the other leaves each byte as `stored_byte`
/// says.
#[verifier::rlimit(50)]
pub proof fn lemma_store_blocks(
    base: Seq<u8>,
    slot: u8,
    indices: Seq<u8>,
    blocks: Seq<Seq<u8>>,
    count: nat,
)
    requires
        base.len() == FILESYSTEM_LEN,
        count <= blocks.len(),
        count <= indices.len(),
        forall|j: int| 0 <= j < indices.len() ==> 1 <= #[trigger] indices[j] < BLOCKS_CAPACITY,
        forall|j: int| 0 <= j < count ==> (#[trigger] blocks[j]).len() == BLOCK_LEN,
    ensures
        store_blocks(base, slot, indices, blocks, count).len() == FILESYSTEM_LEN,
        forall|i: int|
            0 <= i < FILESYSTEM_LEN ==> #[trigger] store_blocks(
                base,
                slot,
                indices,
                blocks,
                count,
            )[i] == stored_byte(base, slot, indices, blocks, count, i),
    decreases count,
{
    if count > 0 {
        let fewer = (count - 1) as nat;
        let before = store_blocks(base, slot, indices, blocks, fewer);
        let after = store_blocks(base, slot, indices, blocks, count);
        let block = indices[count - 1];
        let bytes = blocks[count - 1];
        lemma_store_blocks(base, slot, indices, blocks, fewer);
        assert(after == store_block(before, slot, block, bytes));
        assert forall|i: int| 0 <= i < FILESYSTEM_LEN implies #[trigger] after[i] == stored_byte(
            base,
            slot,
            indices,
            blocks,
            count,
            i,
        ) by {
            lemma_block_of(i, block as int);
            assert(before[i] == stored_byte(base, slot, indices, blocks, fewer, i));
        }
    }
}

/// Two images in which the same blocks are free or owned by a slot offer
/// that slot the same blocks to write to.
pub proof fn lemma_candidates_same(first: Seq<u8>, second: Seq<u8>, slot: u8, upto: int)
    requires
        forall|block: int|
            1 <= block < upto ==> (#[trigger] owner(first, block) == UNUSED_BLOCK || owner(
                first,
                block,
            ) == slot) == (#[trigger] owner(second, block) == UNUSED_BLOCK || owner(second, block)
                == slot),
    ensures
        candidates_below(first, slot, upto) == candidates_below(second, slot, upto),
    decreases upto,
{
    if upto > 1 {
        lemma_candidates_same(first, second, slot, upto - 1);
        assert((owner(first, upto - 1) == UNUSED_BLOCK || owner(first, upto - 1) == slot) == (
        owner(second, upto - 1) == UNUSED_BLOCK || owner(second, upto - 1) == slot));
    }
}

/// Every block that may be written to is free or owned by the slot.
pub proof fn lemma_candidates_owned(image: Seq<u8>, slot: u8, upto: int)
    requires
        upto <= BLOCKS_CAPACITY,
    ensures
        forall|j: int|
            0 <= j < candidates_below(image, slot, upto).len() ==> owner(
                image,
                #[trigger] candidates_below(image, slot, upto)[j] as int,
            ) == UNUSED_BLOCK || owner(image, candidates_below(image, slot, upto)[j] as int)
                == slot,
    decreases upto,
{
    if upto > 1 {
        lemma_candidates_owned(image, slot, upto - 1);
        let fewer = candidates_below(image, slot, upto - 1);
        let all = candidates_below(image, slot, upto);
        assert forall|j: int| 0 <= j < all.len() implies owner(image, #[trigger] all[j] as int)
            == UNUSED_BLOCK || owner(image, all[j] as int) == slot by {
            if j < fewer.len() {
                assert(all[j] == fewer[j]);
            } else {
                assert(all[j] == (upto - 1) as u8);
            }
        }
    }
}

/// Which file owns `block` after an insertion into `slot` for which the
/// first `count` of `indices` were used.
pub open spec fn owner_after(image: Seq<u8>, slot: u8, indices: Seq<u8>, count: nat, block: int)
    -> u8 {
    if position_of(indices, count, block) >= 0 {
        slot
    } else if owner(image, block) == slot {
        UNUSED_BLOCK
    } else {
        owner(image, block)
    }
}

/// The table entries after an insertion.
pub proof fn lemma_owner_after(
    image: Seq<u8>,
    slot: u8,
    name: Seq<u8>,
    version: u8,
    indices: Seq<u8>,
    blocks: Seq<Seq<u8>>,
    block: int,
)
    requires
        image.len() == FILESYSTEM_LEN,
        slot < 32,
        name.len() == NAME_LEN,
        blocks.len() <= indices.len(),
        forall|j: int| 0 <= j < indices.len() ==> 1 <= #[trigger] indices[j] < BLOCKS_CAPACITY,
        forall|j: int| 0 <= j < blocks.len() ==> (#[trigger] blocks[j]).len() == BLOCK_LEN,
        1 <= block < BLOCKS_CAPACITY,
    ensures
        owner(
            store_blocks(
                with_header(removed(image, slot), slot, name, version),
                slot,
                indices,
                blocks,
                blocks.len(),
            ),
            block,
        ) == owner_after(image, slot, indices, blocks.len(), block),
{
    let base = with_header(removed(image, slot), slot, name, version);
    lemma_store_blocks(base, slot, indices, blocks, blocks.len());
    let after = store_blocks(base, slot, indices, blocks, blocks.len());
    assert(after[ALLOC_TABLE_BASE + block] == stored_byte(
        base,
        slot,
        indices,
        blocks,
        blocks.len(),
        ALLOC_TABLE_BASE + block,
    ));
}

/// A byte of a data block after an insertion: a byte of the block stored
/// there, a zero where the slot owned the block before, or the byte that
/// was there.
pub open spec fn data_after(
    image: Seq<u8>,
    slot: u8,
    indices: Seq<u8>,
    blocks: Seq<Seq<u8>>,
    i: int,
) -> u8 {
    let found = position_of(indices, blocks.len(), block_of(i));
    if found >= 0 {
        blocks[found][i - BLOCK_LEN * block_of(i)]
    } else if owner(image, block_of(i)) == slot {
        0u8
    } else {
        image[i]
    }
}

/// The bytes of the data blocks after an insertion.
pub proof fn lemma_data_after(
    image: Seq<u8>,
    slot: u8,
    name: Seq<u8>,
    version: u8,
    indices: Seq<u8>,
    blocks: Seq<Seq<u8>>,
    i: int,
)
    requires
        image.len() == FILESYSTEM_LEN,
        slot < 32,
        name.len() == NAME_LEN,
        blocks.len() <= indices.len(),
        forall|j: int| 0 <= j < indices.len() ==> 1 <= #[trigger] indices[j] < BLOCKS_CAPACITY,
        forall|j: int| 0 <= j < blocks.len() ==> (#[trigger] blocks[j]).len() == BLOCK_LEN,
        BLOCK_LEN <= i < FILESYSTEM_LEN,
    ensures
        store_blocks(
            with_header(removed(image, slot), slot, name, version),
            slot,
            indices,
            blocks,
            blocks.len(),
        )[i] == data_after(image, slot, indices, blocks, i),
{
    let base = with_header(removed(image, slot), slot, name, version);
    lemma_store_blocks(base, slot, indices, blocks, blocks.len());
    let after = store_blocks(base, slot, indices, blocks, blocks.len());
    assert(after[i] == stored_byte(base, slot, indices, blocks, blocks.len(), i));
    lemma_data_byte(i);
}

/// The bytes of the header block before the table after an insertion: the
/// name and the version entered, and elsewhere the byte that was there.
pub proof fn lemma_header_after(
    image: Seq<u8>,
    slot: u8,
    name: Seq<u8>,
    version: u8,
    indices: Seq<u8>,
    blocks: Seq<Seq<u8>>,
    i: int,
)
    requires
        image.len() == FILESYSTEM_LEN,
        slot < 32,
        name.len() == NAME_LEN,
        blocks.len() <= indices.len(),
        forall|j: int| 0 <= j < indices.len() ==> 1 <= #[trigger] indices[j] < BLOCKS_CAPACITY,
        forall|j: int| 0 <= j < blocks.len() ==> (#[trigger] blocks[j]).len() == BLOCK_LEN,
        0 <= i <= ALLOC_TABLE_BASE,
    ensures
        store_blocks(
            with_header(removed(image, slot), slot, name, version),
            slot,
            indices,
            blocks,
            blocks.len(),
        )[i] == if NAME_LEN * slot <= i < NAME_LEN * slot + NAME_LEN {
            name[i - NAME_LEN * slot]
        } else if i == FILE_VERSIONS_START + slot {
            version
        } else {
            image[i]
        },
{
    let base = with_header(removed(image, slot), slot, name, version);
    lemma_store_blocks(base, slot, indices, blocks, blocks.len());
    let after = store_blocks(base, slot, indices, blocks, blocks.len());
    assert(after[i] == stored_byte(base, slot, indices, blocks, blocks.len(), i));
}

/// Inserting the same song under the same name and version into the same
/// slot a second time succeeds and leaves the filesystem exactly as the
/// first insertion left it: the blocks in use do not add up.
#[verifier::rlimit(50)]
pub proof fn lemma_insert_twice(image: Seq<u8>, slot: u8, name: Seq<u8>, version: u8, song: Seq<u8>)
    requires
        image.len() == FILESYSTEM_LEN,
        slot < 32,
        name.len() == NAME_LEN,
        inserted(image, slot, name, version, song) is Some,
    ensures
        inserted(inserted(image, slot, name, version, song).unwrap(), slot, name, version, song)
            == inserted(image, slot, name, version, song),
{
    let indices = candidates(image, slot);
    let blocks = pack(song, 0, indices, 0, BLOCK_LEN as int).unwrap();
    let count = blocks.len();
    let once = store_blocks(
        with_header(removed(image, slot), slot, name, version),
        slot,
        indices,
        blocks,
        count,
    );
    lemma_candidates(image, slot, BLOCKS_CAPACITY as int);
    lemma_candidates_owned(image, slot, BLOCKS_CAPACITY as int);
    lemma_pack(song, 0, indices, 0, BLOCK_LEN as int);
    lemma_store_blocks(
        with_header(removed(image, slot), slot, name, version),
        slot,
        indices,
        blocks,
        count,
    );

    // the same blocks may be written to
    assert forall|block: int| 1 <= block < BLOCKS_CAPACITY implies (#[trigger] owner(once, block)
        == UNUSED_BLOCK || owner(once, block) == slot) == (#[trigger] owner(image, block)
        == UNUSED_BLOCK || owner(image, block) == slot) by {
        lemma_owner_after(image, slot, name, version, indices, blocks, block);
        lemma_position_of(indices, count, block);
    }
    lemma_candidates_same(once, image, slot, BLOCKS_CAPACITY as int);
    assert(candidates(once, slot) == indices);

    // and the same bytes are left
    let twice = store_blocks(
        with_header(removed(once, slot), slot, name, version),
        slot,
        indices,
        blocks,
        count,
    );
    lemma_store_blocks(
        with_header(removed(once, slot), slot, name, version),
        slot,
        indices,
        blocks,
        count,
    );
    assert forall|i: int| 0 <= i < FILESYSTEM_LEN implies twice[i] == once[i] by {
        if i <= ALLOC_TABLE_BASE {
            lemma_header_after(image, slot, name, version, indices, blocks, i);
            lemma_header_after(once, slot, name, version, indices, blocks, i);
        } else if i < BLOCK_LEN {
            let block = i - ALLOC_TABLE_BASE;
            lemma_owner_after(image, slot, name, version, indices, blocks, block);
            lemma_owner_after(once, slot, name, version, indices, blocks, block);
        } else {
            lemma_data_byte(i);
            lemma_owner_after(image, slot, name, version, indices, blocks, block_of(i));
            lemma_data_after(image, slot, name, version, indices, blocks, i);
            lemma_data_after(once, slot, name, version, indices, blocks, i);
        }
    }
    assert(twice =~= once);
}

/// A byte behind the header block lies in a data block.
proof fn lemma_data_byte(i: int)
    requires
        BLOCK_LEN <= i < FILESYSTEM_LEN,
    ensures
        1 <= block_of(i) < BLOCKS_CAPACITY,
{
    let block = block_of(i);
    assert(1 <= block < 192) by (nonlinear_arith)
        requires
            block == i / 512,
            512 <= i < 0x18000,
    ;
}

/// After a file has been removed its slot is not in use, and every other
/// slot owns the blocks it owned, with the bytes they held, under the name
/// and version kept for it.
pub proof fn lemma_removed(image: Seq<u8>, slot: u8, other: u8)
    requires
        image.len() == FILESYSTEM_LEN,
        slot < 32,
        other < 32,
        other != slot,
    ensures
        !in_use(removed(image, slot), slot),
        file_blocks(removed(image, slot), other) == file_blocks(image, other),
        flat_blocks(removed(image, slot), file_blocks(image, other)) == flat_blocks(
            image,
            file_blocks(image, other),
        ),
        name_bytes(removed(image, slot), other) == name_bytes(image, other),
        version_of(removed(image, slot), other) == version_of(image, other),
{
    let after = removed(image, slot);
    assert forall|block: int| 1 <= block < BLOCKS_CAPACITY implies #[trigger] owner(after, block)
        != slot && (owner(after, block) == other) == (owner(image, block) == other) by {}
    lemma_blocks_same(after, image, other, BLOCKS_CAPACITY as int);
    assert(name_bytes(after, other) =~= name_bytes(image, other));
    lemma_file_blocks(image, other, BLOCKS_CAPACITY as int);
    lemma_flat_blocks_same(after, image, file_blocks(image, other), slot);
}

/// Two images in which a slot owns the same blocks give the same list of
/// its blocks.
pub proof fn lemma_blocks_same(first: Seq<u8>, second: Seq<u8>, slot: u8, upto: int)
    requires
        forall|block: int|
            1 <= block < upto ==> (#[trigger] owner(first, block) == slot) == (#[trigger] owner(
                second,
                block,
            ) == slot),
    ensures
        blocks_below(first, slot, upto) == blocks_below(second, slot, upto),
    decreases upto,
{
    if upto > 1 {
        lemma_blocks_same(first, second, slot, upto - 1);
        assert((owner(first, upto - 1) == slot) == (owner(second, upto - 1) == slot));
    }
}

/// Removing a file leaves the bytes of the blocks that it does not own.
pub proof fn lemma_flat_blocks_same(after: Seq<u8>, image: Seq<u8>, blocks: Seq<u8>, slot: u8)
    requires
        image.len() == FILESYSTEM_LEN,
        slot < 32,
        after == removed(image, slot),
        forall|j: int|
            0 <= j < blocks.len() ==> 1 <= #[trigger] blocks[j] < BLOCKS_CAPACITY && owner(
                image,
                blocks[j] as int,
            ) != slot,
    ensures
        flat_blocks(after, blocks) == flat_blocks(image, blocks),
    decreases blocks.len(),
{
    if blocks.len() > 0 {
        lemma_flat_blocks_same(after, image, blocks.drop_last(), slot);
        let block = blocks.last() as int;
        assert forall|i: int| BLOCK_LEN * block <= i < BLOCK_LEN * block
            + BLOCK_LEN implies after[i] == image[i] by {
            lemma_block_of(i, block);
        }
        assert(block_bytes(after, block) =~= block_bytes(image, block));
    }
}

/// The number of blocks that `src` takes from `pos` on.
pub open spec fn blocks_needed(src: Seq<u8>, pos: int) -> nat
    decreases src.len() - pos,
{
    let packed = compress_from(src, pos, BLOCK_LEN as int, Some(0u8));
    match packed.end {
        Ok(End::JumpToBlock(_)) => {
            if 0 <= pos {
                proof {
                    lemma_block_advances(src, pos, Some(0u8));
                }
                1 + blocks_needed(src, packed.pos)
            } else {
                1
            }
        },
        _ => 1,
    }
}

/// A source packs into the blocks given exactly if they are as many as
/// it needs, and then it takes exactly that many.
pub proof fn lemma_blocks_needed(src: Seq<u8>, pos: int, indices: Seq<u8>, from: int)
    requires
        0 <= pos,
        0 <= from <= indices.len(),
    ensures
        pack(src, pos, indices, from, BLOCK_LEN as int) is Ok <==> indices.len() - from
            >= blocks_needed(src, pos),
        pack(src, pos, indices, from, BLOCK_LEN as int) matches Ok(blocks) ==> blocks.len()
            == blocks_needed(src, pos),
    decreases indices.len() - from,
{
    if from < indices.len() {
        let next = if from + 1 < indices.len() {
            Some(indices[from + 1])
        } else {
            None
        };
        let packed = compress_from(src, pos, BLOCK_LEN as int, next);
        lemma_block_advances(src, pos, next);
        lemma_block_advances(src, pos, Some(0u8));
        match packed.end {
            Ok(End::JumpToBlock(_)) => {
                lemma_blocks_needed(src, packed.pos, indices, from + 1);
            },
            _ => {},
        }
    }
}

/// Inserting a song fails exactly if the blocks that are free or already
/// belong to the slot are fewer than the song needs.
pub proof fn lemma_capacity_bound(
    image: Seq<u8>,
    slot: u8,
    name: Seq<u8>,
    version: u8,
    song: Seq<u8>,
)
    ensures
        inserted(image, slot, name, version, song) is None <==> candidates(image, slot).len()
            < blocks_needed(song, 0),
{
    lemma_blocks_needed(song, 0, candidates(image, slot), 0);
}

/// The first block that a slot owns is the lowest block whose table entry
/// names the slot.
pub proof fn lemma_first_block(image: Seq<u8>, slot: u8, upto: int, first: int)
    requires
        1 <= first < upto <= BLOCKS_CAPACITY,
        owner(image, first) == slot,
        forall|block: int| 1 <= block < first ==> #[trigger] owner(image, block) != slot,
    ensures
        blocks_below(image, slot, upto).len() > 0,
        blocks_below(image, slot, upto)[0] == first,
    decreases upto,
{
    if upto - 1 > first {
        lemma_first_block(image, slot, upto - 1, first);
    } else {
        lemma_no_block_below(image, slot, first);
    }
}

/// A slot that owns no block below `upto` has no blocks there.
pub proof fn lemma_no_block_below(image: Seq<u8>, slot: u8, upto: int)
    requires
        forall|block: int| 1 <= block < upto ==> #[trigger] owner(image, block) != slot,
    ensures
        blocks_below(image, slot, upto).len() == 0,
    decreases upto,
{
    if upto > 1 {
        lemma_no_block_below(image, slot, upto - 1);
    }
}

/// Where the blocks that a source packs into stand in `data`, each in the
/// block that its index names, following the jumps from the first of them
/// gives back the source.
#[verifier::rlimit(50)]
pub proof fn lemma_unpack_packed(
    src: Seq<u8>,
    pos: int,
    indices: Seq<u8>,
    from: int,
    data: Seq<u8>,
    room: int,
    idle: nat,
)
    requires
        0 <= pos <= src.len(),
        0 <= from,
        ascending_blocks(indices),
        data.len() == FILESYSTEM_LEN,
        room >= src.len() - pos,
        pack(src, pos, indices, from, BLOCK_LEN as int) is Ok,
        forall|j: int|
            0 <= j < pack(src, pos, indices, from, BLOCK_LEN as int).unwrap().len()
                ==> data.subrange(
                BLOCK_LEN * indices[from + j],
                BLOCK_LEN * indices[from + j] + BLOCK_LEN,
            ) == #[trigger] pack(src, pos, indices, from, BLOCK_LEN as int).unwrap()[j],
    ensures
        from < indices.len(),
        unpack_chain(data, 0, BLOCK_LEN * indices[from], room, idle) == (Unpacked {
            out: src.subrange(pos, src.len() as int),
            error: None,
        }),
    decreases indices.len() - from,
{
    let blocks = pack(src, pos, indices, from, BLOCK_LEN as int).unwrap();
    let next = if from + 1 < indices.len() {
        Some(indices[from + 1])
    } else {
        None
    };
    let at = BLOCK_LEN * indices[from];
    let packed = compress_from(src, pos, BLOCK_LEN as int, next);
    lemma_pack(src, pos, indices, from, BLOCK_LEN as int);
    lemma_block_advances(src, pos, next);
    assert(blocks[0] == packed.out);
    assert(data.subrange(BLOCK_LEN * indices[from + 0], BLOCK_LEN * indices[from + 0] + BLOCK_LEN)
        == blocks[0]);
    lemma_decode_block(src, pos, BLOCK_LEN as int, next, data, at, room);
    match packed.end {
        Ok(End::JumpToBlock(_)) => {
            let rest = pack(src, packed.pos, indices, from + 1, BLOCK_LEN as int).unwrap();
            assert(blocks == seq![packed.out] + rest);
            assert forall|j: int| 0 <= j < rest.len() implies data.subrange(
                BLOCK_LEN * indices[from + 1 + j],
                BLOCK_LEN * indices[from + 1 + j] + BLOCK_LEN,
            ) == #[trigger] rest[j] by {
                assert(blocks[j + 1] == rest[j]);
                assert(data.subrange(
                    BLOCK_LEN * indices[from + (j + 1)],
                    BLOCK_LEN * indices[from + (j + 1)] + BLOCK_LEN,
                ) == blocks[j + 1]);
            }
            lemma_unpack_packed(
                src,
                packed.pos,
                indices,
                from + 1,
                data,
                room - (packed.pos - pos),
                IDLE_JUMPS as nat,
            );
            lemma_subrange_split(src, pos, packed.pos, src.len() as int);
        },
        _ => {},
    }
}

/// After a song has been inserted, its slot is in use, the name and the
/// version entered are kept for it, and following the jumps from the
/// first block of the slot gives back the song, byte for byte.
#[verifier::rlimit(50)]
pub proof fn lemma_inserted_song(
    image: Seq<u8>,
    slot: u8,
    name: Seq<u8>,
    version: u8,
    song: Seq<u8>,
)
    requires
        image.len() == FILESYSTEM_LEN,
        slot < 32,
        name.len() == NAME_LEN,
        song.len() == SongMemory::LEN,
        is_initialized(song),
        inserted(image, slot, name, version, song) is Some,
    ensures
        in_use(inserted(image, slot, name, version, song).unwrap(), slot),
        name_bytes(inserted(image, slot, name, version, song).unwrap(), slot) == name,
        version_of(inserted(image, slot, name, version, song).unwrap(), slot) == version,
        song_at(
            inserted(image, slot, name, version, song).unwrap(),
            file_blocks(inserted(image, slot, name, version, song).unwrap(), slot)[0] as int,
        ) == Ok::<Seq<u8>, SongReadError>(song),
{
    let indices = candidates(image, slot);
    let blocks = pack(song, 0, indices, 0, BLOCK_LEN as int).unwrap();
    let count = blocks.len();
    let base = with_header(removed(image, slot), slot, name, version);
    let after = store_blocks(base, slot, indices, blocks, count);
    lemma_candidates(image, slot, BLOCKS_CAPACITY as int);
    lemma_pack(song, 0, indices, 0, BLOCK_LEN as int);
    assert(ascending_blocks(indices));
    lemma_store_blocks(base, slot, indices, blocks, count);

    // the header
    assert forall|i: int| 0 <= i < NAME_LEN implies after[NAME_LEN * slot + i] == name[i] by {
        lemma_header_after(image, slot, name, version, indices, blocks, NAME_LEN * slot + i);
    }
    assert(name_bytes(after, slot) =~= name);
    lemma_header_after(image, slot, name, version, indices, blocks, FILE_VERSIONS_START + slot);

    // the first block of the slot
    let first = indices[0];
    lemma_position_of_own(indices, count, 0);
    lemma_owner_after(image, slot, name, version, indices, blocks, first as int);
    assert forall|block: int| 1 <= block < first implies #[trigger] owner(after, block)
        != slot by {
        lemma_owner_after(image, slot, name, version, indices, blocks, block);
        lemma_position_of(indices, count, block);
        let found = position_of(indices, count, block);
        if found >= 0 {
            assert(indices[0] <= indices[found]);
        }
    }
    lemma_first_block(after, slot, BLOCKS_CAPACITY as int, first as int);

    // the chain of blocks
    assert forall|j: int| 0 <= j < count implies after.subrange(
        BLOCK_LEN * indices[0 + j],
        BLOCK_LEN * indices[0 + j] + BLOCK_LEN,
    ) == #[trigger] blocks[j] by {
        let at = BLOCK_LEN * indices[j];
        lemma_position_of_own(indices, count, j);
        assert forall|k: int| 0 <= k < BLOCK_LEN implies after[at + k] == blocks[j][k] by {
            lemma_block_of(at + k, indices[j] as int);
            lemma_data_after(image, slot, name, version, indices, blocks, at + k);
        }
        assert(after.subrange(at, at + BLOCK_LEN) =~= blocks[j]);
    }
    lemma_unpack_packed(song, 0, indices, 0, after, SongMemory::LEN as int, IDLE_JUMPS as nat);
    assert(song.subrange(0, song.len() as int) =~= song);
}

} // verus!
