use lsdj::codec::compress::CompressBlockError;
use lsdj::fs::{Filesystem, FromReaderError, Index};
use lsdj::io::{IoError, Reader, Writer};
use lsdj::lsdsng::LsdSng;
use lsdj::name::{FromBytesError, Name};
use lsdj::song::{FromReaderError as SongReadError, SongMemory};
use lsdj::sram::SRam;

/// A save image with the empty song as working song and as the file in
/// slot 0, named `EMPTY`, version 0, which is the active file.
fn empty_sav() -> Vec<u8> {
    let mut sram = SRam::new();
    let name = Name::<8>::from_str("EMPTY").unwrap();
    sram.filesystem
        .insert_file(Index::new(0), &name, 0, &SongMemory::new())
        .unwrap();
    let mut writer = Writer::new(SRam::LEN);
    sram.to_writer(&mut writer).unwrap();
    let mut bytes = writer.into_bytes();
    bytes[0x8000 + 0x140] = 0;
    bytes
}

fn image_of(filesystem: &Filesystem) -> Vec<u8> {
    let mut writer = Writer::new(0x18000);
    filesystem.to_writer(&mut writer).unwrap();
    writer.into_bytes()
}

/// A song that does not compress: no byte repeats its neighbour, and none
/// is a reserved byte. Each byte is written as it is, 508 to a block.
fn busy_song(seed: u8) -> SongMemory {
    let mut bytes = vec![0u8; 0x8000];
    for (index, byte) in bytes.iter_mut().enumerate() {
        *byte = ((index + seed as usize) % 100) as u8 + 1;
    }
    bytes[0x1E78] = 0x72;
    bytes[0x1E79] = 0x62;
    SongMemory::from_bytes(&bytes).unwrap()
}

#[test]
fn filesystem_empty_92l() {
    let sav = empty_sav();
    let mut filesystem = {
        let mut bytes = Reader::new(&sav);
        bytes.seek(0x8000);
        Filesystem::from_reader(&mut bytes).expect("could not parse filesystem")
    };

    assert_eq!(filesystem.active_file(), Some(Index::new(0)));

    assert!(filesystem.is_file_in_use(Index::new(0)));
    let file = filesystem.file(Index::new(0)).unwrap();
    assert_eq!(file.name(), Ok(Name::<8>::from_str("EMPTY").unwrap()));
    assert_eq!(file.version(), 0);

    let song = file.decompress().unwrap();
    assert_eq!(song.format_version(), 0x16);

    assert!(!filesystem.is_file_in_use(Index::new(1)));
    assert!(filesystem.file(Index::new(1)).is_none());

    filesystem.remove_file(Index::new(0));
    assert!(!filesystem.is_file_in_use(Index::new(0)));
}

#[test]
fn filesystem_insert() {
    let mut filesystem = Filesystem::new();

    let name = Name::<8>::from_str("EMPTY").unwrap();
    let song = SongMemory::new();

    let old = filesystem
        .insert_file(Index::new(0), &name, 0, &song)
        .unwrap();

    assert!(filesystem.is_file_in_use(Index::new(0)));
    assert!(old.is_none());

    let old = filesystem
        .insert_file(Index::new(0), &name, 0, &song)
        .unwrap();
    assert!(filesystem.is_file_in_use(Index::new(0)));
    assert!(old.is_some());
}

#[test]
fn mod_insert() {
    let mut filesystem = Filesystem::new();
    let name = Name::<8>::from_str("EMPTY").unwrap();

    filesystem
        .insert_file(Index::new(0), &name, 0, &SongMemory::new())
        .unwrap();

    let file = filesystem.file(Index::new(0)).unwrap();
    assert_eq!(file.decompress().unwrap(), SongMemory::new());
}

#[test]
fn new_filesystem_is_empty() {
    let filesystem = Filesystem::new();
    assert_eq!(filesystem.blocks_used_count(), 0);
    assert_eq!(filesystem.active_file(), None);
    for slot in 0..32 {
        assert!(!filesystem.is_file_in_use(Index::new(slot)));
        assert!(filesystem.file(Index::new(slot)).is_none());
    }
    let image = image_of(&filesystem);
    assert_eq!(image.len(), 98304);
    assert_eq!(&image[0x13E..0x140], [0x6A, 0x6B]);
    assert_eq!(image[0x140], 0xFF);
    assert!(image[0x141..0x200].iter().all(|byte| *byte == 0xFF));
    assert!(image[..0x13E].iter().all(|byte| *byte == 0));
    assert!(image[0x200..].iter().all(|byte| *byte == 0));
    assert_eq!(Filesystem::default(), filesystem);
}

#[test]
fn files_walks_all_slots_in_order() {
    let mut filesystem = Filesystem::new();
    let name = Name::<8>::from_str("SONG").unwrap();
    filesystem
        .insert_file(Index::new(3), &name, 7, &SongMemory::new())
        .unwrap();

    let mut entries = filesystem.files();
    let mut seen = Vec::new();
    while let Some(entry) = entries.next() {
        seen.push(entry.map(|file| (file.index(), file.version())));
    }
    assert_eq!(seen.len(), 32);
    for (slot, entry) in seen.iter().enumerate() {
        if slot == 3 {
            assert_eq!(*entry, Some((Index::new(3), 7)));
        } else {
            assert_eq!(*entry, None);
        }
    }
    assert!(entries.next().is_none());
}

#[test]
fn container_round_trip() {
    let mut filesystem = Filesystem::new();
    let name = Name::<8>::from_str("ROUND").unwrap();
    filesystem
        .insert_file(Index::new(5), &name, 2, &busy_song(1))
        .unwrap();

    let image = image_of(&filesystem);
    let parsed = Filesystem::from_reader(&mut Reader::new(&image)).unwrap();
    assert_eq!(parsed, filesystem);
    assert_eq!(image_of(&parsed), image);
    assert_eq!(parsed.blocks_used_count(), filesystem.blocks_used_count());
}

#[test]
fn filesystem_without_check_bytes_is_rejected() {
    let mut image = image_of(&Filesystem::new());
    image[0x13F] = 0;
    assert_eq!(
        Filesystem::from_reader(&mut Reader::new(&image)),
        Err(FromReaderError::InitializationCheckIncorrect)
    );
    let mut image = image_of(&Filesystem::new());
    image[0x13E] = 0;
    assert_eq!(
        Filesystem::from_reader(&mut Reader::new(&image)),
        Err(FromReaderError::InitializationCheckIncorrect)
    );
}

#[test]
fn short_filesystem_is_rejected() {
    let image = image_of(&Filesystem::new());
    assert_eq!(
        Filesystem::from_reader(&mut Reader::new(&image[..0x17FFF])),
        Err(FromReaderError::Io(IoError::UnexpectedEof))
    );
}

#[test]
fn inserted_song_comes_back() {
    let mut filesystem = Filesystem::new();
    let song = busy_song(3);
    let name = Name::<8>::from_str("BUSY").unwrap();
    assert_eq!(
        filesystem.insert_file(Index::new(31), &name, 0x42, &song),
        Ok(None)
    );
    let file = filesystem.file(Index::new(31)).unwrap();
    assert_eq!(file.name(), Ok(name));
    assert_eq!(file.version(), 0x42);
    assert_eq!(file.decompress().unwrap(), song);
    // 32768 bytes, 508 to a block
    assert_eq!(filesystem.blocks_used_count(), 65);
    let image = image_of(&filesystem);
    assert_eq!(&image[0x200..0x200 + 508], &song.as_slice()[..508]);
    assert_eq!(&image[0x200 + 508..0x400], [0xE0, 2, 0, 0]);
    assert_eq!(&image[0x400..0x400 + 508], &song.as_slice()[508..1016]);
    let last = 0x200 + 64 * 512;
    assert_eq!(&image[last..last + 256], &song.as_slice()[64 * 508..]);
    assert_eq!(&image[last + 256..last + 258], [0xE0, 0xFF]);
    assert!(image[last + 258..].iter().all(|byte| *byte == 0));
}

#[test]
fn empty_song_takes_few_blocks() {
    let mut filesystem = Filesystem::new();
    let name = Name::<8>::from_str("EMPTY").unwrap();
    filesystem
        .insert_file(Index::new(0), &name, 0, &SongMemory::new())
        .unwrap();
    let used = filesystem.blocks_used_count();
    assert_eq!(used, 10);
    let image = image_of(&filesystem);
    for block in 1..=used {
        assert_eq!(image[0x140 + block], 0);
    }
    assert_eq!(image[0x141 + used], 0xFF);
    assert_eq!(&image[0..8], b"EMPTY\0\0\0");
}

#[test]
fn idempotent_insertion() {
    let mut filesystem = Filesystem::new();
    let other = Name::<8>::from_str("OTHER").unwrap();
    filesystem
        .insert_file(Index::new(1), &other, 1, &SongMemory::new())
        .unwrap();

    let name = Name::<8>::from_str("TWICE").unwrap();
    let song = busy_song(9);
    assert_eq!(
        filesystem.insert_file(Index::new(0), &name, 4, &song),
        Ok(None)
    );
    let used = filesystem.blocks_used_count();
    let image = image_of(&filesystem);

    let old = filesystem
        .insert_file(Index::new(0), &name, 4, &song)
        .unwrap()
        .unwrap();
    assert_eq!(filesystem.blocks_used_count(), used);
    assert_eq!(image_of(&filesystem), image);
    assert_eq!(old.name, name);
    assert_eq!(old.version, 4);
    assert_eq!(old.decompress().unwrap(), song);
}

#[test]
fn capacity_bound() {
    let mut filesystem = Filesystem::new();
    let name = Name::<8>::from_str("FULL").unwrap();
    // 65 blocks each: two fit into the 191 data blocks, a third does not
    filesystem
        .insert_file(Index::new(0), &name, 0, &busy_song(1))
        .unwrap();
    filesystem
        .insert_file(Index::new(1), &name, 0, &busy_song(2))
        .unwrap();
    assert_eq!(filesystem.blocks_used_count(), 130);
    let image = image_of(&filesystem);

    assert_eq!(
        filesystem.insert_file(Index::new(2), &name, 0, &busy_song(3)),
        Err(CompressBlockError::NoBlockLeft)
    );
    assert_eq!(filesystem.blocks_used_count(), 130);
    assert_eq!(image_of(&filesystem), image);
    assert!(!filesystem.is_file_in_use(Index::new(2)));

    // a slot may use its own blocks again
    assert!(filesystem
        .insert_file(Index::new(1), &name, 1, &busy_song(4))
        .unwrap()
        .is_some());
    assert_eq!(filesystem.blocks_used_count(), 130);
}

#[test]
fn remove_frees_and_zeroes() {
    let mut filesystem = Filesystem::new();
    let name = Name::<8>::from_str("GONE").unwrap();
    let song = busy_song(5);
    filesystem
        .insert_file(Index::new(2), &name, 9, &song)
        .unwrap();
    let before = image_of(&filesystem);

    let removed = filesystem.remove_file(Index::new(2)).unwrap();
    assert_eq!(removed.name, name);
    assert_eq!(removed.version, 9);
    assert_eq!(removed.blocks.len(), 65 * 512);
    assert_eq!(removed.blocks, before[0x200..0x200 + 65 * 512]);
    assert_eq!(removed.decompress().unwrap(), song);

    assert_eq!(image_of(&filesystem), image_of(&Filesystem::new()));
    assert_eq!(filesystem.blocks_used_count(), 0);
    assert_eq!(filesystem.remove_file(Index::new(2)), None);
}

#[test]
fn blocks_interleave_and_decompress_follows_the_jumps() {
    let mut filesystem = Filesystem::new();
    let name = Name::<8>::from_str("A").unwrap();
    let first = busy_song(1);
    let second = busy_song(2);
    let third = busy_song(3);
    filesystem
        .insert_file(Index::new(0), &name, 0, &SongMemory::new())
        .unwrap();
    let small = filesystem.blocks_used_count();
    filesystem
        .insert_file(Index::new(1), &name, 0, &first)
        .unwrap();
    // slot 0 grows: it keeps its own blocks and goes on behind slot 1
    filesystem
        .insert_file(Index::new(0), &name, 1, &second)
        .unwrap();
    assert_eq!(filesystem.blocks_used_count(), 130);
    let image = image_of(&filesystem);
    assert_eq!(image[0x141], 0);
    assert_eq!(image[0x141 + small], 1);
    assert_eq!(image[0x141 + small + 65], 0);

    let file = filesystem.file(Index::new(0)).unwrap();
    assert_eq!(file.decompress().unwrap(), second);
    assert_eq!(
        filesystem
            .file(Index::new(1))
            .unwrap()
            .decompress()
            .unwrap(),
        first
    );

    // the export keeps the blocks in ascending order, and reads them so
    let lsdsng = file.lsdsng().unwrap();
    assert_eq!(lsdsng.decompress().unwrap(), second);
    assert_ne!(third, second);
}

#[test]
fn entry_with_a_broken_name() {
    let mut filesystem = Filesystem::new();
    let name = Name::<8>::from_str("OK").unwrap();
    filesystem
        .insert_file(Index::new(0), &name, 0, &SongMemory::new())
        .unwrap();
    let mut image = image_of(&filesystem);
    image[1] = b'!';
    let mut filesystem = Filesystem::from_reader(&mut Reader::new(&image)).unwrap();
    let file = filesystem.file(Index::new(0)).unwrap();
    assert_eq!(
        file.name(),
        Err(FromBytesError::InvalidByte { byte: b'!', index: 1 })
    );
    assert!(file.lsdsng().is_err());
    // on removal the file leaves under the empty name
    let removed = filesystem.remove_file(Index::new(0)).unwrap();
    assert_eq!(removed.name, Name::<8>::default());
}

#[test]
fn active_file_out_of_range_is_none() {
    let mut image = image_of(&Filesystem::new());
    image[0x140] = 31;
    let filesystem = Filesystem::from_reader(&mut Reader::new(&image)).unwrap();
    assert_eq!(filesystem.active_file(), Some(Index::new(31)));
    image[0x140] = 32;
    let filesystem = Filesystem::from_reader(&mut Reader::new(&image)).unwrap();
    assert_eq!(filesystem.active_file(), None);
    assert_eq!(Index::try_new(32), None);
    assert_eq!(Index::try_new(31).unwrap().get(), 31);
}

#[test]
fn corrupt_chains_fail() {
    let fresh = image_of(&Filesystem::new());

    // block 1 jumps to itself and writes nothing
    let mut image = fresh.clone();
    image[0x141] = 0;
    image[0x200] = 0xE0;
    image[0x201] = 1;
    let filesystem = Filesystem::from_reader(&mut Reader::new(&image)).unwrap();
    let file = filesystem.file(Index::new(0)).unwrap();
    assert_eq!(file.decompress(), Err(SongReadError::EndlessJumps));

    // block 1 writes a byte and jumps to itself
    let mut image = fresh.clone();
    image[0x141] = 0;
    image[0x200] = 7;
    image[0x201] = 0xE0;
    image[0x202] = 1;
    let filesystem = Filesystem::from_reader(&mut Reader::new(&image)).unwrap();
    let file = filesystem.file(Index::new(0)).unwrap();
    assert_eq!(
        file.decompress(),
        Err(SongReadError::Read(IoError::WriteZero))
    );

    // block 1 ends the file at once
    let mut image = fresh.clone();
    image[0x141] = 0;
    image[0x200] = 0xE0;
    image[0x201] = 0xFF;
    let filesystem = Filesystem::from_reader(&mut Reader::new(&image)).unwrap();
    let file = filesystem.file(Index::new(0)).unwrap();
    assert_eq!(file.decompress(), Err(SongReadError::Incomplete));

    // block 1 jumps beyond the filesystem
    let mut image = fresh.clone();
    image[0x141] = 0;
    image[0x200] = 0xE0;
    image[0x201] = 200;
    let filesystem = Filesystem::from_reader(&mut Reader::new(&image)).unwrap();
    let file = filesystem.file(Index::new(0)).unwrap();
    assert_eq!(
        file.decompress(),
        Err(SongReadError::Read(IoError::UnexpectedEof))
    );
}

#[test]
fn export_and_reimport() {
    let mut filesystem = Filesystem::new();
    let name = Name::<8>::from_str("EXPORT").unwrap();
    let song = busy_song(8);
    filesystem
        .insert_file(Index::new(4), &name, 3, &song)
        .unwrap();
    let lsdsng: LsdSng = filesystem.file(Index::new(4)).unwrap().lsdsng().unwrap();
    assert_eq!(lsdsng.name, name);
    assert_eq!(lsdsng.version, 3);
    let decompressed = lsdsng.decompress().unwrap();
    assert_eq!(decompressed, song);

    let mut other = Filesystem::new();
    other
        .insert_file(Index::new(0), &lsdsng.name, lsdsng.version, &decompressed)
        .unwrap();
    assert_eq!(
        other.file(Index::new(0)).unwrap().decompress().unwrap(),
        song
    );
}
