use lsdj::fs::{File, Index};
use lsdj::import::{Import, ImportError};
use lsdj::inspect::{memory_bar, BAR_LEN};
use lsdj::name::Name;
use lsdj::song::SongMemory;

/// A song that does not compress: each byte is written as it is, 508 to a
/// block, 65 blocks in all.
fn busy_song(seed: u8) -> SongMemory {
    let mut bytes = vec![0u8; 0x8000];
    for (index, byte) in bytes.iter_mut().enumerate() {
        *byte = ((index + seed as usize) % 100) as u8 + 1;
    }
    bytes[0x1E78] = 0x72;
    bytes[0x1E79] = 0x62;
    SongMemory::from_bytes(&bytes).unwrap()
}

#[test]
fn songs_are_imported_slot_after_slot() {
    let mut import = Import::new();
    let name = Name::<8>::from_str("ONE").unwrap();
    assert_eq!(import.insert(&name, 1, &SongMemory::new()), Ok(0));
    let other = Name::<8>::from_str("TWO").unwrap();
    assert_eq!(import.insert(&other, 2, &busy_song(1)), Ok(1));
    assert_eq!(import.len(), 2);

    let sram = import.into_sram();
    assert_eq!(sram.working_memory_song, SongMemory::new());
    assert_eq!(sram.filesystem.blocks_used_count(), 75);
    let first = sram.filesystem.file(Index::new(0)).unwrap();
    assert_eq!(first.name(), Ok(name));
    assert_eq!(first.version(), 1);
    let second = sram.filesystem.file(Index::new(1)).unwrap();
    assert_eq!(File::name(&second), Ok(other));
    assert_eq!(second.decompress().unwrap(), busy_song(1));
    assert!(sram.filesystem.file(Index::new(2)).is_none());
}

#[test]
fn import_runs_out_of_space() {
    let mut import = Import::new();
    let name = Name::<8>::from_str("BIG").unwrap();
    assert_eq!(import.insert(&name, 0, &busy_song(1)), Ok(0));
    assert_eq!(import.insert(&name, 0, &busy_song(2)), Ok(1));
    assert_eq!(
        import.insert(&name, 0, &busy_song(3)),
        Err(ImportError::OutOfSpace)
    );
    assert_eq!(import.len(), 2);
    // a smaller song still fits
    assert_eq!(import.insert(&name, 0, &SongMemory::new()), Ok(2));
    assert_eq!(import.into_sram().filesystem.blocks_used_count(), 140);
}

#[test]
fn import_runs_out_of_slots() {
    // a song of one byte value takes a single block
    let mut bytes = vec![0u8; 0x8000];
    bytes[0x7FF0] = 0x72;
    bytes[0x7FF1] = 0x62;
    let song = SongMemory::from_bytes(&bytes).unwrap();
    let mut import = Import::new();
    let name = Name::<8>::from_str("TINY").unwrap();
    for slot in 0..32 {
        assert_eq!(import.insert(&name, slot, &song), Ok(slot));
    }
    assert_eq!(
        import.insert(&name, 32, &song),
        Err(ImportError::FileLimitReached)
    );
    assert_eq!(import.len(), 32);
    assert_eq!(import.into_sram().filesystem.blocks_used_count(), 32);
}

#[test]
fn memory_bar_is_in_proportion() {
    assert_eq!(BAR_LEN, 24);
    assert_eq!(memory_bar(0), 0);
    assert_eq!(memory_bar(7), 0);
    assert_eq!(memory_bar(8), 1);
    assert_eq!(memory_bar(144), 18);
    assert_eq!(memory_bar(191), 23);
    assert_eq!(memory_bar(192), 24);
}
