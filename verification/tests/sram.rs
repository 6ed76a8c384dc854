use lsdj::fs::{Filesystem, FromReaderError as FilesystemReadError, Index};
use lsdj::io::{IoError, Reader, Writer};
use lsdj::name::Name;
use lsdj::sav::{Sav, SavReadError};
use lsdj::song::{FromBytesError, FromReaderError as SongReadError, SongMemory};
use lsdj::sram::{FromReaderError, SRam};

/// A save image with the empty song as working song and as the file in
/// slot 0, named `EMPTY`, version 0, which is the active file.
fn empty_sav() -> Vec<u8> {
    let mut sram = SRam::new();
    let name = Name::<8>::from_str("EMPTY").unwrap();
    sram.filesystem
        .insert_file(Index::new(0), &name, 0, &SongMemory::new())
        .unwrap();
    let mut writer = Writer::new(SRam::LEN);
    sram.to_writer(&mut writer).unwrap();
    let mut bytes = writer.into_bytes();
    bytes[0x8000 + 0x140] = 0;
    bytes
}

#[test]
fn empty_92l() {
    let bytes = empty_sav();
    let sav = Sav::from_reader(&mut Reader::new(&bytes)).expect("could not load sav");

    assert_eq!(sav.active_project(), Some(Index::new(0)));

    assert!(sav.is_project_in_use(0));
    assert_eq!(
        sav.project_name(0),
        Some(Ok(Name::<8>::from_bytes("EMPTY".as_bytes()).unwrap()))
    );
    assert_eq!(sav.project_version(0), Some(0));
    sav.decompress_song_memory(0).unwrap().unwrap();

    assert!(!sav.is_project_in_use(1));
    assert_eq!(sav.project_name(1), None);
    assert_eq!(sav.project_version(1), None);
    assert!(sav.decompress_song_memory(1).is_none());
}

#[test]
fn sav_looks_projects_up_by_number() {
    let bytes = empty_sav();
    let sav = Sav::from_reader(&mut Reader::new(&bytes)).unwrap();
    assert_eq!(sav.working_memory_song(), &SongMemory::new());
    assert_eq!(
        sav.decompress_song_memory(0),
        Some(Ok(SongMemory::new()))
    );
    assert!(!sav.is_project_in_use(32));
    assert!(!sav.is_project_in_use(0xFF));
    assert_eq!(sav.project_version(0xFF), None);
}

#[test]
fn sav_read_errors() {
    let bytes = empty_sav();
    assert_eq!(
        Sav::from_reader(&mut Reader::new(&bytes[..0x1FFFF])).err(),
        Some(SavReadError::Io(IoError::UnexpectedEof))
    );
    let mut broken = bytes.clone();
    broken[0x8000 + 0x13E] = 0;
    assert_eq!(
        Sav::from_reader(&mut Reader::new(&broken)).err(),
        Some(SavReadError::SramCheckIncorrect)
    );
}

#[test]
fn new_sram_is_empty() {
    let sram = SRam::new();
    assert_eq!(sram.working_memory_song, SongMemory::new());
    assert_eq!(sram.filesystem, Filesystem::new());
    assert_eq!(SRam::default(), sram);
}

#[test]
fn sram_round_trip() {
    let bytes = empty_sav();
    assert_eq!(bytes.len(), 131072);
    let sram = SRam::from_reader(&mut Reader::new(&bytes)).unwrap();
    assert_eq!(sram.filesystem.active_file(), Some(Index::new(0)));
    assert_eq!(sram.filesystem.blocks_used_count() >= 1, true);

    let mut writer = Writer::new(SRam::LEN);
    sram.to_writer(&mut writer).unwrap();
    assert_eq!(writer.as_slice(), bytes.as_slice());
}

#[test]
fn sram_read_errors() {
    let bytes = empty_sav();
    assert_eq!(
        SRam::from_reader(&mut Reader::new(&bytes[..100])),
        Err(FromReaderError::WorkingSong(SongReadError::Read(
            IoError::UnexpectedEof
        )))
    );
    assert_eq!(
        SRam::from_reader(&mut Reader::new(&bytes[..0x8100])),
        Err(FromReaderError::Filesystem(FilesystemReadError::Io(
            IoError::UnexpectedEof
        )))
    );
    let mut broken = bytes.clone();
    broken[0x8000 + 0x13F] = 0;
    assert_eq!(
        SRam::from_reader(&mut Reader::new(&broken)),
        Err(FromReaderError::Filesystem(
            FilesystemReadError::InitializationCheckIncorrect
        ))
    );
    let mut broken = bytes.clone();
    for offset in [0x1E78, 0x3E80, 0x7FF0] {
        broken[offset] = 0;
    }
    assert_eq!(
        SRam::from_reader(&mut Reader::new(&broken)),
        Err(FromReaderError::WorkingSong(SongReadError::FromBytes(
            FromBytesError::InitializationCheckIncorrect
        )))
    );
}

#[test]
fn sram_that_does_not_fit_is_cut() {
    let sram = SRam::new();
    let mut writer = Writer::new(0x8010);
    assert_eq!(sram.to_writer(&mut writer), Err(IoError::WriteZero));
    assert_eq!(&writer.as_slice()[..0x8000], SongMemory::new().as_slice());
    assert!(writer.as_slice()[0x8000..].iter().all(|byte| *byte == 0));
}
