use lsdj::fs::Index;
use lsdj::io::{IoError, Reader, Writer};
use lsdj::name::Name;
use lsdj::song::{FromBytesError, FromReaderError, SongMemory};
use lsdj::sram::SRam;

/// A save image with the empty song as working song and as the file in
/// slot 0, named `EMPTY`, version 0, which is the active file.
fn empty_sav() -> Vec<u8> {
    let mut sram = SRam::new();
    let name = Name::<8>::from_str("EMPTY").unwrap();
    sram.filesystem
        .insert_file(Index::new(0), &name, 0, &SongMemory::new())
        .unwrap();
    let mut writer = Writer::new(SRam::LEN);
    sram.to_writer(&mut writer).unwrap();
    let mut bytes = writer.into_bytes();
    bytes[0x8000 + 0x140] = 0;
    bytes
}

/// The empty song, filled in range by range.
fn empty_raw() -> Vec<u8> {
    let mut bytes = vec![0u8; 0x8000];
    bytes[0x0ff0..0x1000].fill(0xFF);
    for i in (0x1090..0x1290).step_by(16) {
        bytes[i..i + 2].fill(0x06);
    }
    bytes[0x1290..0x1690].fill(0xFF);
    let mut loops = 0;
    for i in (0x1dd0..0x1df9).step_by(6) {
        bytes[i..i + 6].copy_from_slice(&[0x57, 0x2d, 0x30 + loops, 0x57, 0x2d, 0x31 + loops]);
        loops += 2;
        if loops == 10 {
            loops += 7;
        }
    }
    bytes[0x1e78..0x1e7a].copy_from_slice(&[0x72, 0x62]);
    bytes[0x2080..0x2880].fill(0xFF);
    bytes[0x3e80..0x3e82].copy_from_slice(&[0x72, 0x62]);
    for i in (0x3eb0..0x3fb0).step_by(16) {
        bytes[i + 7] = 0x10;
        bytes[i + 8] = 0xff;
        bytes[i + 11] = 0x10;
        bytes[i + 12] = 0xff;
    }
    bytes[0x3fb4] = 0x80;
    bytes[0x3fba..0x3fbc].copy_from_slice(&[0x07, 0x02]);
    bytes[0x3fc0..0x3fc4].copy_from_slice(&[0x00, 0x20, 0x00, 0x01]);
    bytes[0x3fc6..0x3fca].fill(0xFF);
    for i in (0x6000..0x7000).step_by(16) {
        bytes[i..i + 16].copy_from_slice(&[
            0x71, 0x32, 0x33, 0x44, 0x45, 0x55, 0x66, 0x77, 0x78, 0x89, 0x99, 0xaa, 0xab, 0xbc,
            0xcd, 0xce,
        ]);
    }
    bytes[0x7000..0x7ff0].fill(0xFF);
    bytes[0x7ff0..0x7ff2].copy_from_slice(&[0x72, 0x62]);
    bytes[0x7fff] = 0x16;
    bytes
}

#[test]
fn song_memory_empty_92l() {
    let sav = empty_sav();
    let song = SongMemory::from_reader(&mut Reader::new(&sav)).expect("could not parse song");

    assert_eq!(song.format_version(), 0x16);
}

#[test]
fn mod_empty_92l() {
    let sav = empty_sav();
    let mut reader = Reader::new(&sav);
    let song = SongMemory::from_reader(&mut reader).expect("could not parse song");

    assert_eq!(song.format_version(), 0x16);
    assert_eq!(reader.position(), 0x8000);
}

#[test]
fn make_empty_song() {
    let expected = empty_raw();
    let actual = SongMemory::make_empty_song();
    assert_eq!(actual, expected);
}

#[test]
fn new_song_is_the_empty_song() {
    let song = SongMemory::new();
    assert_eq!(song.as_slice(), empty_raw().as_slice());
    assert_eq!(song.format_version(), 0x16);
    assert_eq!(SongMemory::default(), song);
    assert_eq!(SongMemory::LEN, 32768);
}

#[test]
fn song_of_the_wrong_size_is_rejected() {
    assert_eq!(
        SongMemory::from_bytes(&[0u8; 100]),
        Err(FromBytesError::IncorrectSize)
    );
    assert_eq!(
        SongMemory::from_bytes(&vec![0u8; 0x8001]),
        Err(FromBytesError::IncorrectSize)
    );
}

#[test]
fn song_without_a_marker_is_rejected() {
    assert_eq!(
        SongMemory::from_bytes(&vec![0u8; 0x8000]),
        Err(FromBytesError::InitializationCheckIncorrect)
    );
    assert_eq!(
        SongMemory::from_reader(&mut Reader::new(&vec![0u8; 0x8000])),
        Err(FromReaderError::FromBytes(
            FromBytesError::InitializationCheckIncorrect
        ))
    );
}

#[test]
fn one_marker_is_enough() {
    for offset in [0x1E78usize, 0x3E80, 0x7FF0] {
        let mut bytes = vec![0u8; 0x8000];
        bytes[offset] = 0x72;
        bytes[offset + 1] = 0x62;
        bytes[0x7FFF] = 9;
        let song = SongMemory::from_bytes(&bytes).unwrap();
        assert_eq!(song.format_version(), 9);
        assert_eq!(song.as_slice(), bytes.as_slice());
    }
    let mut bytes = vec![0u8; 0x8000];
    bytes[0x1E78] = 0x72;
    assert_eq!(
        SongMemory::from_bytes(&bytes),
        Err(FromBytesError::InitializationCheckIncorrect)
    );
}

#[test]
fn song_from_a_short_source_fails() {
    let bytes = vec![0u8; 0x7FFF];
    let mut reader = Reader::new(&bytes);
    assert_eq!(
        SongMemory::from_reader(&mut reader),
        Err(FromReaderError::Read(IoError::UnexpectedEof))
    );
    assert_eq!(reader.position(), 0x7FFF);
}

#[test]
fn song_is_written_as_it_is() {
    let song = SongMemory::new();
    let mut writer = Writer::new(0x8000);
    assert_eq!(song.to_writer(&mut writer), Ok(()));
    assert_eq!(writer.as_slice(), song.as_slice());

    let mut small = Writer::new(16);
    assert_eq!(song.to_writer(&mut small), Err(IoError::WriteZero));
    assert_eq!(small.as_slice(), &song.as_slice()[..16]);
}
