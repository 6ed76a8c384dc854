use lsdj::fs::{Filesystem, Index};
use lsdj::io::{IoError, Reader, Writer};
use lsdj::lsdsng::{FromReaderError, LsdSng};
use lsdj::name::{FromBytesError, Name};
use lsdj::song::{FromReaderError as SongReadError, SongMemory};

/// The export file of the empty song, named `EMPTY`, version 0.
fn empty_lsdsng() -> Vec<u8> {
    let mut filesystem = Filesystem::new();
    let name = Name::<8>::from_str("EMPTY").unwrap();
    filesystem
        .insert_file(Index::new(0), &name, 0, &SongMemory::new())
        .unwrap();
    let lsdsng = filesystem.file(Index::new(0)).unwrap().lsdsng().unwrap();
    let mut writer = Writer::new(9 + lsdsng.blocks.len());
    lsdsng.to_writer(&mut writer).unwrap();
    writer.into_bytes()
}

/// A song that does not compress: no byte repeats its neighbour, and none
/// is a reserved byte. Each byte is written as it is, 508 to a block.
fn busy_song(seed: u8) -> SongMemory {
    let mut bytes = vec![0u8; 0x8000];
    for (index, byte) in bytes.iter_mut().enumerate() {
        *byte = ((index + seed as usize) % 100) as u8 + 1;
    }
    bytes[0x7FF0] = 0x72;
    bytes[0x7FF1] = 0x62;
    SongMemory::from_bytes(&bytes).unwrap()
}

#[test]
fn lsdsng_empty() {
    let source = empty_lsdsng();
    let lsdsng = LsdSng::from_reader(&mut Reader::new(&source)).unwrap();

    assert_eq!(lsdsng.name, Name::<8>::from_str("EMPTY").unwrap());

    assert_eq!(lsdsng.version, 0);

    let song = lsdsng.decompress().unwrap();
    assert_eq!(song.format_version(), 0x16);

    let mut dest = Writer::new(source.len());
    lsdsng.to_writer(&mut dest).unwrap();

    assert_eq!(dest.as_slice(), source.as_slice());
}

#[test]
fn round_trip_of_the_empty_song() {
    let song = SongMemory::new();
    let name = Name::<8>::from_str("EMPTY").unwrap();
    let lsdsng = LsdSng::from_song(name, 1, &song).unwrap();
    assert_eq!(lsdsng.name(), name);
    assert_eq!(lsdsng.version(), 1);
    assert_eq!(lsdsng.blocks.len() % 512, 0);
    assert_eq!(lsdsng.decompress().unwrap(), song);
}

#[test]
fn round_trip_of_busy_songs() {
    let name = Name::<8>::default();
    for seed in [1u8, 2, 77, 200] {
        assert_ne!(busy_song(seed), busy_song(seed + 1));
        let song = busy_song(seed);
        let lsdsng = LsdSng::from_song(name, seed, &song).unwrap();
        assert_eq!(lsdsng.blocks.len(), 65 * 512);
        assert_eq!(lsdsng.decompress().unwrap(), song);
    }
}

#[test]
fn round_trip_of_a_song_of_reserved_bytes() {
    let mut bytes = vec![0u8; 0x8000];
    for (index, byte) in bytes.iter_mut().enumerate() {
        *byte = if index % 2 == 0 { 0xC0 } else { 0xE0 };
    }
    bytes[0x3E80] = 0x72;
    bytes[0x3E81] = 0x62;
    let song = SongMemory::from_bytes(&bytes).unwrap();
    let lsdsng = LsdSng::from_song(Name::<8>::default(), 0, &song).unwrap();
    // every byte takes two: 254 bytes of the song to a block
    assert_eq!(lsdsng.blocks.len() / 512, 130);
    assert_eq!(lsdsng.decompress().unwrap(), song);
}

#[test]
fn jump_targets_are_not_followed() {
    let song = busy_song(6);
    let mut lsdsng = LsdSng::from_song(Name::<8>::default(), 0, &song).unwrap();
    // the first block ends in a jump; send it to a block that is not there
    assert_eq!(&lsdsng.blocks[508..512], [0xE0, 0, 0, 0]);
    assert_eq!(&lsdsng.blocks[1020..1024], [0xE0, 1, 0, 0]);
    lsdsng.blocks[509] = 0xEF;
    assert_eq!(lsdsng.decompress().unwrap(), song);
}

#[test]
fn lsdsng_parts_are_read_in_order() {
    let mut source = b"NAME\0\0\0\0".to_vec();
    source.push(0x21);
    source.extend_from_slice(&[1, 2, 3]);
    let lsdsng = LsdSng::from_reader(&mut Reader::new(&source)).unwrap();
    assert_eq!(lsdsng.name.as_str(), "NAME");
    assert_eq!(lsdsng.version, 0x21);
    assert_eq!(lsdsng.blocks, [1, 2, 3]);
    assert_eq!(
        lsdsng,
        LsdSng::new(Name::<8>::from_str("NAME").unwrap(), 0x21, vec![1, 2, 3])
    );
}

#[test]
fn lsdsng_read_errors() {
    assert_eq!(
        LsdSng::from_reader(&mut Reader::new(b"NAME")),
        Err(FromReaderError::Read(IoError::UnexpectedEof))
    );
    assert_eq!(
        LsdSng::from_reader(&mut Reader::new(b"NAME\0\0\0\0")),
        Err(FromReaderError::Read(IoError::UnexpectedEof))
    );
    assert_eq!(
        LsdSng::from_reader(&mut Reader::new(b"NaME\0\0\0\0\x01")),
        Err(FromReaderError::Name(FromBytesError::InvalidByte {
            byte: b'a',
            index: 1
        }))
    );
    let lsdsng = LsdSng::from_reader(&mut Reader::new(b"NAME\0\0\0\0\x01")).unwrap();
    assert!(lsdsng.blocks.is_empty());
}

#[test]
fn lsdsng_decompress_errors() {
    let name = Name::<8>::default();
    assert_eq!(
        LsdSng::new(name, 0, vec![]).decompress(),
        Err(SongReadError::Read(IoError::UnexpectedEof))
    );
    assert_eq!(
        LsdSng::new(name, 0, vec![0xE0, 0xFF]).decompress(),
        Err(SongReadError::Incomplete)
    );
    assert_eq!(
        LsdSng::new(name, 0, vec![0xE0, 0x01]).decompress(),
        Err(SongReadError::Read(IoError::UnexpectedEof))
    );
    let mut long = vec![0u8; 0x8001];
    long.extend_from_slice(&[0xE0, 0xFF]);
    assert_eq!(
        LsdSng::new(name, 0, long).decompress(),
        Err(SongReadError::Read(IoError::WriteZero))
    );
    let mut plain = vec![0u8; 0x8000];
    plain.extend_from_slice(&[0xE0, 0xFF]);
    assert_eq!(
        LsdSng::new(name, 0, plain).decompress(),
        Err(SongReadError::FromBytes(
            lsdj::song::FromBytesError::InitializationCheckIncorrect
        ))
    );
}

#[test]
fn lsdsng_that_does_not_fit_is_cut() {
    let lsdsng = LsdSng::new(Name::<8>::from_str("AB").unwrap(), 5, vec![9, 8, 7]);
    let mut writer = Writer::new(10);
    assert_eq!(lsdsng.to_writer(&mut writer), Err(IoError::WriteZero));
    assert_eq!(writer.as_slice(), b"AB\0\0\0\0\0\0\x05\x09");
}
