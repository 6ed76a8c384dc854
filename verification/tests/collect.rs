use lsdj::collect::{
    bytes_to_string, file_to_instance, find_min_len, song_digest, Instance, Source,
};
use lsdj::fs::{recompress, File, FileToLsdSngError, Filesystem, Index};
use lsdj::io::IoError;
use lsdj::lsdsng::LsdSng;
use lsdj::name::{FromBytesError, Name};
use lsdj::song::v22::WaveValue;
use lsdj::song::{FromReaderError, Song, SongFromMemoryError, SongMemory};
use sha2::{Digest, Sha256};

const EMPTY_SONG_SHA256: &str = "6faf49a85a094c66ae00398ab9cd1529d152d9c78c9830d154dce38b4c45ff30";

#[test]
fn digest_of_the_empty_song() {
    let song = SongMemory::new();
    let digest = song_digest(&song);
    assert_eq!(bytes_to_string(&digest), EMPTY_SONG_SHA256);
    let expected: [u8; 32] = Sha256::digest(song.as_slice()).into();
    assert_eq!(digest, expected);
}

#[test]
fn digests_in_hexadecimal() {
    let mut bytes = [0u8; 32];
    for (index, byte) in bytes.iter_mut().enumerate() {
        *byte = (index * 9) as u8;
    }
    bytes[31] = 0xFF;
    assert_eq!(
        bytes_to_string(&bytes),
        "0009121b242d363f48515a636c757e879099a2abb4bdc6cfd8e1eaf3fc050eff"
    );
    assert_eq!(bytes_to_string(&[0xA0; 32]), "a0".repeat(32));
}

#[test]
fn one_byte_tells_digests_apart() {
    assert_eq!(find_min_len(&vec![]), 0);
    assert_eq!(find_min_len(&vec![[1; 32]]), 1);
    assert_eq!(find_min_len(&vec![[1; 32], [2; 32]]), 1);
    let mut close = [1; 32];
    close[31] = 2;
    assert_eq!(find_min_len(&vec![[1; 32], close]), 1);
}

#[test]
fn instance_of_a_file() {
    let song = SongMemory::new();
    let name = Name::<8>::from_str("EMPTY").unwrap();
    let lsdsng = LsdSng::from_song(name, 7, &song).unwrap();
    let source = Source::LsdSng {
        path: String::from("empty.lsdsng"),
    };
    let instance = file_to_instance(&lsdsng, source.clone()).unwrap();
    assert_eq!(instance, Instance::new(7, song_digest(&song), source));
    assert_eq!(bytes_to_string(&instance.sha256), EMPTY_SONG_SHA256);

    let mut filesystem = Filesystem::new();
    filesystem
        .insert_file(Index::new(2), &name, 9, &song)
        .unwrap();
    let entry = filesystem.file(Index::new(2)).unwrap();
    let source = Source::Sav {
        path: String::from("empty.sav"),
        index: 2,
    };
    let instance = file_to_instance(&entry, source.clone()).unwrap();
    assert_eq!(instance.version, 9);
    assert_eq!(instance.source, source);
    assert_eq!(bytes_to_string(&instance.sha256), EMPTY_SONG_SHA256);
}

#[test]
fn no_instance_of_a_broken_file() {
    let broken = LsdSng::new(Name::<8>::default(), 0, vec![1, 2, 3]);
    let source = Source::LsdSng {
        path: String::from("broken.lsdsng"),
    };
    assert_eq!(file_to_instance(&broken, source), None);
}

#[test]
fn files_have_the_same_parts() {
    fn parts<F: File>(file: &F) -> (Name<8>, u8, SongMemory) {
        (
            file.name().unwrap(),
            file.version(),
            file.decompress().unwrap(),
        )
    }

    let song = SongMemory::new();
    let name = Name::<8>::from_str("PARTS").unwrap();
    let mut filesystem = Filesystem::new();
    filesystem
        .insert_file(Index::new(0), &name, 3, &song)
        .unwrap();
    let entry = filesystem.file(Index::new(0)).unwrap();
    let lsdsng = File::lsdsng(&entry).unwrap();

    assert_eq!(parts(&entry), (name, 3, SongMemory::new()));
    assert_eq!(parts(&lsdsng), (name, 3, SongMemory::new()));
    assert_eq!(File::lsdsng(&lsdsng), Ok(lsdsng.clone()));

    // made from its parts, a file is compressed anew
    let again = recompress(&entry).unwrap();
    assert_eq!(again, LsdSng::from_song(name, 3, &song).unwrap());
    assert_eq!(again.decompress().unwrap(), song);
    assert_eq!(recompress(&lsdsng).unwrap(), again);
}

#[test]
fn recompress_errors() {
    let broken = LsdSng::new(Name::<8>::default(), 0, vec![1, 2, 3]);
    assert_eq!(
        recompress(&broken),
        Err(FileToLsdSngError::Decompress(FromReaderError::Read(
            IoError::UnexpectedEof
        )))
    );

    let mut filesystem = Filesystem::new();
    let name = Name::<8>::from_str("OK").unwrap();
    filesystem
        .insert_file(Index::new(0), &name, 0, &SongMemory::new())
        .unwrap();
    let mut image = lsdj::io::Writer::new(0x18000);
    filesystem.to_writer(&mut image).unwrap();
    let mut image = image.into_bytes();
    image[0] = b'?';
    let filesystem = Filesystem::from_reader(&mut lsdj::io::Reader::new(&image)).unwrap();
    let entry = filesystem.file(Index::new(0)).unwrap();
    assert_eq!(
        recompress(&entry),
        Err(FileToLsdSngError::Name(FromBytesError::InvalidByte {
            byte: b'?',
            index: 0
        }))
    );
}

#[test]
fn song_of_a_supported_version() {
    let memory = SongMemory::new();
    match Song::from_memory(&memory) {
        Ok(Song::V22(song)) => {
            assert_eq!(song.waves.len(), 256);
            for frame in &song.waves {
                assert_eq!(frame.len(), 32);
                assert!(frame.iter().all(|value| *value == WaveValue::silence()));
            }
        }
        Err(_) => panic!("version 22 is supported"),
    }
}

#[test]
fn song_of_another_version() {
    let mut bytes = SongMemory::new().as_slice().to_vec();
    bytes[0x7FFF] = 4;
    let memory = SongMemory::from_bytes(&bytes).unwrap();
    assert_eq!(
        Song::from_memory(&memory).err(),
        Some(SongFromMemoryError::UnsupportedVersion(4))
    );
}

#[test]
fn wave_values_have_four_bits() {
    assert_eq!(WaveValue::min_value().get(), 0);
    assert_eq!(WaveValue::silence().get(), 8);
    assert_eq!(WaveValue::max_value().get(), 15);
    assert_eq!(WaveValue::new(15), Some(WaveValue::max_value()));
    assert_eq!(WaveValue::new(16), None);
    assert!(WaveValue::min_value() < WaveValue::silence());
}
