use lsdj::codec::decompress::{
    decompress, decompress_cmd_byte, decompress_rle_byte, decompress_until_eof, Continuation,
};
use lsdj::codec::{CMD_BYTE, DEFAULT_INSTRUMENT_BYTE, DEFAULT_WAVE_BYTE, EOF_BYTE, RLE_BYTE};
use lsdj::fs::Index;
use lsdj::io::{IoError, Reader, Writer};
use lsdj::name::Name;
use lsdj::song::{FromReaderError, SongMemory};
use lsdj::sram::SRam;

/// A save image with the empty song as working song and as the file in
/// slot 0, named `EMPTY`, version 0, which is the active file.
fn empty_sav() -> Vec<u8> {
    let mut sram = SRam::new();
    let name = Name::<8>::from_str("EMPTY").unwrap();
    sram.filesystem
        .insert_file(Index::new(0), &name, 0, &SongMemory::new())
        .unwrap();
    let mut writer = Writer::new(SRam::LEN);
    sram.to_writer(&mut writer).unwrap();
    let mut bytes = writer.into_bytes();
    bytes[0x8000 + 0x140] = 0;
    bytes
}

#[test]
fn rle() {
    let mut reader = Reader::new(&[0x11, 4]);
    let mut plain = Writer::new(4);

    assert!(decompress_rle_byte(&mut reader, &mut plain).is_ok());

    assert_eq!(plain.as_slice(), [0x11, 0x11, 0x11, 0x11]);
    assert_eq!(reader.position(), 2);
    assert_eq!(plain.position(), 4);
}

#[test]
fn rle_literal() {
    let mut reader = Reader::new(&[RLE_BYTE]);
    let mut plain = Writer::new(1);

    assert!(decompress_rle_byte(&mut reader, &mut plain).is_ok());

    assert_eq!(plain.as_slice(), [0xC0]);
    assert_eq!(reader.position(), 1);
}

#[test]
fn cmd_literal() {
    let mut reader = Reader::new(&[CMD_BYTE]);
    let mut plain = Writer::new(1);

    assert_eq!(
        decompress_cmd_byte(&mut reader, &mut plain).unwrap(),
        Continuation::Continue
    );

    assert_eq!(plain.as_slice(), [0xE0]);
    assert_eq!(reader.position(), 1);
}

#[test]
fn default_wave() {
    let mut reader = Reader::new(&[DEFAULT_WAVE_BYTE, 2]);
    let mut plain = Writer::new(32);

    assert_eq!(
        decompress_cmd_byte(&mut reader, &mut plain).unwrap(),
        Continuation::Continue
    );

    assert_eq!(
        plain.as_slice(),
        [
            0x8E, 0xCD, 0xCC, 0xBB, 0xAA, 0xA9, 0x99, 0x88, 0x87, 0x76, 0x66, 0x55, 0x54, 0x43,
            0x32, 0x31, 0x8E, 0xCD, 0xCC, 0xBB, 0xAA, 0xA9, 0x99, 0x88, 0x87, 0x76, 0x66, 0x55,
            0x54, 0x43, 0x32, 0x31
        ]
    );
    assert_eq!(plain.position(), 32);
}

#[test]
fn default_instrument() {
    let mut reader = Reader::new(&[DEFAULT_INSTRUMENT_BYTE, 2]);
    let mut plain = Writer::new(32);

    assert_eq!(
        decompress_cmd_byte(&mut reader, &mut plain).unwrap(),
        Continuation::Continue
    );

    assert_eq!(
        plain.as_slice(),
        [
            0xA8, 0x0, 0x0, 0xFF, 0x0, 0x0, 0x3, 0x0, 0x0, 0xD0, 0x0, 0x0, 0x0, 0xF3, 0x0, 0x0,
            0xA8, 0x0, 0x0, 0xFF, 0x0, 0x0, 0x3, 0x0, 0x0, 0xD0, 0x0, 0x0, 0x0, 0xF3, 0x0, 0x0,
        ]
    );
    assert_eq!(plain.position(), 32);
}

#[test]
fn block_jump() {
    let mut reader = Reader::new(&[4]);
    let mut plain = Writer::new(1);

    assert_eq!(
        decompress_cmd_byte(&mut reader, &mut plain).unwrap(),
        Continuation::JumpToBlock(4),
    );
    assert_eq!(plain.position(), 0);
}

#[test]
fn eof() {
    let mut reader = Reader::new(&[EOF_BYTE]);
    let mut plain = Writer::new(1);

    assert_eq!(
        decompress_cmd_byte(&mut reader, &mut plain).unwrap(),
        Continuation::EndOfFile
    );
    assert_eq!(plain.position(), 0);
}

#[test]
fn decompress_empty() {
    let sav = empty_sav();
    let mut reader = Reader::new(&sav);

    reader.seek(0x8000 + 0x200);

    assert!(decompress(&mut reader, 0x8000).is_ok());
}

#[test]
fn chain_is_followed_from_a_base() {
    // block 0 is unused; block 1 jumps to block 3, which ends the file
    let mut data = vec![0u8; 16 + 4 * 512];
    data[16 + 512..16 + 512 + 4].copy_from_slice(&[1, 2, 0xE0, 3]);
    data[16 + 3 * 512..16 + 3 * 512 + 3].copy_from_slice(&[3, 0xE0, 0xFF]);
    let mut reader = Reader::new(&data);
    reader.seek(16 + 512);
    let mut writer = Writer::new(3);
    assert_eq!(decompress_until_eof(&mut reader, &mut writer, 16), Ok(()));
    assert_eq!(writer.as_slice(), [1, 2, 3]);
    assert_eq!(reader.position(), 16 + 3 * 512 + 3);
}

#[test]
fn chain_that_writes_too_much_fails() {
    let mut data = vec![0u8; 2 * 512];
    data[512..512 + 4].copy_from_slice(&[1, 2, 0xE0, 0xFF]);
    let mut reader = Reader::new(&data);
    reader.seek(512);
    let mut writer = Writer::new(1);
    assert_eq!(
        decompress_until_eof(&mut reader, &mut writer, 0),
        Err(FromReaderError::Read(IoError::WriteZero))
    );
    assert_eq!(writer.as_slice(), [1]);
}

#[test]
fn chain_of_empty_jumps_fails() {
    // block 1 jumps to block 2 and back, and nothing is written
    let mut data = vec![0u8; 3 * 512];
    data[512..512 + 2].copy_from_slice(&[0xE0, 2]);
    data[1024..1024 + 2].copy_from_slice(&[0xE0, 1]);
    let mut reader = Reader::new(&data);
    reader.seek(512);
    let mut writer = Writer::new(8);
    assert_eq!(
        decompress_until_eof(&mut reader, &mut writer, 0),
        Err(FromReaderError::EndlessJumps)
    );
    assert_eq!(writer.position(), 0);
}
