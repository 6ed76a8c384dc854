use lsdj::codec::decompress::{
    decompress_block, decompress_cmd_byte, decompress_rle_byte, Continuation,
};
use lsdj::codec::{End, CMD_BYTE, DEFAULT_INSTRUMENT_BYTE, DEFAULT_WAVE_BYTE, EOF_BYTE, RLE_BYTE};
use lsdj::io::{IoError, Reader, Writer};

const WAVE: [u8; 16] = [
    0x8E, 0xCD, 0xCC, 0xBB, 0xAA, 0xA9, 0x99, 0x88, 0x87, 0x76, 0x66, 0x55, 0x54, 0x43, 0x32, 0x31,
];

const INSTRUMENT: [u8; 16] = [
    0xA8, 0x0, 0x0, 0xFF, 0x0, 0x0, 0x3, 0x0, 0x0, 0xD0, 0x0, 0x0, 0x0, 0xF3, 0x0, 0x0,
];

#[test]
fn decompress_rle() {
    let mut plain = Writer::new(4);

    assert!(decompress_rle_byte(&mut Reader::new(&[0x11, 4]), &mut plain).is_ok());

    assert_eq!(plain.as_slice(), [0x11, 0x11, 0x11, 0x11]);
}

#[test]
fn decompress_rle_literal() {
    let mut plain = Writer::new(1);

    assert!(decompress_rle_byte(&mut Reader::new(&[RLE_BYTE]), &mut plain).is_ok());

    assert_eq!(plain.as_slice(), [0xC0]);
}

#[test]
fn decompress_cmd_literal() {
    let mut plain = Writer::new(1);

    assert_eq!(
        decompress_cmd_byte(&mut Reader::new(&[CMD_BYTE]), &mut plain).unwrap(),
        Continuation::Continue
    );

    assert_eq!(plain.as_slice(), [0xE0]);
}

#[test]
fn decompress_default_wave() {
    let mut plain = Writer::new(32);

    assert_eq!(
        decompress_cmd_byte(&mut Reader::new(&[DEFAULT_WAVE_BYTE, 2]), &mut plain).unwrap(),
        Continuation::Continue
    );

    assert_eq!(
        plain.as_slice(),
        [
            0x8E, 0xCD, 0xCC, 0xBB, 0xAA, 0xA9, 0x99, 0x88, 0x87, 0x76, 0x66, 0x55, 0x54, 0x43,
            0x32, 0x31, 0x8E, 0xCD, 0xCC, 0xBB, 0xAA, 0xA9, 0x99, 0x88, 0x87, 0x76, 0x66, 0x55,
            0x54, 0x43, 0x32, 0x31
        ]
    );
}

#[test]
fn decompress_default_instrument() {
    let mut plain = Writer::new(32);

    assert_eq!(
        decompress_cmd_byte(&mut Reader::new(&[DEFAULT_INSTRUMENT_BYTE, 2]), &mut plain).unwrap(),
        Continuation::Continue
    );

    assert_eq!(
        plain.as_slice(),
        [
            0xA8, 0x0, 0x0, 0xFF, 0x0, 0x0, 0x3, 0x0, 0x0, 0xD0, 0x0, 0x0, 0x0, 0xF3, 0x0, 0x0,
            0xA8, 0x0, 0x0, 0xFF, 0x0, 0x0, 0x3, 0x0, 0x0, 0xD0, 0x0, 0x0, 0x0, 0xF3, 0x0, 0x0,
        ]
    );
}

#[test]
fn decompress_block_jump() {
    let mut plain = Writer::new(1);

    assert_eq!(
        decompress_cmd_byte(&mut Reader::new(&[4]), &mut plain).unwrap(),
        Continuation::JumpToBlock(4),
    );
}

#[test]
fn decompress_eof() {
    let mut plain = Writer::new(1);

    assert_eq!(
        decompress_cmd_byte(&mut Reader::new(&[EOF_BYTE]), &mut plain).unwrap(),
        Continuation::EndOfFile
    );
}

#[test]
fn block_decodes_every_kind_of_unit() {
    let source = [
        7, 0xC0, 0xC0, 0xE0, 0xE0, 0xC0, 9, 3, 0xE0, 0xF0, 1, 0xE0, 0xF1, 1, 0xE0, 5, 0x33,
    ];
    let mut reader = Reader::new(&source);
    let mut plain = Writer::new(64);

    assert_eq!(decompress_block(&mut reader, &mut plain), Ok(End::JumpToBlock(5)));
    assert_eq!(reader.position(), 16);
    assert_eq!(plain.position(), 38);

    let mut expected = vec![7, 0xC0, 0xE0, 9, 9, 9];
    expected.extend_from_slice(&WAVE);
    expected.extend_from_slice(&INSTRUMENT);
    assert_eq!(&plain.as_slice()[..38], expected.as_slice());
    assert!(plain.as_slice()[38..].iter().all(|byte| *byte == 0));
}

#[test]
fn block_ends_at_the_end_of_file_command() {
    let mut reader = Reader::new(&[1, 2, 0xE0, 0xFF, 3]);
    let mut plain = Writer::new(2);

    assert_eq!(decompress_block(&mut reader, &mut plain), Ok(End::EndOfFile));
    assert_eq!(reader.position(), 4);
    assert_eq!(plain.as_slice(), [1, 2]);
}

#[test]
fn block_without_an_end_runs_out_of_input() {
    let mut reader = Reader::new(&[1, 2, 3]);
    let mut plain = Writer::new(8);

    assert_eq!(decompress_block(&mut reader, &mut plain), Err(IoError::UnexpectedEof));
    assert_eq!(&plain.as_slice()[..3], [1, 2, 3]);
    assert_eq!(plain.position(), 3);
}

#[test]
fn unit_cut_short_is_an_error() {
    let mut plain = Writer::new(8);

    assert_eq!(
        decompress_block(&mut Reader::new(&[0xC0]), &mut plain),
        Err(IoError::UnexpectedEof)
    );
    assert_eq!(
        decompress_block(&mut Reader::new(&[0xC0, 5]), &mut plain),
        Err(IoError::UnexpectedEof)
    );
    assert_eq!(
        decompress_block(&mut Reader::new(&[0xE0, 0xF0]), &mut plain),
        Err(IoError::UnexpectedEof)
    );
    assert_eq!(plain.position(), 0);
}

#[test]
fn run_that_does_not_fit_is_written_as_far_as_it_fits() {
    let mut reader = Reader::new(&[0xC0, 0x42, 10, 0xE0, 0xFF]);
    let mut plain = Writer::new(4);

    assert_eq!(decompress_block(&mut reader, &mut plain), Err(IoError::WriteZero));
    assert_eq!(plain.as_slice(), [0x42, 0x42, 0x42, 0x42]);
    assert_eq!(plain.position(), 4);
}

#[test]
fn run_of_zero_copies_writes_nothing() {
    let mut reader = Reader::new(&[0xC0, 0x42, 0, 0xE0, 0xFF]);
    let mut plain = Writer::new(0);

    assert_eq!(decompress_block(&mut reader, &mut plain), Ok(End::EndOfFile));
}
