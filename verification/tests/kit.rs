use lsdj::io::Reader;
use lsdj::kit::{force_loop_bits_to_flags, parse_force_loop_bits, Kit, KitError, Sample, BANK_SIZE};

/// A bank with the kit `SNAP  `, version 1, and one sample, `SNA`, of 256
/// bytes, written field by field.
fn snap_kit() -> Vec<u8> {
    let data: Vec<u8> = (0..=255u8).collect();
    let mut bytes = vec![0xFFu8; BANK_SIZE];
    bytes[0x52..0x58].copy_from_slice(b"SNAP  ");
    bytes[0x5C..0x5E].copy_from_slice(&[0, 0]);
    bytes[0x5F] = 1;
    bytes[0..2].copy_from_slice(&0x4060u16.to_le_bytes());
    bytes[0x22..0x25].copy_from_slice(b"SNA");
    bytes[0x60..0x160].copy_from_slice(&data);
    bytes[2..4].copy_from_slice(&0x4160u16.to_le_bytes());
    for track in 1..15 {
        bytes[0x22 + track * 3..0x25 + track * 3].copy_from_slice(&[0x00, b'-', b'-']);
    }
    bytes[4..0x20].fill(0);
    bytes
}

#[test]
fn test_parse_kit() {
    let kit = Kit::try_from(&snap_kit()).expect("Failed to parse Kit file");
    assert_eq!(kit.name, "SNAP  ");
    assert_eq!(kit.version, 1);
    assert_eq!(kit.samples.len(), 1);
    assert_eq!(kit.samples[0].name, "SNA");
    assert_eq!(kit.samples[0].force_loop, false);
    assert_eq!(kit.samples[0].data, (0..=255u8).collect::<Vec<u8>>());
}

#[test]
fn test_parse_force_loop_bits() {
    assert_eq!(parse_force_loop_bits(&[0xFF, 0xFF]), vec![true; 16]);
    assert_eq!(parse_force_loop_bits(&[0x00, 0x00]), vec![false; 16]);
    let mut first_true = vec![false; 16];
    first_true[0] = true;
    assert_eq!(parse_force_loop_bits(&[0x80, 0x00]), first_true);
}

#[test]
fn test_force_loop_bits_to_flags() {
    let all_true = [true; 16];
    assert_eq!(force_loop_bits_to_flags(all_true).to_vec(), vec![0xFF, 0xFF]);
    let all_false = [false; 16];
    assert_eq!(force_loop_bits_to_flags(all_false).to_vec(), vec![0x00, 0x00]);
}

#[test]
fn test_into_u8() {
    let snap = snap_kit();
    let kit = Kit::try_from(&snap).expect("Failed to parse Kit file");
    let snap2 = kit.into_bytes();
    assert_eq!(snap, snap2)
}

#[test]
fn force_loop_flags_bit_by_bit() {
    let mut expected = vec![false; 16];
    expected[7] = true;
    expected[9] = true;
    assert_eq!(parse_force_loop_bits(&[0x01, 0x40]), expected);

    // written, the first flag is the lowest bit
    let mut flags = [false; 16];
    flags[0] = true;
    flags[10] = true;
    assert_eq!(force_loop_bits_to_flags(flags), [0x01, 0x04]);
}

#[test]
fn kit_from_a_reader() {
    let mut bytes = vec![9u8; 7];
    bytes.extend_from_slice(&snap_kit());
    let mut reader = Reader::new(&bytes);
    reader.seek(7);
    let kit = Kit::try_from_reader(&mut reader).unwrap();
    assert_eq!(kit, Kit::try_from(&snap_kit()).unwrap());
    assert_eq!(
        Kit::try_from_reader(&mut Reader::new(&bytes)),
        Err(KitError::InvalidSize { len: BANK_SIZE + 7 })
    );
}

#[test]
fn kit_errors() {
    let snap = snap_kit();
    assert_eq!(
        Kit::try_from(&snap[1..]),
        Err(KitError::InvalidSize { len: 0x3FFF })
    );

    let mut bytes = snap.clone();
    bytes[1] = 0x41;
    assert_eq!(
        Kit::try_from(&bytes),
        Err(KitError::InvalidHeader { first: 0x60, second: 0x41 })
    );

    let mut bytes = snap.clone();
    bytes[0x53] = 0xFF;
    assert_eq!(Kit::try_from(&bytes), Err(KitError::NameInvalid));

    // the name of a track is read even where the track holds no sample
    let mut bytes = snap.clone();
    bytes[0x22 + 3 * 4] = 0xFF;
    assert_eq!(
        Kit::try_from(&bytes),
        Err(KitError::SampleNameInvalid { track: 4 })
    );

    let mut bytes = snap.clone();
    bytes[2..4].copy_from_slice(&0x4050u16.to_le_bytes());
    assert_eq!(
        Kit::try_from(&bytes),
        Err(KitError::SampleEndsBeforeStart { track: 0, start: 0x60, end: 0x50 })
    );

    let mut bytes = snap.clone();
    bytes[2..4].copy_from_slice(&0x7FA1u16.to_le_bytes());
    assert_eq!(
        Kit::try_from(&bytes),
        Err(KitError::SampleEndsAfterSpace { track: 0, start: 0x60, end: 0x3FA1 })
    );

    let mut bytes = snap.clone();
    bytes[2..4].copy_from_slice(&0x0100u16.to_le_bytes());
    assert_eq!(
        Kit::try_from(&bytes),
        Err(KitError::SampleOutsideBank { track: 0 })
    );

    // the first track that fails is reported
    let mut bytes = snap.clone();
    bytes[2..4].copy_from_slice(&0x4050u16.to_le_bytes());
    bytes[0x22 + 3 * 4] = 0xFF;
    assert_eq!(
        Kit::try_from(&bytes),
        Err(KitError::SampleEndsBeforeStart { track: 0, start: 0x60, end: 0x50 })
    );
}

#[test]
fn kit_with_several_samples() {
    let kit = Kit {
        name: String::from("drums!"),
        version: 7,
        samples: vec![
            Sample {
                name: String::from("kik"),
                data: vec![1, 2, 3],
                force_loop: true,
            },
            Sample {
                name: String::from("Snr"),
                data: vec![],
                force_loop: false,
            },
            Sample {
                name: String::from("HAT"),
                data: vec![9; 5],
                force_loop: true,
            },
        ],
    };
    let bytes = kit.into_bytes();
    assert_eq!(bytes.len(), BANK_SIZE);
    assert_eq!(
        &bytes[..0x20],
        [
            0x60, 0x40, 0x63, 0x40, 0x63, 0x40, 0x68, 0x40, 0, 0, 0, 0, 0, 0, 0, 0, 0, 0, 0, 0, 0,
            0, 0, 0, 0, 0, 0, 0, 0, 0, 0, 0
        ]
    );
    assert_eq!(&bytes[0x20..0x22], [0xFF, 0xFF]);
    assert_eq!(&bytes[0x22..0x2B], b"KIKSNRHAT");
    assert_eq!(&bytes[0x2B..0x2E], [0, b'-', b'-']);
    assert_eq!(&bytes[0x4C..0x4F], [0, b'-', b'-']);
    assert_eq!(&bytes[0x4F..0x52], [0xFF; 3]);
    assert_eq!(&bytes[0x52..0x58], b"DRUMS!");
    assert_eq!(&bytes[0x58..0x5C], [0xFF; 4]);
    assert_eq!(&bytes[0x5C..0x60], [0x05, 0x00, 0xFF, 7]);
    assert_eq!(&bytes[0x60..0x68], [1, 2, 3, 9, 9, 9, 9, 9]);
    assert!(bytes[0x68..].iter().all(|byte| *byte == 0xFF));

    // read back, the flags are read from the highest bit down
    let read = Kit::try_from(&bytes).unwrap();
    assert_eq!(read.name, "DRUMS!");
    assert_eq!(read.version, 7);
    assert_eq!(read.samples.len(), 3);
    assert_eq!(read.samples[0].name, "KIK");
    assert_eq!(read.samples[0].data, [1, 2, 3]);
    assert_eq!(read.samples[1].name, "SNR");
    assert!(read.samples[1].data.is_empty());
    assert_eq!(read.samples[2].data, [9; 5]);
    assert_eq!(
        read.samples.iter().map(|sample| sample.force_loop).collect::<Vec<_>>(),
        [false, false, false]
    );
}
