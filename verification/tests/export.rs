use lsdj::export::file_stem;

#[test]
fn file_name_is_the_name_of_the_song() {
    assert_eq!(file_stem(3, "YOKAI", 27, false, false, false), "YOKAI");
    assert_eq!(file_stem(3, "", 27, false, false, true), "");
}

#[test]
fn file_name_with_position() {
    assert_eq!(file_stem(0, "YOKAI", 27, true, false, false), "00_YOKAI");
    assert_eq!(file_stem(3, "YOKAI", 27, true, false, false), "03_YOKAI");
    assert_eq!(file_stem(31, "YOKAI", 27, true, false, false), "31_YOKAI");
    assert_eq!(file_stem(204, "YOKAI", 27, true, false, false), "204_YOKAI");
}

#[test]
fn file_name_with_version() {
    assert_eq!(file_stem(3, "YOKAI", 27, false, true, true), "YOKAI_v027");
    assert_eq!(file_stem(3, "YOKAI", 27, false, true, false), "YOKAI_v1B");
    assert_eq!(file_stem(3, "YOKAI", 0, false, true, false), "YOKAI_v00");
    assert_eq!(file_stem(3, "YOKAI", 255, false, true, false), "YOKAI_vFF");
    assert_eq!(file_stem(3, "YOKAI", 255, false, true, true), "YOKAI_v255");
    assert_eq!(file_stem(3, "YOKAI", 7, false, true, true), "YOKAI_v007");
}

#[test]
fn file_name_with_position_and_version() {
    assert_eq!(file_stem(12, "A B", 160, true, true, false), "12_A B_vA0");
    assert_eq!(file_stem(12, "A B", 160, true, true, true), "12_A B_v160");
    for version in 0..=255u8 {
        assert_eq!(
            file_stem(version, "X", version, true, true, true),
            format!("{version:02}_X_v{version:03}")
        );
        assert_eq!(
            file_stem(version, "X", version, false, true, false),
            format!("X_v{version:02X}")
        );
    }
}
