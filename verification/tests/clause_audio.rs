use voyna_i_mir::clause_audio::{clause_mp3_relative_path, push_decimal, push_zero_padded, VOL_1_PART_1_SUBDIR};

#[test]
fn clause_mp3_relative_path_pads_id_and_clause_number() {
    assert_eq!(
        clause_mp3_relative_path(1, 2, "denis"),
        "vol-1-part-1/001/02_denis.mp3"
    );
    assert_eq!(
        clause_mp3_relative_path(42, 11, "irina"),
        "vol-1-part-1/042/11_irina.mp3"
    );
}

#[test]
fn clause_mp3_relative_path_keeps_numbers_wider_than_the_padding() {
    assert_eq!(
        clause_mp3_relative_path(1234, 567, "irina"),
        "vol-1-part-1/1234/567_irina.mp3"
    );
    assert_eq!(
        clause_mp3_relative_path(0, 0, "denis"),
        "vol-1-part-1/000/00_denis.mp3"
    );
    assert_eq!(
        clause_mp3_relative_path(u32::MAX, 100, "x"),
        "vol-1-part-1/4294967295/100_x.mp3"
    );
}

#[test]
fn clause_mp3_relative_path_starts_with_the_subdirectory() {
    assert!(clause_mp3_relative_path(7, 3, "irina").starts_with(VOL_1_PART_1_SUBDIR));
}

#[test]
fn decimal_digits_match_std_formatting() {
    for n in [0u64, 5, 9, 10, 99, 100, 12345, u64::MAX] {
        let mut s = String::from("#");
        push_decimal(&mut s, n);
        assert_eq!(s, format!("#{n}"));
    }
    for (n, width) in [(0u64, 0usize), (3, 1), (3, 4), (12345, 3), (12345, 8)] {
        let mut s = String::new();
        push_zero_padded(&mut s, n, width);
        assert_eq!(s, format!("{n:0width$}"));
    }
}
