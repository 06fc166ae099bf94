use ad2edit::gallery::{readable_size, recent_order, shown_title};
use ad2edit::text::{contains, decimal, is_blank, is_whitespace};

#[test]
fn white_space_is_what_std_calls_white_space() {
    for code in 0u32..0x3100 {
        if let Some(c) = char::from_u32(code) {
            assert_eq!(is_whitespace(c), c.is_whitespace(), "{code:x}");
        }
    }
}

#[test]
fn blank_is_trimmed_to_nothing() {
    assert!(is_blank(""));
    assert!(is_blank(" \t\r\n\u{3000}"));
    assert!(!is_blank("  C:/garrysmod "));
}

#[test]
fn contains_finds_a_word_anywhere() {
    assert!(contains("piston i6 engine", "i6"));
    assert!(contains("abc", ""));
    assert!(!contains("abc", "abcd"));
    assert!(!contains("engine", "gun"));
}

#[test]
fn decimal_writes_numbers_as_format_does() {
    for n in [0u128, 7, 10, 99, 100, 65536, u64::MAX as u128, u128::MAX] {
        assert_eq!(decimal(n), format!("{n}"));
    }
}

#[test]
fn sizes_below_a_megabyte_are_whole_kilobytes_rounded_up() {
    assert_eq!(readable_size(0), "0 KB");
    assert_eq!(readable_size(1), "1 KB");
    assert_eq!(readable_size(1024), "1 KB");
    assert_eq!(readable_size(1025), "2 KB");
    assert_eq!(readable_size(1_048_575), "1024 KB");
}

#[test]
fn sizes_from_a_megabyte_are_tenths_of_megabytes() {
    assert_eq!(readable_size(1_048_576), "1.0 MB");
    assert_eq!(readable_size(1_572_864), "1.5 MB");
    assert_eq!(readable_size(10 * 1_048_576 - 1), "10.0 MB");
}

#[test]
fn megabytes_round_as_float_formatting_does() {
    // 2.25 MB and 2.35 MB sit exactly on or near a half tenth.
    let samples = [
        1_048_576u64,
        2_359_296,
        2_464_153,
        2_464_154,
        3_670_016,
        123_456_789,
        1 << 53,
        (1 << 53) + 1,
        (1 << 60) + 12_345,
        u64::MAX,
        u64::MAX - 1024,
    ];
    for b in samples {
        assert_eq!(readable_size(b), format!("{:.1} MB", b as f64 / 1_048_576.0), "{b}");
    }
    let mut b: u64 = 1_048_576;
    while b < 40_000_000 {
        assert_eq!(readable_size(b), format!("{:.1} MB", b as f64 / 1_048_576.0), "{b}");
        b += 52_429;
    }
    for k in 0u64..200 {
        let tie = (2 * k + 1) * 262_144 * 5 + 1_048_576 * 3;
        for b in [tie - 1, tie, tie + 1] {
            assert_eq!(readable_size(b), format!("{:.1} MB", b as f64 / 1_048_576.0), "{b}");
        }
    }
}

#[test]
fn recent_dupes_come_newest_first_and_never_opened_ones_not_at_all() {
    assert_eq!(recent_order(&vec![5, 0, 9, 5, 1]), vec![2, 0, 3, 4]);
    assert_eq!(recent_order(&vec![0, 0]), Vec::<usize>::new());
    assert_eq!(recent_order(&vec![]), Vec::<usize>::new());
}

#[test]
fn a_dupe_is_shown_by_its_title_or_else_its_file_name() {
    assert_eq!(shown_title(&"My tank".to_string(), &"tank-2".to_string()), "My tank");
    assert_eq!(shown_title(&String::new(), &"tank-2".to_string()), "tank-2");
}
