use aips_records::text::{
    chars_of, contains, ends_with, padded_decimal_text, parse_u32, same_text, take_before,
    text_at_most, trim,
};

#[test]
fn chars_come_in_order() {
    assert_eq!(chars_of("aé1"), vec!['a', 'é', '1']);
    assert_eq!(chars_of(""), Vec::<char>::new());
}

#[test]
fn numbers_are_read_as_std_reads_them() {
    for text in [
        "0", "7", "00100", "150", "+5", "4294967295", "4294967296", "99999999999", "", "+",
        "-5", "++5", "5+", " 5", "5 ", "1_000", "12a", "٣",
    ] {
        assert_eq!(parse_u32(text), text.parse::<u32>().ok(), "{:?}", text);
    }
}

#[test]
fn number_at_the_limit() {
    assert_eq!(parse_u32("4294967295"), Some(u32::MAX));
    assert_eq!(parse_u32("4294967296"), None);
    assert_eq!(parse_u32("+00042"), Some(42));
}

#[test]
fn padding_fills_up_to_the_width() {
    assert_eq!(padded_decimal_text(5, 5), "00005");
    assert_eq!(padded_decimal_text(0, 5), "00000");
    assert_eq!(padded_decimal_text(4512, 5), "04512");
    assert_eq!(padded_decimal_text(99999, 5), "99999");
    assert_eq!(padded_decimal_text(123456, 5), "123456");
    assert_eq!(padded_decimal_text(u32::MAX, 5), "4294967295");
    assert_eq!(padded_decimal_text(0, 0), "0");
    assert_eq!(padded_decimal_text(0, 1), "0");
    assert_eq!(padded_decimal_text(150, 1), "150");
    assert_eq!(padded_decimal_text(3, 2), "03");
}

#[test]
fn padding_is_what_format_gives() {
    for n in [0u32, 1, 9, 10, 99, 100, 12345, 99999, 100000, 4000000000] {
        assert_eq!(padded_decimal_text(n, 5), format!("{:05}", n));
        assert_eq!(padded_decimal_text(n, 1), format!("{}", n));
        assert_eq!(padded_decimal_text(n, 4), format!("{:04}", n));
    }
}

#[test]
fn strings_are_ordered_as_std_orders_them() {
    let texts = [
        "", "a", "ab", "b", "2024-01-01", "2024-06-01", "2024-06-01T", "2023-12-31", "é", "z",
        "日本", "\u{10000}", "\u{ffff}",
    ];
    for a in texts {
        for b in texts {
            assert_eq!(text_at_most(a, b), a <= b, "{:?} {:?}", a, b);
            assert_eq!(same_text(a, b), a == b, "{:?} {:?}", a, b);
        }
    }
}

#[test]
fn trim_takes_white_space_off_both_ends() {
    assert_eq!(trim("  04512\n"), "04512");
    assert_eq!(trim("04512"), "04512");
    assert_eq!(trim(" a b "), "a b");
    assert_eq!(trim(" \t\r\n"), "");
    assert_eq!(trim(""), "");
    assert_eq!(trim("\u{a0}12345\u{3000}"), "12345");
    assert_eq!(trim("\u{200b}x"), "\u{200b}x");
}

#[test]
fn trim_is_what_std_gives() {
    for text in ["", " ", "  x", "x  ", "\u{2003}x\u{2028}", "\u{85}y\u{1680}", "é ", "\u{feff}z"] {
        assert_eq!(trim(text), text.trim(), "{:?}", text);
    }
}

#[test]
fn text_before_the_first_stop() {
    assert_eq!(take_before("2024-03-15T10:00:00", 'T'), "2024-03-15");
    assert_eq!(take_before("2024-03-15", 'T'), "2024-03-15");
    assert_eq!(take_before("T10", 'T'), "");
    assert_eq!(take_before("", 'T'), "");
    assert_eq!(take_before("aTbTc", 'T'), "a");
    assert_eq!(take_before("éTb", 'T'), "é");
}

#[test]
fn parts_of_a_name() {
    assert!(ends_with("AipsDownload_1.xml", ".xml"));
    assert!(!ends_with("AipsDownload_1.xml.bak", ".xml"));
    assert!(!ends_with("xml", ".xml"));
    assert!(ends_with("a", ""));
    assert!(contains("dir/AipsDownload_1.xml", "AipsDownload"));
    assert!(!contains("dir/Aips_Download_1.xml", "AipsDownload"));
    assert!(contains("abc", ""));
    assert!(contains("", ""));
    assert!(!contains("", "a"));
    assert!(contains("xxAipsDownload", "AipsDownload"));
}
