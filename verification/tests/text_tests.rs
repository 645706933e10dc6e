use file_time_machine::text::{
    contains_text, literal_string, parse_decimal, path_under_dir, str_eq, str_lex_less,
    to_decimal, to_lower_hex, to_upper_hex,
};

#[test]
fn decimal_renders_canonically() {
    assert_eq!(to_decimal(0), "0");
    assert_eq!(to_decimal(7), "7");
    assert_eq!(to_decimal(1203), "1203");
    assert_eq!(to_decimal(u64::MAX), "18446744073709551615");
}

#[test]
fn decimal_parses_back() {
    for n in [0u64, 1, 9, 10, 99, 100, 123456789, u64::MAX] {
        let s = to_decimal(n);
        assert_eq!(parse_decimal(&s), Some(n));
    }
}

#[test]
fn decimal_rejects_junk() {
    assert_eq!(parse_decimal(&literal_string("")), None);
    assert_eq!(parse_decimal(&literal_string("007")), None);
    assert_eq!(parse_decimal(&literal_string("12a")), None);
    assert_eq!(parse_decimal(&literal_string("18446744073709551616")), None);
}

#[test]
fn hex_renders_both_cases() {
    let data: Vec<u8> = vec![0xbe, 0xef, 0x00, 0x1a];
    assert_eq!(to_upper_hex(&data), "BEEF001A");
    assert_eq!(to_lower_hex(&data), "beef001a");
}

#[test]
fn substring_search_finds_sidecar_names() {
    let hay = literal_string("/root/project/.time/patches.json");
    assert!(contains_text(&hay, &literal_string(".time")));
    assert!(!contains_text(&hay, &literal_string(".git")));
    assert!(contains_text(&hay, &literal_string("")));
    let short = literal_string("ab");
    assert!(!contains_text(&short, &literal_string("abc")));
}

#[test]
fn string_equality_and_order() {
    assert!(str_eq("First patch", "First patch"));
    assert!(!str_eq("First patch", "first patch"));
    assert!(str_lex_less("ABC", "ABD"));
    assert!(str_lex_less("AB", "ABC"));
    assert!(!str_lex_less("ABD", "ABC"));
    assert!(!str_lex_less("ABC", "ABC"));
}

#[test]
fn path_prefix_test() {
    let root = literal_string("/data/tree");
    assert!(path_under_dir(&root, &literal_string("/data/tree/a.txt")));
    assert!(!path_under_dir(&root, &literal_string("/data/tree/")));
    assert!(!path_under_dir(&root, &literal_string("/data/treehouse/a")));
    assert!(!path_under_dir(&root, &literal_string("/data/tree")));
}
