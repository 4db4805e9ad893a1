use deadlock_detector::text;
use deadlock_detector::text::{
    before_last, bytes_eq, contains, ends_with, find_from, format_dec, join_from, lines,
    make_block_id, replace, split, starts_with, suffix_from,
};

fn owned(parts: &[&str]) -> Vec<Vec<u8>> {
    parts.iter().map(|p| p.as_bytes().to_vec()).collect()
}

#[test]
fn split_on_dash_keeps_empty_pieces() {
    assert_eq!(split(b"0-1-2", b"-"), owned(&["0", "1", "2"]));
    assert_eq!(split(b"-a-", b"-"), owned(&["", "a", ""]));
    assert_eq!(split(b"", b"-"), owned(&[""]));
    assert_eq!(split(b"a::b::c", b"::"), owned(&["a", "b", "c"]));
}

#[test]
fn split_on_quotes_like_a_manifest_line() {
    assert_eq!(split(b"name = \"mylib\"", b"\""), owned(&["name = ", "mylib", ""]));
}

#[test]
fn replace_every_occurrence() {
    assert_eq!(replace(b"self.m.self", b"self", b"outer"), b"outer.m.outer".to_vec());
    assert_eq!(replace(b"lock", b".lock", b""), b"lock".to_vec());
    assert_eq!(replace(b"abc", b"x", b"y"), b"abc".to_vec());
}

#[test]
fn join_from_skips_leading_parts() {
    let parts = owned(&["lib", "Counter", "new"]);
    assert_eq!(join_from(&parts, 1, b"::"), b"Counter::new".to_vec());
    assert_eq!(join_from(&parts, 3, b"::"), Vec::<u8>::new());
    assert_eq!(join_from(&parts, 0, b""), b"libCounternew".to_vec());
}

#[test]
fn searching_bytes() {
    assert!(contains(b"thread::spawn", b"::"));
    assert!(!contains(b"lock", b"."));
    assert!(contains(b"abc", b""));
    assert_eq!(find_from(b"a.b.c", b".", 0), Some(1));
    assert_eq!(find_from(b"a.b.c", b".", 2), Some(3));
    assert_eq!(find_from(b"a.b.c", b".", 4), None);
    assert!(starts_with(b"Arc::new(x)", b"Arc::new("));
    assert!(!starts_with(b"Arc", b"Arc::"));
    assert!(ends_with(b"main.rs", b".rs"));
    assert!(!ends_with(b"rs", b".rs"));
    assert!(bytes_eq(b"lock", b"lock"));
    assert!(!bytes_eq(b"lock", b"locks"));
}

#[test]
fn concat_and_block_ids() {
    assert_eq!(text::concat(b"ab", b"cd"), b"abcd".to_vec());
    assert_eq!(format_dec(0), b"0".to_vec());
    assert_eq!(format_dec(7), b"7".to_vec());
    assert_eq!(format_dec(1203), b"1203".to_vec());
    assert_eq!(format_dec(i32::MAX), b"2147483647".to_vec());
    assert_eq!(make_block_id(b"0", 1), b"0-1".to_vec());
    assert_eq!(make_block_id(b"0-1", 12), b"0-1-12".to_vec());
}

#[test]
fn before_last_takes_the_manifest_directory() {
    assert_eq!(before_last(b"proj/Cargo.toml", b"Cargo.toml"), Some(b"proj/".to_vec()));
    assert_eq!(before_last(b"a/Cargo.toml/b/Cargo.toml", b"Cargo.toml"), Some(b"a/Cargo.toml/b/".to_vec()));
    assert_eq!(before_last(b"Cargo.toml", b"Cargo.toml"), Some(Vec::new()));
    assert_eq!(before_last(b"manifest", b"Cargo.toml"), None);
}

#[test]
fn suffix_from_respects_char_boundaries() {
    assert_eq!(suffix_from(b"&x", 1), Some(b"x".to_vec()));
    assert_eq!(suffix_from(b"ab", 2), Some(Vec::new()));
    assert_eq!(suffix_from(b"ab", 3), None);
    let e = "é".as_bytes();
    assert_eq!(suffix_from(e, 1), None);
    assert_eq!(suffix_from(e, 0), Some(e.to_vec()));
}

#[test]
fn lines_like_str_lines() {
    let text = "a\nb\r\n\nc\r";
    let expected: Vec<Vec<u8>> = text.lines().map(|l| l.as_bytes().to_vec()).collect();
    assert_eq!(lines(text.as_bytes()), expected);
    assert_eq!(lines(b"x\n"), owned(&["x"]));
    assert_eq!(lines(b""), Vec::<Vec<u8>>::new());
    assert_eq!(lines(b"\n\n"), owned(&["", ""]));
}
