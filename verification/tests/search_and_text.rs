use dv2_dnt_fix::log::log_line;
use dv2_dnt_fix::search::{context, find_all};
use dv2_dnt_fix::text::{decimal, hex_upper};

#[test]
fn find_all_lists_every_occurrence_in_order() {
    assert_eq!(find_all(b"abcabcab", b"ab"), vec![0, 3, 6]);
    assert_eq!(find_all(b"aaaa", b"aa"), vec![0, 1, 2]);
    assert_eq!(find_all(b"abc", b"x"), Vec::<usize>::new());
}

#[test]
fn find_all_empty_or_too_long_needle_finds_nothing() {
    assert_eq!(find_all(b"abc", b""), Vec::<usize>::new());
    assert_eq!(find_all(b"ab", b"abc"), Vec::<usize>::new());
    assert_eq!(find_all(b"", b"a"), Vec::<usize>::new());
}

#[test]
fn context_shows_printable_bytes_and_spaces() {
    let data = b"ab\x00c\xffd";
    assert_eq!(context(data, 2), "ab c d");
}

#[test]
fn context_window_starts_80_before_and_spans_220() {
    let data: Vec<u8> = (0..400u32).map(|i| b'a' + (i % 26) as u8).collect();
    let s = context(&data, 100);
    assert_eq!(s.len(), 220);
    assert_eq!(s.as_bytes()[0], data[20]);
    let tail = context(&data, 390);
    assert_eq!(tail.len(), 90);
    assert_eq!(tail.as_bytes()[0], data[310]);
}

#[test]
fn decimal_and_hex_numerals() {
    assert_eq!(decimal(0), "0");
    assert_eq!(decimal(181669), "181669");
    assert_eq!(hex_upper(0x53963), "53963");
    assert_eq!(hex_upper(0xABCDEF), "ABCDEF");
    assert_eq!(hex_upper(0), "0");
}

#[test]
fn log_line_stamps_each_line() {
    let mut log = String::from("x\n");
    log_line(&mut log, "hello");
    assert!(log.starts_with("x\n["));
    let line = &log[2..];
    assert_eq!(line.len(), 1 + 8 + 2 + 5 + 1);
    let b = line.as_bytes();
    assert_eq!(b[0], b'[');
    assert_eq!(b[3], b':');
    assert_eq!(b[6], b':');
    assert_eq!(b[9], b']');
    assert_eq!(&line[10..], " hello\n");
    for i in [1usize, 2, 4, 5, 7, 8] {
        assert!(b[i].is_ascii_digit());
    }
}
