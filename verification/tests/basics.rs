//! Numbers, bytes and text.
use k1k::align::{align_up, div_ceil, is_power_of_two};
use k1k::bytes::{
    equal, find_byte, get_u16, get_u32, get_u64, put_u32, put_u64, words_to_bytes,
};
use k1k::decimal::{digits, put_num};
use k1k::text::{
    chars_of, find_char, lines_of, parse_number, same, split_at, text_of, trimmed, trimmed_end,
    white, words_of,
};

fn strs(v: Vec<&[char]>) -> Vec<String> {
    v.iter().map(|s| s.iter().collect()).collect()
}

#[test]
fn rounding() {
    assert_eq!(align_up(0, 16), 0);
    assert_eq!(align_up(1, 16), 16);
    assert_eq!(align_up(16, 16), 16);
    assert_eq!(align_up(4097, 4096), 8192);
    assert_eq!(div_ceil(0, 4096), 0);
    assert_eq!(div_ceil(1, 4096), 1);
    assert_eq!(div_ceil(4096, 4096), 1);
    assert_eq!(div_ceil(4097, 4096), 2);
    assert!(is_power_of_two(1));
    assert!(is_power_of_two(0x8000_0000_0000_0000));
    assert!(!is_power_of_two(0));
    assert!(!is_power_of_two(12));
}

#[test]
fn words_in_bytes() {
    let mut b = [0u8; 16];
    put_u32(&mut b, 1, 0x1234_5678);
    assert_eq!(b[1..5], [0x78, 0x56, 0x34, 0x12]);
    assert_eq!(get_u32(&b, 1), 0x1234_5678);
    assert_eq!(get_u16(&b, 1), 0x5678);
    put_u64(&mut b, 8, 0x0102_0304_0506_0708);
    assert_eq!(get_u64(&b, 8), 0x0102_0304_0506_0708);
    assert_eq!(b[8], 8);
    assert_eq!(words_to_bytes(&[1, 0x0200]), [1, 0, 0, 0, 0, 0, 0, 0, 0, 2, 0, 0, 0, 0, 0, 0]);
    assert_eq!(find_byte(b"abcabc", b'c', 0), 2);
    assert_eq!(find_byte(b"abcabc", b'c', 3), 5);
    assert_eq!(find_byte(b"abcabc", b'x', 0), 6);
    assert!(equal(b"abc", b"abc"));
    assert!(!equal(b"abc", b"abd"));
    assert!(!equal(b"abc", b"ab"));
}

#[test]
fn decimals() {
    assert_eq!(digits(0), b"0");
    assert_eq!(digits(1024), b"1024");
    assert_eq!(digits(u64::MAX), b"18446744073709551615");
    let mut buf = *b"x.......";
    assert_eq!(put_num(&mut buf, 1, 305), 4);
    assert_eq!(&buf, b"x305....");
    // What does not fit is cut off.
    let mut buf = *b"....";
    assert_eq!(put_num(&mut buf, 2, 12345), 4);
}

#[test]
fn bytes_as_text() {
    assert_eq!(text_of(b"abc"), Some("abc"));
    assert_eq!(text_of("h\u{e9}".as_bytes()), Some("h\u{e9}"));
    assert_eq!(text_of(&[0xFF, 0xFE]), None);
    assert_eq!(text_of(&[0xC3]), None);
    assert_eq!(text_of(&[]), Some(""));
    assert_eq!(chars_of("a\u{e9}b"), ['a', '\u{e9}', 'b']);
}

#[test]
fn cutting_text() {
    assert!(white(' ') && white('\t') && white('\n') && white('\u{a0}'));
    assert!(!white('x'));
    let t = chars_of("  a b \n");
    assert_eq!(trimmed(&t), ['a', ' ', 'b']);
    assert_eq!(trimmed_end(&t), [' ', ' ', 'a', ' ', 'b']);
    assert_eq!(strs(lines_of(&chars_of("a\r\nb\n\nc"))), ["a", "b", "", "c"]);
    assert_eq!(strs(lines_of(&chars_of("a\n"))), ["a"]);
    assert!(lines_of(&chars_of("")).is_empty());
    assert_eq!(strs(words_of(&chars_of("  one\ttwo  three "))), ["one", "two", "three"]);
    assert_eq!(strs(split_at(&chars_of("a,,b"), ',')), ["a", "", "b"]);
    assert_eq!(strs(split_at(&chars_of(""), ',')), [""]);
    assert_eq!(find_char(&chars_of("k=v"), '='), 1);
    assert_eq!(find_char(&chars_of("kv"), '='), 2);
    assert!(same(&chars_of("ab"), &chars_of("ab")));
    assert!(!same(&chars_of("ab"), &chars_of("aB")));
}

#[test]
fn numbers_in_text() {
    let p = |s: &str| parse_number(&chars_of(s), u64::MAX);
    assert_eq!(p("0"), Some(0));
    assert_eq!(p("+7"), Some(7));
    assert_eq!(p("18446744073709551615"), Some(u64::MAX));
    assert_eq!(p("18446744073709551616"), None);
    assert_eq!(p(""), None);
    assert_eq!(p("+"), None);
    assert_eq!(p("-1"), None);
    assert_eq!(p("12x"), None);
    assert_eq!(parse_number(&chars_of("256"), 255), None);
    assert_eq!(parse_number(&chars_of("255"), 255), Some(255));
}
