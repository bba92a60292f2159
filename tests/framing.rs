use std::cmp::Ordering;

use ulp_merge::lines::{read_next_line, trim_line_break};
use ulp_merge::order::compare_lines;

fn trimmed(bytes: &[u8]) -> Vec<u8> {
    let mut v = bytes.to_vec();
    trim_line_break(&mut v);
    v
}

#[test]
fn trim_removes_lf_and_crlf() {
    assert_eq!(trimmed(b"abc\n"), b"abc".to_vec());
    assert_eq!(trimmed(b"abc\r\n"), b"abc".to_vec());
    assert_eq!(trimmed(b"abc\r"), b"abc".to_vec());
    assert_eq!(trimmed(b"abc"), b"abc".to_vec());
    assert_eq!(trimmed(b"a\r\r\n"), b"a\r".to_vec());
    assert_eq!(trimmed(b"\n"), Vec::<u8>::new());
    assert_eq!(trimmed(b""), Vec::<u8>::new());
}

#[test]
fn read_next_line_walks_a_buffer() {
    let buf = b"one\r\ntwo\n\nlast\r";
    let mut pos = 0;
    assert_eq!(read_next_line(buf, &mut pos), Some(b"one".to_vec()));
    assert_eq!(pos, 5);
    assert_eq!(read_next_line(buf, &mut pos), Some(b"two".to_vec()));
    assert_eq!(read_next_line(buf, &mut pos), Some(Vec::new()));
    assert_eq!(read_next_line(buf, &mut pos), Some(b"last".to_vec()));
    assert_eq!(pos, buf.len());
    assert_eq!(read_next_line(buf, &mut pos), None);
}

#[test]
fn empty_stream_has_no_lines() {
    let mut pos = 0;
    assert_eq!(read_next_line(b"", &mut pos), None);
    assert_eq!(pos, 0);
}

#[test]
fn unterminated_fragment_is_a_line() {
    let mut pos = 0;
    assert_eq!(read_next_line(b"tail", &mut pos), Some(b"tail".to_vec()));
    assert_eq!(pos, 4);
}

#[test]
fn lines_compare_by_unsigned_bytes() {
    assert_eq!(compare_lines(b"a", b"b"), Ordering::Less);
    assert_eq!(compare_lines(b"ab", b"a"), Ordering::Greater);
    assert_eq!(compare_lines(b"", b""), Ordering::Equal);
    assert_eq!(compare_lines(b"", b"x"), Ordering::Less);
    assert_eq!(compare_lines(&[0x80], &[0x7f]), Ordering::Greater);
    assert_eq!(compare_lines(b"same", b"same"), Ordering::Equal);
}
