use algorist::io::Scanner;

fn scan_of(input: &[u8]) -> Scanner {
    Scanner::new(input.to_vec())
}

#[test]
fn read_i32_list() {
    let input = b"1 2\n";
    let mut scanner = scan_of(input.as_ref());

    let x: i32 = scanner.i().unwrap();
    let y: i32 = scanner.i().unwrap();
    assert_eq!(x + y, 3);
}

#[test]
fn read_usize_list() {
    let input = b"1 2\n";
    let mut scanner = scan_of(input.as_ref());
    let (x, y) = scanner.u2().unwrap();
    assert_eq!(x + y, 3);

    let input = b"1 2 3\n";
    let mut scanner = Scanner::new(input.to_vec());
    let (x, y, z) = scanner.u3().unwrap();
    assert_eq!(x + y + z, 6);
}

#[test]
fn read_pair() {
    let input = b"1 2\n";
    let mut scanner = scan_of(input.as_ref());
    let (x, y): (i32, i32) = scanner.pair().unwrap();
    assert_eq!(x + y, 3);
}

#[test]
fn read_triplet() {
    let input = b"1 2 3\n";
    let mut scanner = scan_of(input.as_ref());
    let (x, y, z): (i32, i32, i32) = scanner.triplet().unwrap();
    assert_eq!(x + y + z, 6);
}

#[test]
fn read_string() {
    let input = b"hello\nworld\n";
    let mut scanner = scan_of(input.as_ref());
    let s: String = scanner.string().unwrap();
    assert_eq!(s, "hello");
    let s: String = scanner.string().unwrap();
    assert_eq!(s, "world");
}

#[test]
fn read_byte_list() {
    let input = b"abc\n";
    let mut scanner = scan_of(input.as_ref());
    let bytes: Vec<u8> = scanner.bytes().unwrap();
    assert_eq!(bytes, vec![b'a', b'b', b'c']);
}

#[test]
fn read_char_list() {
    let input = b"abc\n";
    let mut scanner = scan_of(input.as_ref());
    let chars: Vec<char> = scanner.chars().unwrap();
    assert_eq!(chars, vec!['a', 'b', 'c']);
}

#[test]
fn read_vec() {
    let input = b"1 2 3\n";
    let mut scanner = scan_of(input.as_ref());
    let v: Vec<i32> = scanner.vec(3).unwrap();
    assert_eq!(v, vec![1, 2, 3]);

    let input = b"1 2 3\n";
    let mut scanner = scan_of(input.as_ref());
    let v: Vec<i32> = scanner.vec_padded(3).unwrap();
    assert_eq!(v, vec![0, 1, 2, 3]);
}

#[test]
fn read_signed_and_bounds() {
    let mut scanner = scan_of(b"  -2147483648 +7 2147483648 x 18446744073709551615 18446744073709551616".as_ref());
    assert_eq!(scanner.i(), Some(i32::MIN));
    assert_eq!(scanner.i(), Some(7));
    assert_eq!(scanner.i(), None);
    assert_eq!(scanner.u(), None);
    assert_eq!(scanner.u(), Some(usize::MAX));
    assert_eq!(scanner.u(), None);
    assert_eq!(scanner.u(), None);
    assert_eq!(scanner.token(), None);
}

#[test]
fn read_many_kinds() {
    let mut scanner = scan_of(b"1 2 3 4\n-1 -2 -3 -4\n5 6 7\n".as_ref());
    assert_eq!(scanner.u4(), Some((1, 2, 3, 4)));
    assert_eq!(scanner.i4(), Some((-1, -2, -3, -4)));
    assert_eq!(scanner.i2(), Some((5, 6)));
    assert_eq!(scanner.i3(), None);
    assert_eq!(scanner.vec(2), None);
}

#[test]
fn read_invalid_text() {
    let mut scanner = scan_of(&[0xff, 0xfe, b' ', b'o', b'k']);
    assert_eq!(scanner.string(), None);
    assert_eq!(scanner.chars(), Some(vec!['o', 'k']));
}

use algorist::io::{wv, wvln};

#[test]
fn write_vec() {
    let mut output = Vec::new();
    wv(&mut output, &vec![1, 2, 3]);
    assert_eq!(output, b"1 2 3");
}

#[test]
fn write_signed_lines() {
    let mut output = Vec::new();
    wvln(&mut output, &[-10, 0, i64::MIN, i64::MAX]);
    wvln(&mut output, &[]);
    assert_eq!(output, b"-10 0 -9223372036854775808 9223372036854775807\n\n".to_vec());
}

#[test]
fn read_queue_and_set() {
    let mut scanner = scan_of(b"3 1 3 2 7 x".as_ref());
    let q = scanner.vec_deque(2).unwrap();
    assert_eq!(q, std::collections::VecDeque::from(vec![3, 1]));
    let s = scanner.hash_set(3).unwrap();
    assert_eq!(s, [3, 2, 7].into_iter().collect());
    assert_eq!(scanner.hash_set(1), None);
}
