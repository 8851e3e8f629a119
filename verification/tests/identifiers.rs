use hit::cursor::Cursor;
use hit::error::Error;
use hit::oid::{Oid, GIT_OID_RAWSZ};

fn sample() -> Oid {
    let mut id = [0u8; GIT_OID_RAWSZ];
    for (i, b) in id.iter_mut().enumerate() {
        *b = (i as u8) * 13 + 1;
    }
    Oid::new(id)
}

#[test]
fn hex_is_forty_lowercase_digits() {
    let oid = Oid::new([
        0x3b, 0x18, 0xe5, 0x12, 0xdb, 0xa7, 0x9e, 0x4c, 0x83, 0x00, 0xdd, 0x08, 0xae, 0xb3, 0x7f,
        0x8e, 0x72, 0x8b, 0x8d, 0xad,
    ]);
    assert_eq!(oid.hex(), "3b18e512dba79e4c8300dd08aeb37f8e728b8dad");
    assert_eq!(oid.hex_bytes(), b"3b18e512dba79e4c8300dd08aeb37f8e728b8dad".to_vec());
}

#[test]
fn from_hex_reads_either_case() {
    let lower = Oid::from_hex(b"3b18e512dba79e4c8300dd08aeb37f8e728b8dad").unwrap();
    let upper = Oid::from_hex(b"3B18E512DBA79E4C8300DD08AEB37F8E728B8DAD").unwrap();
    assert_eq!(lower, upper);
    assert_eq!(lower.as_bytes()[0], 0x3b);
    assert_eq!(lower.as_bytes()[19], 0xad);
}

#[test]
fn from_hex_of_hex_is_identity() {
    let oid = sample();
    let back = Oid::from_hex(oid.hex().as_bytes()).unwrap();
    assert_eq!(back, oid);
    assert_eq!(back.as_bytes(), oid.as_bytes());
}

#[test]
fn from_hex_rejects_wrong_length() {
    assert_eq!(Oid::from_hex(b"").err(), Some(Error::FormatError));
    assert_eq!(Oid::from_hex(b"3b18").err(), Some(Error::FormatError));
    assert_eq!(
        Oid::from_hex(b"3b18e512dba79e4c8300dd08aeb37f8e728b8da").err(),
        Some(Error::FormatError)
    );
    assert_eq!(
        Oid::from_hex(b"3b18e512dba79e4c8300dd08aeb37f8e728b8dad00").err(),
        Some(Error::FormatError)
    );
}

#[test]
fn from_hex_rejects_other_characters() {
    assert_eq!(
        Oid::from_hex(b"3b18e512dba79e4c8300dd08aeb37f8e728b8dag").err(),
        Some(Error::FormatError)
    );
    assert_eq!(
        Oid::from_hex(b"3b18e512dba79e4c8300 d08aeb37f8e728b8dad").err(),
        Some(Error::FormatError)
    );
}

#[test]
fn hash_is_sha1() {
    assert_eq!(Oid::hash(b"").hex(), "da39a3ee5e6b4b0d3255bfef95601890afd80709");
    assert_eq!(
        Oid::hash(b"blob 12\0hello world\n").hex(),
        "3b18e512dba79e4c8300dd08aeb37f8e728b8dad"
    );
}

#[test]
fn hash_of_same_bytes_is_same() {
    let a = Oid::hash(b"some content");
    let b = Oid::hash(b"some content");
    let c = Oid::hash(b"some content.");
    assert_eq!(a, b);
    assert_ne!(a, c);
    assert!(a.same(&b));
    assert!(!a.same(&c));
}

#[test]
fn from_reader_takes_twenty_bytes() {
    let mut bytes: Vec<u8> = (0u8..25).collect();
    let mut reader = Cursor::new(bytes.clone());
    let oid = Oid::from_reader(&mut reader).unwrap();
    bytes.truncate(20);
    assert_eq!(oid.as_bytes(), &bytes[..]);
    assert_eq!(reader.remaining(), 5);
    assert_eq!(reader.read_to_end(), vec![20u8, 21, 22, 23, 24]);
}

#[test]
fn from_reader_fails_on_short_input() {
    let mut reader = Cursor::new(vec![7u8; 19]);
    assert_eq!(Oid::from_reader(&mut reader).err(), Some(Error::IOError));
    assert_eq!(reader.remaining(), 19);
}

#[test]
fn cursor_reads_through_delimiter() {
    let mut reader = Cursor::new(b"tree 12\0rest".to_vec());
    assert_eq!(reader.read_until(b' '), b"tree ".to_vec());
    assert_eq!(reader.read_until(0), b"12\0".to_vec());
    assert_eq!(reader.read_until(b'!'), b"rest".to_vec());
    assert_eq!(reader.read_until(b'!'), Vec::<u8>::new());
    assert_eq!(reader.remaining(), 0);
}

#[test]
fn cursor_reads_up_to_pair() {
    let mut reader = Cursor::new(b"A<B  <b>@x> tail".to_vec());
    assert_eq!(reader.read_until_pair(b' ', b'<'), Some(b"A<B ".to_vec()));
    assert_eq!(reader.read_until_pair(b'>', b' '), Some(b"b>@x".to_vec()));
    assert_eq!(reader.read_until_pair(b'>', b' '), None);
    assert_eq!(reader.read_to_end(), b"tail".to_vec());
}

#[test]
fn cursor_read_exact_fails_without_moving() {
    let mut reader = Cursor::new(vec![1u8, 2, 3]);
    assert_eq!(reader.read_exact(4).err(), Some(Error::IOError));
    assert_eq!(reader.read_exact(2), Ok(vec![1u8, 2]));
    assert_eq!(reader.read_exact(0), Ok(vec![]));
    assert_eq!(reader.read_exact(1), Ok(vec![3u8]));
    assert_eq!(reader.read_exact(1).err(), Some(Error::IOError));
}
