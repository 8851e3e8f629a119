use hit::cursor::Cursor;
use hit::endian::{read_i32, read_u16, read_u32, write_i32, write_u16, write_u32};
use hit::error::Error;
use hit::index::{FileStat, Index, IndexEntry, IndexHeader, IndexTime};
use hit::oid::Oid;

fn stat() -> FileStat {
    FileStat {
        ctime: IndexTime::new(1_700_000_000, 123_456_789),
        mtime: IndexTime::new(-2, 999_999_999),
        dev: 0x0102_0304,
        ino: 0xfffe_fdfc,
        mode: 0o100644,
        uid: 1000,
        gid: 1001,
        size: 12,
    }
}

fn entry_with_path(path: &[u8]) -> IndexEntry {
    IndexEntry::new(path, &stat(), b"hello world\n")
}

fn path_of_len(n: usize) -> Vec<u8> {
    (0..n).map(|i| b'a' + (i % 26) as u8).collect()
}

fn check_padding(n: usize) {
    let entry = entry_with_path(&path_of_len(n));
    let mut bytes = Vec::new();
    entry.write(&mut bytes);
    let expected = (62 + n + 7) / 8 * 8;
    assert!(expected >= 62 + n);
    assert_eq!(bytes.len(), expected);
    assert_eq!(bytes.len() % 8, 0);
    assert!(bytes[62 + n..].iter().all(|b| *b == 0));
    let mut reader = Cursor::new(bytes);
    let back = IndexEntry::from_reader(&mut reader).unwrap();
    assert_eq!((back.flags & 0x0fff) as usize, n);
    assert_eq!(back.path.len(), n);
    assert_eq!(back.path, path_of_len(n));
    assert_eq!(reader.remaining(), 0);
}

#[test]
fn entry_length_for_path_length_0() {
    check_padding(0);
}

#[test]
fn entry_length_for_path_length_1() {
    check_padding(1);
}

#[test]
fn entry_length_for_path_length_6() {
    check_padding(6);
}

#[test]
fn entry_length_for_path_length_7() {
    check_padding(7);
}

#[test]
fn entry_length_for_path_length_8() {
    check_padding(8);
}

#[test]
fn entry_length_for_path_length_61() {
    check_padding(61);
}

#[test]
fn entry_gets_eight_bytes_of_padding_on_a_multiple_of_eight() {
    let entry = entry_with_path(&path_of_len(2));
    let mut bytes = Vec::new();
    entry.write(&mut bytes);
    assert_eq!(bytes.len(), 72);
    let mut reader = Cursor::new(bytes);
    let back = IndexEntry::from_reader(&mut reader).unwrap();
    assert_eq!(back.path, b"ab".to_vec());
    assert_eq!(reader.remaining(), 0);
}

#[test]
fn entry_bytes_are_big_endian() {
    let entry = entry_with_path(b"a");
    let mut bytes = Vec::new();
    entry.write(&mut bytes);
    assert_eq!(&bytes[0..4], &[0x65, 0x53, 0xf1, 0x00]);
    assert_eq!(&bytes[4..8], &[0x07, 0x5b, 0xcd, 0x15]);
    assert_eq!(&bytes[8..12], &[0xff, 0xff, 0xff, 0xfe]);
    assert_eq!(&bytes[12..16], &[0x3b, 0x9a, 0xc9, 0xff]);
    assert_eq!(&bytes[16..20], &[1, 2, 3, 4]);
    assert_eq!(&bytes[20..24], &[0xff, 0xfe, 0xfd, 0xfc]);
    assert_eq!(&bytes[24..28], &[0, 0, 0x81, 0xa4]);
    assert_eq!(&bytes[28..32], &[0, 0, 0x03, 0xe8]);
    assert_eq!(&bytes[32..36], &[0, 0, 0x03, 0xe9]);
    assert_eq!(&bytes[36..40], &[0, 0, 0, 12]);
    assert_eq!(
        &bytes[40..60],
        Oid::from_hex(b"3b18e512dba79e4c8300dd08aeb37f8e728b8dad").unwrap().as_bytes()
    );
    assert_eq!(&bytes[60..62], &[0, 1]);
    assert_eq!(bytes[62], b'a');
    assert_eq!(&bytes[63..], &[0u8]);
}

#[test]
fn new_entry_holds_the_blob_identifier_and_the_path_length() {
    let entry = entry_with_path(b"src/lib.rs");
    assert_eq!(entry.id.hex(), "3b18e512dba79e4c8300dd08aeb37f8e728b8dad");
    assert_eq!(entry.flags, 10);
    assert_eq!(entry.flags_extended, 0);
    assert_eq!(entry.path, b"src/lib.rs".to_vec());
    assert_eq!(entry.size, 12);
    assert_eq!(entry.mtime.seconds, -2);
}

#[test]
fn entry_read_keeps_the_high_flag_bits() {
    let entry = entry_with_path(b"abc");
    let mut bytes = Vec::new();
    entry.write(&mut bytes);
    bytes[60] = 0xb0;
    let mut reader = Cursor::new(bytes.clone());
    let back = IndexEntry::from_reader(&mut reader).unwrap();
    assert_eq!(back.flags, 0xb003);
    assert_eq!(back.path, b"abc".to_vec());
    let mut again = Vec::new();
    back.write(&mut again);
    assert_eq!(again, bytes);
}

#[test]
fn entry_read_fails_on_truncated_input() {
    let entry = entry_with_path(b"abcdef");
    let mut bytes = Vec::new();
    entry.write(&mut bytes);
    assert_eq!(bytes.len(), 72);
    for cut in [0usize, 1, 61, 62, 67, 68, 71] {
        let mut reader = Cursor::new(bytes[..cut].to_vec());
        assert_eq!(IndexEntry::from_reader(&mut reader).err(), Some(Error::IOError));
    }
}

#[test]
fn new_index_is_empty_version_two() {
    let index = Index::new();
    assert_eq!(index.len(), 0);
    assert_eq!(index.version(), 2);
    let mut bytes = Vec::new();
    index.write(&mut bytes);
    assert_eq!(bytes, vec![b'D', b'I', b'R', b'C', 0, 0, 0, 2, 0, 0, 0, 0]);
}

#[test]
fn add_entry_counts_in_the_header() {
    let mut index = Index::new();
    index.add_entry(entry_with_path(b"b"));
    index.add_entry(entry_with_path(b"a"));
    assert_eq!(index.len(), 2);
    assert_eq!(index.entries().len(), 2);
    assert_eq!(index.entries()[0].path, b"b".to_vec());
    assert_eq!(index.entries()[1].path, b"a".to_vec());
    let mut bytes = Vec::new();
    index.write(&mut bytes);
    assert_eq!(&bytes[8..12], &[0, 0, 0, 2]);
    assert_eq!(bytes.len(), 12 + 64 + 64);
}

#[test]
fn index_round_trip_from_values() {
    let mut index = Index::new();
    for n in [0usize, 1, 6, 7, 8, 61, 200] {
        index.add_entry(entry_with_path(&path_of_len(n)));
    }
    let mut bytes = Vec::new();
    index.write(&mut bytes);
    let mut reader = Cursor::new(bytes.clone());
    let back = Index::from_reader(&mut reader).unwrap();
    assert_eq!(reader.remaining(), 0);
    assert_eq!(back.len(), 7);
    assert_eq!(back.version(), 2);
    for (a, b) in back.entries().iter().zip(index.entries().iter()) {
        assert_eq!(a.path, b.path);
        assert_eq!(a.flags, b.flags);
        assert_eq!(a.id, b.id);
        assert_eq!(a.ctime.seconds, b.ctime.seconds);
        assert_eq!(a.ctime.nanoseconds, b.ctime.nanoseconds);
        assert_eq!(a.mtime.seconds, b.mtime.seconds);
        assert_eq!(a.mtime.nanoseconds, b.mtime.nanoseconds);
        assert_eq!(a.dev, b.dev);
        assert_eq!(a.ino, b.ino);
        assert_eq!(a.mode, b.mode);
        assert_eq!(a.uid, b.uid);
        assert_eq!(a.gid, b.gid);
        assert_eq!(a.size, b.size);
    }
}

#[test]
fn index_round_trip_from_bytes() {
    let mut bytes = vec![b'D', b'I', b'R', b'C', 0, 0, 0, 2, 0, 0, 0, 2];
    let mut first = vec![0u8; 62];
    for (i, b) in first.iter_mut().enumerate() {
        *b = (i as u8).wrapping_mul(37).wrapping_add(5);
    }
    first[60] = 0x00;
    first[61] = 0x03;
    first.extend_from_slice(b"a/b");
    first.extend_from_slice(&[0u8; 7]);
    let mut second = vec![0xffu8; 62];
    second[60] = 0x80;
    second[61] = 0x0a;
    second.extend_from_slice(b"0123456789");
    second.extend_from_slice(&[0u8; 8]);
    bytes.extend_from_slice(&first);
    bytes.extend_from_slice(&second);
    let mut reader = Cursor::new(bytes.clone());
    let index = Index::from_reader(&mut reader).unwrap();
    assert_eq!(reader.remaining(), 0);
    assert_eq!(index.len(), 2);
    assert_eq!(index.entries()[0].path, b"a/b".to_vec());
    assert_eq!(index.entries()[1].path, b"0123456789".to_vec());
    assert_eq!(index.entries()[1].ctime.seconds, -1);
    assert_eq!(index.entries()[1].flags, 0x800a);
    let mut again = Vec::new();
    index.write(&mut again);
    assert_eq!(again, bytes);
}

#[test]
fn index_read_leaves_what_follows_the_entries() {
    let mut index = Index::new();
    index.add_entry(entry_with_path(b"x"));
    let mut bytes = Vec::new();
    index.write(&mut bytes);
    bytes.extend_from_slice(b"TREE....");
    let mut reader = Cursor::new(bytes);
    let back = Index::from_reader(&mut reader).unwrap();
    assert_eq!(back.len(), 1);
    assert_eq!(reader.read_to_end(), b"TREE....".to_vec());
}

#[test]
fn index_read_rejects_bad_magic() {
    let mut reader = Cursor::new(vec![b'D', b'I', b'R', b'X', 0, 0, 0, 2, 0, 0, 0, 0]);
    assert_eq!(Index::from_reader(&mut reader).err(), Some(Error::FormatError));
    let mut reader = Cursor::new(vec![b'd', b'i', b'r', b'c']);
    assert_eq!(Index::from_reader(&mut reader).err(), Some(Error::FormatError));
}

#[test]
fn index_read_fails_on_truncated_input() {
    let mut reader = Cursor::new(vec![b'D', b'I', b'R']);
    assert_eq!(Index::from_reader(&mut reader).err(), Some(Error::IOError));
    let mut reader = Cursor::new(vec![b'D', b'I', b'R', b'C', 0, 0, 0, 2, 0, 0]);
    assert_eq!(Index::from_reader(&mut reader).err(), Some(Error::IOError));
    let mut reader = Cursor::new(vec![b'D', b'I', b'R', b'C', 0, 0, 0, 2, 0, 0, 0, 1]);
    assert_eq!(Index::from_reader(&mut reader).err(), Some(Error::IOError));
    let mut index = Index::new();
    index.add_entry(entry_with_path(b"x"));
    let mut bytes = Vec::new();
    index.write(&mut bytes);
    bytes.pop();
    let mut reader = Cursor::new(bytes);
    assert_eq!(Index::from_reader(&mut reader).err(), Some(Error::IOError));
}

#[test]
fn header_reads_version_and_count() {
    let mut reader = Cursor::new(vec![b'D', b'I', b'R', b'C', 0, 0, 0, 3, 0, 1, 0, 2, 9]);
    let header = IndexHeader::from_reader(&mut reader).unwrap();
    assert_eq!(header.magic, [b'D', b'I', b'R', b'C']);
    assert_eq!(header.version, 3);
    assert_eq!(header.num_entries, 0x0001_0002);
    assert_eq!(reader.remaining(), 1);
    let mut bytes = Vec::new();
    header.write(&mut bytes);
    assert_eq!(bytes, vec![b'D', b'I', b'R', b'C', 0, 0, 0, 3, 0, 1, 0, 2]);
}

#[test]
fn header_increment_adds_one() {
    let mut header = IndexHeader::new();
    assert_eq!(header.magic, [b'D', b'I', b'R', b'C']);
    assert_eq!(header.version, 2);
    assert_eq!(header.num_entries, 0);
    header.increment_entries();
    header.increment_entries();
    assert_eq!(header.num_entries, 2);
    assert_eq!(header.version, 2);
}

#[test]
fn time_round_trip() {
    let time = IndexTime::new(-1_000_000, 4_000_000_000);
    let mut bytes = Vec::new();
    time.write(&mut bytes);
    assert_eq!(bytes, vec![0xff, 0xf0, 0xbd, 0xc0, 0xee, 0x6b, 0x28, 0x00]);
    let mut reader = Cursor::new(bytes);
    let back = IndexTime::from_reader(&mut reader).unwrap();
    assert_eq!(back.seconds, -1_000_000);
    assert_eq!(back.nanoseconds, 4_000_000_000);
    let mut reader = Cursor::new(vec![0u8; 7]);
    assert_eq!(IndexTime::from_reader(&mut reader).err(), Some(Error::IOError));
}

#[test]
fn numbers_are_read_most_significant_byte_first() {
    let mut reader = Cursor::new(vec![0x12, 0x34, 0x56, 0x78, 0x9a, 0xbc, 0x80, 0, 0, 0, 1]);
    assert_eq!(read_u32(&mut reader), Ok(0x1234_5678));
    assert_eq!(read_u16(&mut reader), Ok(0x9abc));
    assert_eq!(read_i32(&mut reader), Ok(i32::MIN));
    assert_eq!(read_u32(&mut reader).err(), Some(Error::IOError));
    assert_eq!(read_i32(&mut reader).err(), Some(Error::IOError));
    assert_eq!(read_u16(&mut reader).err(), Some(Error::IOError));
    assert_eq!(reader.remaining(), 1);
}

#[test]
fn numbers_are_written_most_significant_byte_first() {
    let mut bytes = Vec::new();
    write_u32(&mut bytes, 0x1234_5678);
    write_u16(&mut bytes, 0x9abc);
    write_i32(&mut bytes, -2);
    write_i32(&mut bytes, 1);
    assert_eq!(
        bytes,
        vec![0x12, 0x34, 0x56, 0x78, 0x9a, 0xbc, 0xff, 0xff, 0xff, 0xfe, 0, 0, 0, 1]
    );
}

#[test]
fn header_text_names_each_field() {
    assert_eq!(
        IndexHeader::new().to_text(),
        Ok("IndexHeader { magic: DIRC, version: 2, num_entries: 0 }".to_string())
    );
    let header = IndexHeader { magic: [0xff, b'I', b'R', b'C'], version: 2, num_entries: 0 };
    assert_eq!(header.to_text(), Err(Error::FormatError));
}

#[test]
fn entry_text_names_each_field() {
    assert_eq!(
        entry_with_path(b"src/lib.rs").to_text(),
        Ok("IndexEntry { ctime: IndexTime { seconds: 1700000000, nanoseconds: 123456789 }, \
mtime: IndexTime { seconds: -2, nanoseconds: 999999999 }, dev: 16909060, ino: 4294901244, \
mode: 33188, uid: 1000, gid: 1001, size: 12, id: 3b18e512dba79e4c8300dd08aeb37f8e728b8dad, \
flags: 10, flags_extended: 0, path: src/lib.rs }"
            .to_string())
    );
    assert_eq!(entry_with_path(&[0xff, 0xfe]).to_text(), Err(Error::FormatError));
}

#[test]
fn time_text_names_each_field() {
    let mut text = String::from("> ");
    IndexTime::new(i32::MIN, u32::MAX).append_text(&mut text);
    assert_eq!(text, "> IndexTime { seconds: -2147483648, nanoseconds: 4294967295 }");
}

#[test]
fn index_text_has_the_header_and_the_entries_in_brackets() {
    let mut index = Index::new();
    assert_eq!(
        index.to_text(),
        Ok("Index { header: IndexHeader { magic: DIRC, version: 2, num_entries: 0 }, entries: [] }"
            .to_string())
    );
    index.add_entry(entry_with_path(b"a"));
    let first = entry_with_path(b"a").to_text().unwrap();
    assert_eq!(
        index.to_text(),
        Ok(format!(
            "Index {{ header: IndexHeader {{ magic: DIRC, version: 2, num_entries: 1 }}, entries: [{}] }}",
            first
        ))
    );
    index.add_entry(entry_with_path(b"b/c"));
    let second = entry_with_path(b"b/c").to_text().unwrap();
    assert_eq!(
        index.to_text(),
        Ok(format!(
            "Index {{ header: IndexHeader {{ magic: DIRC, version: 2, num_entries: 2 }}, entries: [{}, {}] }}",
            first, second
        ))
    );
    index.add_entry(entry_with_path(&[0xff]));
    assert_eq!(index.to_text(), Err(Error::FormatError));
}
