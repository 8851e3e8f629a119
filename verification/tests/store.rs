use hit::blob::Blob;
use hit::commit::{Commit, Identity, Timestamp};
use hit::cursor::Cursor;
use hit::error::Error;
use hit::object::Object;
use hit::odb::{MemoryOdb, Odb, StandardOdb};
use hit::oid::Oid;
use hit::tree::{Mode, Name, Tree, TreeEntry};

const HELLO_RECORD: [u8; 28] = [
    120, 156, 75, 202, 201, 79, 82, 48, 52, 98, 200, 72, 205, 201, 201, 87, 40, 207, 47, 202, 73,
    225, 2, 0, 68, 17, 6, 137,
];

const WIDGET_RECORD: [u8; 21] = [
    120, 156, 43, 207, 76, 73, 79, 45, 81, 48, 97, 72, 76, 74, 78, 1, 0, 32, 111, 4, 99,
];

fn hello_oid() -> Oid {
    Oid::from_hex(b"3b18e512dba79e4c8300dd08aeb37f8e728b8dad").unwrap()
}

#[test]
fn object_path_splits_the_hex_after_two_digits() {
    let odb = StandardOdb::from_path(".git/objects");
    assert_eq!(
        odb.object_path(&hello_oid()),
        ".git/objects/3b/18e512dba79e4c8300dd08aeb37f8e728b8dad"
    );
    let odb = StandardOdb::from_path("");
    assert_eq!(
        odb.object_path(&Oid::new([0u8; 20])),
        "/00/00000000000000000000000000000000000000"
    );
}

#[test]
fn decompress_inflates_a_zlib_stream() {
    assert_eq!(StandardOdb::decompress(&HELLO_RECORD), Ok(b"blob 12\0hello world\n".to_vec()));
    assert_eq!(StandardOdb::decompress(&WIDGET_RECORD), Ok(b"widget 4\0abcd".to_vec()));
}

#[test]
fn decompress_rejects_what_is_no_zlib_stream() {
    assert_eq!(StandardOdb::decompress(b"blob 12\0hello world\n").err(), Some(Error::FormatError));
    assert_eq!(StandardOdb::decompress(b"").err(), Some(Error::FormatError));
    assert_eq!(StandardOdb::decompress(&HELLO_RECORD[..20]).err(), Some(Error::FormatError));
}

#[test]
fn compress_gives_a_stream_that_inflates_to_the_input() {
    let raw = b"blob 12\0hello world\n".to_vec();
    let record = StandardOdb::compress(&raw).unwrap();
    assert_ne!(record, raw);
    assert_eq!(record[0], 0x78);
    assert_eq!(StandardOdb::decompress(&record), Ok(raw));
    let long = vec![b'a'; 10_000];
    let record = StandardOdb::compress(&long).unwrap();
    assert!(record.len() < 200);
    assert_eq!(StandardOdb::decompress(&record), Ok(long));
}

#[test]
fn read_of_no_file_is_not_found() {
    assert_eq!(StandardOdb::read(None).err(), Some(Error::NotFound));
}

#[test]
fn read_of_a_record_is_its_object() {
    let object = StandardOdb::read(Some(&HELLO_RECORD)).unwrap();
    assert_eq!(object.as_blob().unwrap().as_bytes(), b"hello world\n");
    assert_eq!(object.id(), hello_oid());
}

#[test]
fn read_of_an_unknown_type_is_unsupported() {
    assert_eq!(StandardOdb::read(Some(&WIDGET_RECORD)).err(), Some(Error::UnsupportedType));
}

#[test]
fn read_of_garbage_is_a_format_error() {
    assert_eq!(StandardOdb::read(Some(b"garbage")).err(), Some(Error::FormatError));
    let record = StandardOdb::compress(b"tree 5\0no entries here").unwrap();
    assert_eq!(StandardOdb::read(Some(&record)).err(), Some(Error::FormatError));
    let record = StandardOdb::compress(b"blob").unwrap();
    assert_eq!(StandardOdb::read(Some(&record)).err(), Some(Error::FormatError));
}

#[test]
fn pack_gives_identifier_and_record() {
    let object = Object::Blob(Blob::new(b"hello world\n"));
    let (oid, record) = StandardOdb::pack(&object).unwrap();
    assert_eq!(oid, hello_oid());
    assert_eq!(StandardOdb::decompress(&record), Ok(b"blob 12\0hello world\n".to_vec()));
    let back = StandardOdb::read(Some(&record)).unwrap();
    assert_eq!(back.id(), oid);
}

#[test]
fn get_of_a_missing_object_is_not_found() {
    let odb = MemoryOdb::new();
    assert_eq!(odb.get(&hello_oid()).err(), Some(Error::NotFound));
    assert!(!odb.contains(&hello_oid()));
    let mut odb = MemoryOdb::new();
    odb.put(&Object::Blob(Blob::new(b"other"))).unwrap();
    assert_eq!(odb.get(&hello_oid()).err(), Some(Error::NotFound));
}

#[test]
fn get_of_an_unknown_type_is_unsupported() {
    let mut odb = MemoryOdb::new();
    let oid = Oid::hash(b"widget 4\0abcd");
    odb.write(oid, WIDGET_RECORD.to_vec());
    assert!(odb.contains(&oid));
    assert_eq!(odb.get(&oid).err(), Some(Error::UnsupportedType));
    let mut odb = MemoryOdb::new();
    odb.write(oid, StandardOdb::compress(b"widget 4\0abcd").unwrap());
    assert_eq!(odb.get(&oid).err(), Some(Error::UnsupportedType));
}

#[test]
fn get_of_a_corrupt_record_is_a_format_error() {
    let mut odb = MemoryOdb::new();
    odb.write(hello_oid(), b"not compressed".to_vec());
    assert_eq!(odb.get(&hello_oid()).err(), Some(Error::FormatError));
    odb.write(hello_oid(), Vec::new());
    assert_eq!(odb.get(&hello_oid()).err(), Some(Error::FormatError));
}

#[test]
fn get_reads_a_record_written_by_another_tool() {
    let mut odb = MemoryOdb::new();
    odb.write(hello_oid(), HELLO_RECORD.to_vec());
    let object = odb.get(&hello_oid()).unwrap();
    assert_eq!(object.into_blob().unwrap().as_bytes(), b"hello world\n");
}

#[test]
fn put_then_get_gives_the_object_back() {
    let mut odb = MemoryOdb::new();
    let blob_id = odb.put(&Object::Blob(Blob::new(b"hello world\n"))).unwrap();
    assert_eq!(blob_id, hello_oid());

    let mut tree = Tree::new();
    tree.append_entry(
        Name(b"hello.txt".to_vec()),
        TreeEntry::new(blob_id, Mode(b"100644".to_vec())),
    );
    let tree_bytes = tree.encode();
    let tree_id = odb.put(&Object::Tree(tree)).unwrap();

    let person =
        Identity::new(b"A".to_vec(), b"a@x.com".to_vec(), Timestamp::new(1_700_000_000, 120).unwrap());
    let commit =
        Commit::new(tree_id, vec![], person.clone(), person, b"first\n".to_vec());
    let commit_bytes = commit.encode();
    let commit_id = odb.put(&Object::Commit(commit)).unwrap();

    let commit = odb.get(&commit_id).unwrap().into_commit().unwrap();
    assert_eq!(commit.encode(), commit_bytes);
    assert_eq!(commit.tree(), tree_id);
    let tree = odb.get(&commit.tree()).unwrap().into_tree().unwrap();
    assert_eq!(tree.encode(), tree_bytes);
    let entry_id = tree.get(b"hello.txt").unwrap().oid();
    let blob = odb.get(&entry_id).unwrap().into_blob().unwrap();
    assert_eq!(blob.as_bytes(), b"hello world\n");
}

#[test]
fn put_twice_is_the_same_as_once() {
    let mut odb = MemoryOdb::new();
    let first = odb.put(&Object::Blob(Blob::new(b"same"))).unwrap();
    let second = odb.put(&Object::Blob(Blob::new(b"same"))).unwrap();
    assert_eq!(first, second);
    assert_eq!(odb.get(&first).unwrap().into_blob().unwrap().as_bytes(), b"same");
}

#[test]
fn write_replaces_the_record_under_an_identifier() {
    let mut odb = MemoryOdb::new();
    let other = Oid::hash(b"other");
    odb.write(hello_oid(), b"junk".to_vec());
    odb.write(other, WIDGET_RECORD.to_vec());
    odb.write(hello_oid(), HELLO_RECORD.to_vec());
    assert_eq!(odb.get(&hello_oid()).unwrap().as_blob().unwrap().as_bytes(), b"hello world\n");
    assert_eq!(odb.get(&other).err(), Some(Error::UnsupportedType));
}

#[test]
fn read_functions_of_the_store_decode_payloads() {
    let mut reader = Cursor::new(b"blob 3\0abc".to_vec());
    let object = StandardOdb::read_object(&mut reader).unwrap();
    assert_eq!(object.as_blob().unwrap().as_bytes(), b"abc");

    let mut reader = Cursor::new(b"any bytes".to_vec());
    assert_eq!(StandardOdb::read_blob(&mut reader, 3).as_bytes(), b"any bytes");
    assert_eq!(reader.remaining(), 0);

    let mut bytes = b"100644 a\0".to_vec();
    bytes.extend_from_slice(hello_oid().as_bytes());
    let mut reader = Cursor::new(bytes);
    let tree = StandardOdb::read_tree(&mut reader).unwrap();
    assert_eq!(tree.get(b"a").unwrap().oid(), hello_oid());

    let mut reader = Cursor::new(b"N <e> 7 +0100\nnext".to_vec());
    let identity = StandardOdb::read_identity(&mut reader).unwrap();
    assert_eq!(identity.datetime().offset_minutes(), 60);
    assert_eq!(reader.remaining(), 4);

    let text = b"tree 3b18e512dba79e4c8300dd08aeb37f8e728b8dad\nauthor A <a> 1 +0000\ncommitter B <b> 2 -0100\nm";
    let mut reader = Cursor::new(text.to_vec());
    let commit = StandardOdb::read_commit(&mut reader).unwrap();
    assert_eq!(commit.message(), b"m");
    let mut reader = Cursor::new(b"tree x".to_vec());
    assert_eq!(StandardOdb::read_commit(&mut reader).err(), Some(Error::FormatError));
}

#[test]
fn object_segments_are_two_and_thirty_eight_digits() {
    let (directory, file) = StandardOdb::object_segments(&hello_oid());
    assert_eq!(directory, "3b");
    assert_eq!(file, "18e512dba79e4c8300dd08aeb37f8e728b8dad");
    let (directory, file) = StandardOdb::object_segments(&Oid::new([0xffu8; 20]));
    assert_eq!(directory, "ff");
    assert_eq!(file, "ffffffffffffffffffffffffffffffffffffff");
}

#[test]
fn compress_gives_the_same_stream_each_time() {
    let raw = b"blob 12\0hello world\n".to_vec();
    let first = StandardOdb::compress(&raw).unwrap();
    let second = StandardOdb::compress(&raw).unwrap();
    assert_eq!(first, second);
    assert!(StandardOdb::compress(b"").is_ok());
}

#[test]
fn pack_gives_the_stream_of_the_stored_bytes() {
    let object = Object::Blob(Blob::new(b"hello world\n"));
    let (_, record) = StandardOdb::pack(&object).unwrap();
    assert_eq!(record, StandardOdb::compress(b"blob 12\0hello world\n").unwrap());
}

#[test]
fn put_succeeds_and_stores_the_record_under_the_identifier() {
    let mut odb = MemoryOdb::new();
    assert!(!odb.contains(&hello_oid()));
    let oid = odb.put(&Object::Blob(Blob::new(b"hello world\n")));
    assert_eq!(oid, Ok(hello_oid()));
    assert!(odb.contains(&hello_oid()));
    assert!(odb.put(&Object::Tree(Tree::new())).is_ok());
}

#[test]
fn read_object_uses_the_reader_up() {
    let contents: [&[u8]; 4] = [b"", b"abc", b"a\0b c", b"\0"];
    for content in contents {
        let mut record = b"blob ".to_vec();
        record.extend_from_slice(content.len().to_string().as_bytes());
        record.push(0);
        record.extend_from_slice(content);
        let mut reader = Cursor::new(record);
        let object = StandardOdb::read_object(&mut reader).unwrap();
        assert_eq!(object.as_blob().unwrap().as_bytes(), content);
        assert_eq!(reader.remaining(), 0);
    }
    let mut reader = Cursor::new(b"tree 0\0".to_vec());
    assert_eq!(StandardOdb::read_object(&mut reader).unwrap().as_tree().unwrap().len(), 0);
    assert_eq!(reader.remaining(), 0);
}
