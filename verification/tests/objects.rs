use hit::blob::Blob;
use hit::commit::{Commit, Identity, Timestamp};
use hit::cursor::Cursor;
use hit::decimal::{parse_decimal, parse_signed_decimal, write_decimal, write_signed_decimal};
use hit::error::Error;
use hit::object::{store_bytes, Object, ObjectHeader, ObjectType};
use hit::oid::Oid;
use hit::tree::{EntryKind, Mode, Name, Tree, TreeEntry};

fn oid(hex: &str) -> Oid {
    Oid::from_hex(hex.as_bytes()).unwrap()
}

fn hello_oid() -> Oid {
    oid("3b18e512dba79e4c8300dd08aeb37f8e728b8dad")
}

fn counting_oid() -> Oid {
    oid("000102030405060708090a0b0c0d0e0f10111213")
}

fn entry(id: Oid, mode: &[u8]) -> TreeEntry {
    TreeEntry::new(id, Mode(mode.to_vec()))
}

fn person() -> Identity {
    Identity::new(b"A".to_vec(), b"a@x.com".to_vec(), Timestamp::new(1_700_000_000, 0).unwrap())
}

fn sample_commit() -> Commit {
    Commit::new(hello_oid(), vec![counting_oid()], person(), person(), b"msg\n".to_vec())
}

#[test]
fn blob_hello_world_identifier() {
    let blob = Blob::new(b"hello world\n");
    assert_eq!(blob.id().hex(), "3b18e512dba79e4c8300dd08aeb37f8e728b8dad");
    assert_eq!(Object::Blob(blob).id().hex(), "3b18e512dba79e4c8300dd08aeb37f8e728b8dad");
}

#[test]
fn blob_identifier_is_the_same_each_time() {
    let blob = Blob::new(b"\0\xff binary \n content");
    let first = blob.id();
    let second = blob.id();
    assert_eq!(first, second);
    assert_eq!(Blob::new(b"\0\xff binary \n content").id(), first);
}

#[test]
fn blob_encoding_is_header_and_content() {
    assert_eq!(Blob::new(b"hello world\n").encode(), b"blob 12\0hello world\n".to_vec());
    assert_eq!(Blob::new(b"").encode(), b"blob 0\0".to_vec());
    let long = vec![b'x'; 1234];
    let mut expected = b"blob 1234\0".to_vec();
    expected.extend_from_slice(&long);
    assert_eq!(Blob::new(&long).encode(), expected);
}

#[test]
fn blob_round_trip() {
    for content in [&b""[..], b"a", b"hello world\n", b"\0\0\0", b"blob 3\0abc", &[0xffu8; 300]] {
        let blob = Blob::new(content);
        let back = Blob::decode(&blob.encode()).unwrap();
        assert_eq!(back.as_bytes(), content);
    }
}

#[test]
fn blob_decode_takes_all_after_the_first_zero_byte() {
    let blob = Blob::decode(b"blob 3\0abcdef\0gh").unwrap();
    assert_eq!(blob.as_bytes(), b"abcdef\0gh");
    let blob = Blob::decode(b"\0").unwrap();
    assert_eq!(blob.as_bytes(), b"");
}

#[test]
fn blob_decode_rejects_input_without_zero_byte() {
    assert_eq!(Blob::decode(b"blob 3 abc").err(), Some(Error::FormatError));
    assert_eq!(Blob::decode(b"").err(), Some(Error::FormatError));
}

#[test]
fn blob_as_str_is_the_content_as_text() {
    assert_eq!(Blob::new(b"hello world\n").as_str(), Ok("hello world\n"));
    assert_eq!(Blob::new("gr\u{fc}n".as_bytes()).as_str(), Ok("gr\u{fc}n"));
    assert_eq!(Blob::new(b"").as_str(), Ok(""));
}

#[test]
fn blob_as_str_rejects_invalid_utf8() {
    assert_eq!(Blob::new(&[0x66, 0xff, 0x6f]).as_str().err(), Some(Error::FormatError));
    assert_eq!(Blob::new(&[0xc3]).as_str().err(), Some(Error::FormatError));
}

#[test]
fn tree_encoding_is_sorted_by_name() {
    let mut tree = Tree::new();
    tree.append_entry(Name(b"src".to_vec()), entry(counting_oid(), b"40000"));
    tree.append_entry(Name(b"hello.txt".to_vec()), entry(hello_oid(), b"100644"));
    let mut expected = b"100644 hello.txt\0".to_vec();
    expected.extend_from_slice(hello_oid().as_bytes());
    expected.extend_from_slice(b"40000 src\0");
    expected.extend_from_slice(counting_oid().as_bytes());
    assert_eq!(tree.encode(), expected);
    assert_eq!(tree.id().hex(), "c700485570a61993633d55e7f7ebd35288dc1ad8");
    assert_eq!(tree.len(), 2);
}

#[test]
fn tree_encoding_ignores_insertion_order() {
    let names: [&[u8]; 6] = [b"b", b"a", b"ab", b"B", b"a.c", b"\xff"];
    let mut forward = Tree::new();
    for (i, name) in names.iter().enumerate() {
        forward.append_entry(Name(name.to_vec()), entry(Oid::hash(name), &[b'1', b'0' + i as u8]));
    }
    let mut backward = Tree::new();
    for (i, name) in names.iter().enumerate().rev() {
        backward.append_entry(Name(name.to_vec()), entry(Oid::hash(name), &[b'1', b'0' + i as u8]));
    }
    assert_eq!(forward.encode(), backward.encode());
    assert_eq!(forward.id(), backward.id());
    let order: Vec<Vec<u8>> = forward.entries().iter().map(|pair| pair.0 .0.clone()).collect();
    let expected: Vec<Vec<u8>> =
        vec![b"B".to_vec(), b"a".to_vec(), b"a.c".to_vec(), b"ab".to_vec(), b"b".to_vec(), b"\xff".to_vec()];
    assert_eq!(order, expected);
}

#[test]
fn tree_append_replaces_an_entry_of_the_same_name() {
    let mut tree = Tree::new();
    tree.append_entry(Name(b"a".to_vec()), entry(hello_oid(), b"100644"));
    tree.append_entry(Name(b"b".to_vec()), entry(hello_oid(), b"100644"));
    tree.append_entry(Name(b"a".to_vec()), entry(counting_oid(), b"100755"));
    assert_eq!(tree.len(), 2);
    let a = tree.get(b"a").unwrap();
    assert_eq!(a.oid(), counting_oid());
    assert_eq!(a.mode().0, b"100755".to_vec());
    assert_eq!(tree.get(b"b").unwrap().oid(), hello_oid());
    assert!(tree.get(b"c").is_none());
    assert!(tree.get(b"").is_none());
}

#[test]
fn tree_round_trip() {
    let mut tree = Tree::new();
    tree.append_entry(Name(b"src".to_vec()), entry(counting_oid(), b"40000"));
    tree.append_entry(Name(b"hello world.txt".to_vec()), entry(hello_oid(), b"100644"));
    tree.append_entry(Name(b"".to_vec()), entry(hello_oid(), b""));
    let bytes = tree.encode();
    let back = Tree::decode(&bytes).unwrap();
    assert_eq!(back.len(), 3);
    assert_eq!(back.encode(), bytes);
    assert_eq!(back.get(b"src").unwrap().oid(), counting_oid());
    assert_eq!(back.get(b"src").unwrap().mode().0, b"40000".to_vec());
    assert_eq!(back.get(b"hello world.txt").unwrap().oid(), hello_oid());
    assert_eq!(back.get(b"").unwrap().mode().0, Vec::<u8>::new());
}

#[test]
fn tree_decode_of_nothing_is_the_empty_tree() {
    let tree = Tree::decode(b"").unwrap();
    assert_eq!(tree.len(), 0);
    assert_eq!(tree.encode(), Vec::<u8>::new());
    assert_eq!(Tree::new().encode(), Vec::<u8>::new());
}

#[test]
fn tree_decode_sorts_and_keeps_the_later_duplicate() {
    let mut bytes = b"40000 z\0".to_vec();
    bytes.extend_from_slice(counting_oid().as_bytes());
    bytes.extend_from_slice(b"100644 a\0");
    bytes.extend_from_slice(counting_oid().as_bytes());
    bytes.extend_from_slice(b"100755 a\0");
    bytes.extend_from_slice(hello_oid().as_bytes());
    let tree = Tree::decode(&bytes).unwrap();
    assert_eq!(tree.len(), 2);
    assert_eq!(tree.get(b"a").unwrap().oid(), hello_oid());
    assert_eq!(tree.get(b"a").unwrap().mode().0, b"100755".to_vec());
    let mut expected = b"100755 a\0".to_vec();
    expected.extend_from_slice(hello_oid().as_bytes());
    expected.extend_from_slice(b"40000 z\0");
    expected.extend_from_slice(counting_oid().as_bytes());
    assert_eq!(tree.encode(), expected);
}

#[test]
fn tree_decode_rejects_broken_entries() {
    assert_eq!(Tree::decode(b"100644").err(), Some(Error::FormatError));
    assert_eq!(Tree::decode(b"100644 name").err(), Some(Error::FormatError));
    assert_eq!(Tree::decode(b"100644 name\0").err(), Some(Error::FormatError));
    assert_eq!(Tree::decode(b"100644 name\0short").err(), Some(Error::FormatError));
    let mut bytes = b"100644 a\0".to_vec();
    bytes.extend_from_slice(hello_oid().as_bytes());
    bytes.push(b'1');
    assert_eq!(Tree::decode(&bytes).err(), Some(Error::FormatError));
}

#[test]
fn tree_reader_is_used_up() {
    let mut bytes = b"100644 a\0".to_vec();
    bytes.extend_from_slice(hello_oid().as_bytes());
    let mut reader = Cursor::new(bytes);
    let tree = Tree::from_reader(&mut reader).unwrap();
    assert_eq!(tree.len(), 1);
    assert_eq!(reader.remaining(), 0);
}

#[test]
fn entry_kind_goes_by_the_first_byte_of_the_mode() {
    assert_eq!(entry(hello_oid(), b"100644").kind(), EntryKind::Blob);
    assert_eq!(entry(hello_oid(), b"100755").kind(), EntryKind::Blob);
    assert_eq!(entry(hello_oid(), b"120000").kind(), EntryKind::Blob);
    assert_eq!(entry(hello_oid(), b"40000").kind(), EntryKind::Tree);
    assert_eq!(entry(hello_oid(), b"040000").kind(), EntryKind::Tree);
    assert_eq!(entry(hello_oid(), b"160000").kind(), EntryKind::Blob);
    assert_eq!(entry(hello_oid(), b"").kind(), EntryKind::Tree);
}

#[test]
fn commit_encoding_follows_the_grammar() {
    let expected = b"tree 3b18e512dba79e4c8300dd08aeb37f8e728b8dad\n\
parent 000102030405060708090a0b0c0d0e0f10111213\n\
author A <a@x.com> 1700000000 +0000\n\
committer A <a@x.com> 1700000000 +0000\n\
msg\n"
        .to_vec();
    assert_eq!(sample_commit().encode(), expected);
    assert_eq!(sample_commit().id().hex(), "73302ba2cedb34accea24da5ed714f36c31c48b3");
}

#[test]
fn commit_round_trip_keeps_every_field() {
    let commit = sample_commit();
    let back = Commit::decode(&commit.encode()).unwrap();
    assert_eq!(back.tree(), hello_oid());
    assert_eq!(back.parents(), &vec![counting_oid()]);
    assert_eq!(back.author().name(), b"A");
    assert_eq!(back.author().email(), b"a@x.com");
    assert_eq!(back.author().datetime().seconds(), 1_700_000_000);
    assert_eq!(back.author().datetime().offset_minutes(), 0);
    assert_eq!(back.committer().name(), b"A");
    assert_eq!(back.committer().email(), b"a@x.com");
    assert_eq!(back.committer().datetime().seconds(), 1_700_000_000);
    assert_eq!(back.committer().datetime().offset_minutes(), 0);
    assert_eq!(back.message(), b"msg\n");
    assert_eq!(back.encode(), commit.encode());
}

#[test]
fn commit_round_trip_without_parents_and_with_several() {
    let author = Identity::new(
        b"Ada Lovelace ".to_vec(),
        b"ada@example.org>".to_vec(),
        Timestamp::new(-42, -570).unwrap(),
    );
    let committer = Identity::new(
        b"".to_vec(),
        b"".to_vec(),
        Timestamp::new(i64::MAX, 5999).unwrap(),
    );
    for parents in [vec![], vec![hello_oid(), counting_oid(), hello_oid()]] {
        let commit = Commit::new(
            counting_oid(),
            parents.clone(),
            author.clone(),
            committer.clone(),
            b"\nsubject\n\nbody without newline".to_vec(),
        );
        let bytes = commit.encode();
        let back = Commit::decode(&bytes).unwrap();
        assert_eq!(back.tree(), counting_oid());
        assert_eq!(back.parents(), &parents);
        assert_eq!(back.author().name(), b"Ada Lovelace ");
        assert_eq!(back.author().email(), b"ada@example.org>");
        assert_eq!(back.author().datetime().seconds(), -42);
        assert_eq!(back.author().datetime().offset_minutes(), -570);
        assert_eq!(back.committer().name(), b"");
        assert_eq!(back.committer().email(), b"");
        assert_eq!(back.committer().datetime().seconds(), i64::MAX);
        assert_eq!(back.committer().datetime().offset_minutes(), 5999);
        assert_eq!(back.message(), b"\nsubject\n\nbody without newline");
        assert_eq!(back.encode(), bytes);
    }
}

#[test]
fn commit_parents_keep_their_order() {
    let commit = Commit::new(
        hello_oid(),
        vec![counting_oid(), hello_oid()],
        person(),
        person(),
        Vec::new(),
    );
    let back = Commit::decode(&commit.encode()).unwrap();
    assert_eq!(back.parents(), &vec![counting_oid(), hello_oid()]);
    assert_eq!(back.message(), b"");
}

#[test]
fn identity_text_has_name_email_seconds_and_zone() {
    let mut text = Vec::new();
    person().write(&mut text);
    assert_eq!(text, b"A <a@x.com> 1700000000 +0000".to_vec());
    let mut text = Vec::new();
    Identity::new(b"B C".to_vec(), b"b@c".to_vec(), Timestamp::new(-5, -210).unwrap())
        .write(&mut text);
    assert_eq!(text, b"B C <b@c> -5 -0330".to_vec());
    let mut text = Vec::new();
    Identity::new(b"B C".to_vec(), b"b@c".to_vec(), Timestamp::new(0, 765).unwrap())
        .write(&mut text);
    assert_eq!(text, b"B C <b@c> 0 +1245".to_vec());
}

#[test]
fn identity_zone_is_hours_and_minutes() {
    let mut reader = Cursor::new(b"N <e> 12 +0930\nrest".to_vec());
    let identity = Identity::from_reader(&mut reader).unwrap();
    assert_eq!(identity.name(), b"N");
    assert_eq!(identity.email(), b"e");
    assert_eq!(identity.datetime().seconds(), 12);
    assert_eq!(identity.datetime().offset_minutes(), 570);
    assert_eq!(reader.read_to_end(), b"rest".to_vec());
    let mut reader = Cursor::new(b"N <e> 12 -1100\n".to_vec());
    assert_eq!(Identity::from_reader(&mut reader).unwrap().datetime().offset_minutes(), -660);
    let mut reader = Cursor::new(b"N <e> 12 -0000\n".to_vec());
    assert_eq!(Identity::from_reader(&mut reader).unwrap().datetime().offset_minutes(), 0);
    let mut reader = Cursor::new(b"N <e> 12 +9959\n".to_vec());
    assert_eq!(Identity::from_reader(&mut reader).unwrap().datetime().offset_minutes(), 5999);
}

#[test]
fn identity_rejects_malformed_lines() {
    let lines: [&[u8]; 14] = [
        b"",
        b"N e> 12 +0000\n",
        b"N <e 12 +0000\n",
        b"N <e>12 +0000\n",
        b"N <e> 12+0000\n",
        b"N <e> 12 +0000",
        b"N <e> twelve +0000\n",
        b"N <e>  +0000\n",
        b"N <e> 99999999999999999999 +0000\n",
        b"N <e> 12 0000\n",
        b"N <e> 12 +000\n",
        b"N <e> 12 +00000\n",
        b"N <e> 12 +0060\n",
        b"N <e> 12 +0a00\n",
    ];
    for line in lines {
        let mut reader = Cursor::new(line.to_vec());
        assert_eq!(Identity::from_reader(&mut reader).err(), Some(Error::FormatError));
    }
}

#[test]
fn timestamp_needs_an_offset_that_four_digits_spell() {
    assert!(Timestamp::new(0, 5999).is_some());
    assert!(Timestamp::new(0, -5999).is_some());
    assert!(Timestamp::new(0, 6000).is_none());
    assert!(Timestamp::new(0, -6000).is_none());
    assert!(Timestamp::new(i64::MIN, 0).is_some());
    let t = Timestamp::new(17, -90).unwrap();
    assert_eq!(t.seconds(), 17);
    assert_eq!(t.offset_minutes(), -90);
}

#[test]
fn commit_decode_rejects_violations_of_the_grammar() {
    let good = sample_commit().encode();
    assert!(Commit::decode(&good).is_ok());
    let texts: [&[u8]; 9] = [
        b"",
        b"tree 3b18e512dba79e4c8300dd08aeb37f8e728b8dad",
        b"tree 3b18e512dba79e4c8300dd08aeb37f8e728b8da\nauthor A <a> 1 +0000\ncommitter A <a> 1 +0000\n",
        b"tree 3b18e512dba79e4c8300dd08aeb37f8e728b8dax\nauthor A <a> 1 +0000\ncommitter A <a> 1 +0000\n",
        b"trees 3b18e512dba79e4c8300dd08aeb37f8e728b8dad\nauthor A <a> 1 +0000\ncommitter A <a> 1 +0000\n",
        b"tree 3b18e512dba79e4c8300dd08aeb37f8e728b8dad\ngpgsig x\nauthor A <a> 1 +0000\ncommitter A <a> 1 +0000\n",
        b"tree 3b18e512dba79e4c8300dd08aeb37f8e728b8dad\nparent 00\nauthor A <a> 1 +0000\ncommitter A <a> 1 +0000\n",
        b"tree 3b18e512dba79e4c8300dd08aeb37f8e728b8dad\nauthor A <a> 1 +0000\nauthor A <a> 1 +0000\n",
        b"tree 3b18e512dba79e4c8300dd08aeb37f8e728b8dad\nauthor A <a> 1 +0000\ncommitter A <a> 1 +0000",
    ];
    for text in texts {
        assert_eq!(Commit::decode(text).err(), Some(Error::FormatError));
    }
}

#[test]
fn commit_message_is_kept_verbatim() {
    let text = b"tree 3b18e512dba79e4c8300dd08aeb37f8e728b8dad\nauthor A <a> 1 +0000\ncommitter B <b> 2 -0100\n\n  spaced \n\n";
    let commit = Commit::decode(text).unwrap();
    assert_eq!(commit.message(), b"\n  spaced \n\n");
    assert_eq!(commit.parents().len(), 0);
    assert_eq!(commit.committer().name(), b"B");
    assert_eq!(commit.committer().datetime().offset_minutes(), -60);
    assert_eq!(commit.encode(), text.to_vec());
}

#[test]
fn object_header_is_type_size_and_zero_byte() {
    let mut bytes = Vec::new();
    ObjectHeader { object_type: ObjectType::Commit, object_size: 173 }.write(&mut bytes);
    assert_eq!(bytes, b"commit 173\0".to_vec());
    let mut reader = Cursor::new(b"tree 67\0payload".to_vec());
    let header = ObjectHeader::read(&mut reader).unwrap();
    assert_eq!(header.object_type, ObjectType::Tree);
    assert_eq!(header.object_size, 67);
    assert_eq!(reader.read_to_end(), b"payload".to_vec());
    assert_eq!(store_bytes(ObjectType::Blob, b"abc"), b"blob 3\0abc".to_vec());
}

#[test]
fn object_header_errors() {
    let cases: [(&[u8], Error); 9] = [
        (b"", Error::FormatError),
        (b"blob", Error::FormatError),
        (b"widget 4\0abcd", Error::UnsupportedType),
        (b"widget x\0abcd", Error::UnsupportedType),
        (b" 4\0abcd", Error::UnsupportedType),
        (b"Blob 4\0abcd", Error::UnsupportedType),
        (b"blob 4", Error::FormatError),
        (b"blob \0", Error::FormatError),
        (b"blob 4x\0abcd", Error::FormatError),
    ];
    for (bytes, error) in cases {
        let mut reader = Cursor::new(bytes.to_vec());
        assert_eq!(ObjectHeader::read(&mut reader).err(), Some(error));
        assert_eq!(Object::decode(bytes).err(), Some(error));
    }
    let mut reader = Cursor::new(b"blob 99999999999999999999999999\0".to_vec());
    assert_eq!(ObjectHeader::read(&mut reader).err(), Some(Error::FormatError));
}

#[test]
fn object_type_names() {
    assert_eq!(ObjectType::new(b"blob"), Ok(ObjectType::Blob));
    assert_eq!(ObjectType::new(b"tree"), Ok(ObjectType::Tree));
    assert_eq!(ObjectType::new(b"commit"), Ok(ObjectType::Commit));
    assert_eq!(ObjectType::new(b"tag"), Err(Error::UnsupportedType));
    assert_eq!(ObjectType::new(b""), Err(Error::UnsupportedType));
    assert_eq!(ObjectType::new(b"blob "), Err(Error::UnsupportedType));
}

#[test]
fn object_round_trip_of_each_kind() {
    let blob = Object::Blob(Blob::new(b"hello world\n"));
    let bytes = blob.encode();
    assert_eq!(bytes, b"blob 12\0hello world\n".to_vec());
    let back = Object::decode(&bytes).unwrap();
    assert_eq!(back.object_type(), ObjectType::Blob);
    assert_eq!(back.as_blob().unwrap().as_bytes(), b"hello world\n");
    assert!(back.as_tree().is_none());
    assert!(back.as_commit().is_none());

    let mut tree = Tree::new();
    tree.append_entry(Name(b"src".to_vec()), entry(counting_oid(), b"40000"));
    tree.append_entry(Name(b"hello.txt".to_vec()), entry(hello_oid(), b"100644"));
    let object = Object::Tree(tree);
    let bytes = object.encode();
    assert_eq!(&bytes[..8], b"tree 67\0");
    assert_eq!(object.id().hex(), "c700485570a61993633d55e7f7ebd35288dc1ad8");
    let back = Object::decode(&bytes).unwrap();
    assert_eq!(back.object_type(), ObjectType::Tree);
    assert!(back.as_blob().is_none());
    assert_eq!(back.as_tree().unwrap().len(), 2);
    assert_eq!(back.encode(), bytes);
    assert_eq!(back.into_tree().unwrap().get(b"src").unwrap().oid(), counting_oid());

    let object = Object::Commit(sample_commit());
    let bytes = object.encode();
    assert_eq!(&bytes[..11], b"commit 173\0");
    assert_eq!(object.id().hex(), "73302ba2cedb34accea24da5ed714f36c31c48b3");
    let back = Object::decode(&bytes).unwrap();
    assert_eq!(back.object_type(), ObjectType::Commit);
    assert_eq!(back.as_commit().unwrap().message(), b"msg\n");
    assert_eq!(back.encode(), bytes);
    assert!(back.into_blob().is_none());
}

#[test]
fn object_into_gives_the_object_of_its_kind() {
    assert_eq!(Object::Blob(Blob::new(b"x")).into_blob().unwrap().as_bytes(), b"x");
    assert!(Object::Blob(Blob::new(b"x")).into_tree().is_none());
    assert!(Object::Blob(Blob::new(b"x")).into_commit().is_none());
    assert_eq!(Object::Commit(sample_commit()).into_commit().unwrap().tree(), hello_oid());
    assert!(Object::Tree(Tree::new()).into_commit().is_none());
    assert_eq!(Object::Tree(Tree::new()).into_tree().unwrap().len(), 0);
}

#[test]
fn object_size_is_not_held_against_the_payload() {
    let back = Object::decode(b"blob 999\0abc").unwrap();
    assert_eq!(back.as_blob().unwrap().as_bytes(), b"abc");
}

#[test]
fn object_decode_passes_codec_errors_on() {
    assert_eq!(Object::decode(b"tree 3\0abc").err(), Some(Error::FormatError));
    assert_eq!(Object::decode(b"commit 3\0abc").err(), Some(Error::FormatError));
}

#[test]
fn decimal_text_of_numbers() {
    let mut text = Vec::new();
    write_decimal(&mut text, 0);
    text.push(b' ');
    write_decimal(&mut text, 7);
    text.push(b' ');
    write_decimal(&mut text, 1234567890);
    text.push(b' ');
    write_decimal(&mut text, u64::MAX);
    text.push(b' ');
    write_signed_decimal(&mut text, -1);
    text.push(b' ');
    write_signed_decimal(&mut text, i64::MIN);
    text.push(b' ');
    write_signed_decimal(&mut text, i64::MAX);
    assert_eq!(
        text,
        b"0 7 1234567890 18446744073709551615 -1 -9223372036854775808 9223372036854775807".to_vec()
    );
}

#[test]
fn decimal_numbers_of_text() {
    assert_eq!(parse_decimal(b"0"), Some(0));
    assert_eq!(parse_decimal(b"007"), Some(7));
    assert_eq!(parse_decimal(b"18446744073709551615"), Some(u64::MAX));
    assert_eq!(parse_decimal(b"18446744073709551616"), None);
    assert_eq!(parse_decimal(b"99999999999999999999"), None);
    assert_eq!(parse_decimal(b""), None);
    assert_eq!(parse_decimal(b"-1"), None);
    assert_eq!(parse_decimal(b"+1"), None);
    assert_eq!(parse_decimal(b"1 "), None);
    assert_eq!(parse_decimal(b"12a"), None);
    assert_eq!(parse_signed_decimal(b"-9223372036854775808"), Some(i64::MIN));
    assert_eq!(parse_signed_decimal(b"-9223372036854775809"), None);
    assert_eq!(parse_signed_decimal(b"9223372036854775807"), Some(i64::MAX));
    assert_eq!(parse_signed_decimal(b"9223372036854775808"), None);
    assert_eq!(parse_signed_decimal(b"-0"), Some(0));
    assert_eq!(parse_signed_decimal(b"-"), None);
    assert_eq!(parse_signed_decimal(b"--1"), None);
    assert_eq!(parse_signed_decimal(b""), None);
    assert_eq!(parse_signed_decimal(b"42"), Some(42));
}

#[test]
fn tree_entries_are_the_pairs_in_order() {
    let mut tree = Tree::new();
    tree.append_entry(Name(b"b".to_vec()), entry(counting_oid(), b"40000"));
    tree.append_entry(Name(b"a".to_vec()), entry(hello_oid(), b"100644"));
    let entries = tree.entries();
    assert_eq!(entries.len(), 2);
    assert_eq!(entries[0].0 .0, b"a".to_vec());
    assert_eq!(entries[0].1.oid(), hello_oid());
    assert_eq!(entries[0].1.mode().0, b"100644".to_vec());
    assert_eq!(entries[1].0 .0, b"b".to_vec());
    assert_eq!(entries[1].1.oid(), counting_oid());
}
