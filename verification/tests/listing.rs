use hit::commit::{Commit, Identity, Timestamp};
use hit::error::Error;
use hit::oid::Oid;
use hit::text::{append_ascii, append_padded_decimal, utf8};
use hit::tree::{EntryKind, Mode, Name, Tree, TreeEntry};

fn hello_oid() -> Oid {
    Oid::from_hex(b"3b18e512dba79e4c8300dd08aeb37f8e728b8dad").unwrap()
}

fn counting_oid() -> Oid {
    Oid::from_hex(b"000102030405060708090a0b0c0d0e0f10111213").unwrap()
}

#[test]
fn kind_text_is_tree_or_blob() {
    assert_eq!(EntryKind::Tree.to_text(), "tree");
    assert_eq!(EntryKind::Blob.to_text(), "blob");
}

#[test]
fn name_text_is_utf8() {
    assert_eq!(Name(b"src".to_vec()).to_text(), Ok("src".to_string()));
    assert_eq!(Name("h\u{e9}".as_bytes().to_vec()).to_text(), Ok("h\u{e9}".to_string()));
    assert_eq!(Name(vec![0xff]).to_text(), Err(Error::FormatError));
}

#[test]
fn mode_text_is_padded_to_six_digits() {
    assert_eq!(Mode(b"40000".to_vec()).to_text(), Ok("040000".to_string()));
    assert_eq!(Mode(b"100644".to_vec()).to_text(), Ok("100644".to_string()));
    assert_eq!(Mode(b"0".to_vec()).to_text(), Ok("000000".to_string()));
    assert_eq!(Mode(b"00000000755".to_vec()).to_text(), Ok("000755".to_string()));
    assert_eq!(Mode(b"1234567".to_vec()).to_text(), Ok("1234567".to_string()));
}

#[test]
fn mode_text_rejects_what_is_no_number() {
    assert_eq!(Mode(b"".to_vec()).to_text(), Err(Error::FormatError));
    assert_eq!(Mode(b"rwx".to_vec()).to_text(), Err(Error::FormatError));
    assert_eq!(Mode(b"99999999999999999999999".to_vec()).to_text(), Err(Error::FormatError));
}

#[test]
fn tree_listing_has_a_line_for_each_entry() {
    let mut tree = Tree::new();
    tree.append_entry(Name(b"src".to_vec()), TreeEntry::new(counting_oid(), Mode(b"40000".to_vec())));
    tree.append_entry(
        Name(b"hello.txt".to_vec()),
        TreeEntry::new(hello_oid(), Mode(b"100644".to_vec())),
    );
    assert_eq!(
        tree.to_text(),
        Ok("100644 blob 3b18e512dba79e4c8300dd08aeb37f8e728b8dad    hello.txt\n\
040000 tree 000102030405060708090a0b0c0d0e0f10111213    src\n"
            .to_string())
    );
    assert_eq!(Tree::new().to_text(), Ok(String::new()));
}

#[test]
fn tree_listing_fails_on_an_entry_without_a_line() {
    let mut tree = Tree::new();
    tree.append_entry(Name(b"a".to_vec()), TreeEntry::new(hello_oid(), Mode(b"100644".to_vec())));
    tree.append_entry(Name(b"b".to_vec()), TreeEntry::new(hello_oid(), Mode(b"mode".to_vec())));
    assert_eq!(tree.to_text(), Err(Error::FormatError));
    let mut tree = Tree::new();
    tree.append_entry(Name(vec![0xc0]), TreeEntry::new(hello_oid(), Mode(b"100644".to_vec())));
    assert_eq!(tree.to_text(), Err(Error::FormatError));
}

#[test]
fn timestamp_text_is_local_time_and_offset() {
    assert_eq!(
        Timestamp::new(1_700_000_000, 0).unwrap().to_text(),
        Some("2023-11-14 22:13:20 +00:00".to_string())
    );
    assert_eq!(
        Timestamp::new(1_700_000_000, 570).unwrap().to_text(),
        Some("2023-11-15 07:43:20 +09:30".to_string())
    );
    assert_eq!(
        Timestamp::new(0, -60).unwrap().to_text(),
        Some("1969-12-31 23:00:00 -01:00".to_string())
    );
}

#[test]
fn timestamp_text_is_none_beyond_what_the_calendar_holds() {
    assert_eq!(Timestamp::new(0, 1440).unwrap().to_text(), None);
    assert_eq!(Timestamp::new(0, -5999).unwrap().to_text(), None);
    assert_eq!(Timestamp::new(i64::MAX, 0).unwrap().to_text(), None);
    assert!(Timestamp::new(0, 1439).unwrap().to_text().is_some());
}

#[test]
fn identity_text_with_a_given_date() {
    let identity =
        Identity::new(b"A B".to_vec(), b"a@x.com".to_vec(), Timestamp::new(5, 0).unwrap());
    assert_eq!(identity.text_with("some day"), Ok("A B <a@x.com> some day".to_string()));
    assert_eq!(identity.text_with(""), Ok("A B <a@x.com> ".to_string()));
    let identity = Identity::new(vec![0xff], b"a@x.com".to_vec(), Timestamp::new(5, 0).unwrap());
    assert_eq!(identity.text_with("some day"), Err(Error::FormatError));
    let identity = Identity::new(b"A".to_vec(), vec![0x80], Timestamp::new(5, 0).unwrap());
    assert_eq!(identity.text_with("some day"), Err(Error::FormatError));
}

#[test]
fn identity_text_has_the_date_of_its_timestamp() {
    let identity = Identity::new(
        b"A".to_vec(),
        b"a@x.com".to_vec(),
        Timestamp::new(1_700_000_000, 0).unwrap(),
    );
    assert_eq!(identity.to_text(), Ok("A <a@x.com> 2023-11-14 22:13:20 +00:00".to_string()));
    let identity =
        Identity::new(b"A".to_vec(), b"a@x.com".to_vec(), Timestamp::new(0, 3000).unwrap());
    assert_eq!(identity.to_text(), Err(Error::FormatError));
}

#[test]
fn commit_listing_with_given_identities() {
    let person =
        Identity::new(b"A".to_vec(), b"a@x.com".to_vec(), Timestamp::new(1_700_000_000, 0).unwrap());
    let commit = Commit::new(
        hello_oid(),
        vec![counting_oid(), hello_oid()],
        person.clone(),
        person.clone(),
        b"msg\n".to_vec(),
    );
    assert_eq!(
        commit.text_with("AUTHOR", "COMMITTER"),
        Ok("tree 3b18e512dba79e4c8300dd08aeb37f8e728b8dad\n\
parent 000102030405060708090a0b0c0d0e0f10111213\n\
parent 3b18e512dba79e4c8300dd08aeb37f8e728b8dad\n\
author AUTHOR\n\
comitter COMMITTER\n\
msg\n"
            .to_string())
    );
    let commit = Commit::new(hello_oid(), vec![], person.clone(), person, vec![0xff]);
    assert_eq!(commit.text_with("AUTHOR", "COMMITTER"), Err(Error::FormatError));
}

#[test]
fn commit_listing() {
    let person =
        Identity::new(b"A".to_vec(), b"a@x.com".to_vec(), Timestamp::new(1_700_000_000, 0).unwrap());
    let commit = Commit::new(hello_oid(), vec![], person.clone(), person, b"msg\n".to_vec());
    assert_eq!(
        commit.to_text(),
        Ok("tree 3b18e512dba79e4c8300dd08aeb37f8e728b8dad\n\
author A <a@x.com> 2023-11-14 22:13:20 +00:00\n\
comitter A <a@x.com> 2023-11-14 22:13:20 +00:00\n\
msg\n"
            .to_string())
    );
}

#[test]
fn text_helpers() {
    assert_eq!(utf8(b"abc"), Ok("abc"));
    assert_eq!(utf8(&[0xe2, 0x82, 0xac]), Ok("\u{20ac}"));
    assert_eq!(utf8(&[0xe2, 0x82]), Err(Error::FormatError));
    let mut text = String::from("x");
    append_ascii(&mut text, b"yz 12");
    append_padded_decimal(&mut text, 7, 3);
    append_padded_decimal(&mut text, 12345, 3);
    append_padded_decimal(&mut text, 0, 0);
    assert_eq!(text, "xyz 12007123450");
}
