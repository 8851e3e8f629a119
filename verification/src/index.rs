use vstd::prelude::*;
use vstd::string::*;
use vstd::utf8::{decode_utf8, valid_utf8};
use crate::blob::{blob_encoding, Blob};
use crate::bytes::{lemma_append, lemma_skip_prefix};
use crate::cursor::Cursor;
use crate::endian::{
    be_u16, be_u32, lemma_be_len, lemma_be_prefix, lemma_u16_at, lemma_u32_at, read_i32,
    read_u16, read_u32, signed, u16_be, u32_be, unsigned, write_i32, write_u16, write_u32,
};
use crate::error::Error;
use crate::decimal::{decimal, signed_decimal};
use crate::oid::{hex_chars, sha1_digest, Oid};
use crate::text::{append_decimal, append_signed_decimal, ascii_chars, utf8};

verus! {

/// The tag that opens every index file: the ASCII letters `DIRC`.
pub open spec fn index_magic() -> Seq<u8> {
    seq![68u8, 73u8, 82u8, 67u8]
}

/// The number of bytes of an entry before its path.
pub const ENTRY_FIXED_LEN: usize = 62;

/// The header of an index file.
#[derive(Debug)]
pub struct IndexHeader {
    pub magic: [u8; 4],
    pub version: u32,
    pub num_entries: u32,
}

/// A point in time as the index stores it.
#[derive(Debug, Clone, Copy)]
pub struct IndexTime {
    pub seconds: i32,
    pub nanoseconds: u32,
}

/// One tracked path with its cached metadata.
#[derive(Debug)]
pub struct IndexEntry {
    pub ctime: IndexTime,
    pub mtime: IndexTime,
    pub dev: u32,
    pub ino: u32,
    pub mode: u32,
    pub uid: u32,
    pub gid: u32,
    pub size: u32,
    pub id: Oid,
    pub flags: u16,
    pub flags_extended: u16,
    pub path: Vec<u8>,
}

/// What the file system knows of a file, as far as an entry caches it.
#[derive(Debug, Clone, Copy)]
pub struct FileStat {
    pub ctime: IndexTime,
    pub mtime: IndexTime,
    pub dev: u32,
    pub ino: u32,
    pub mode: u32,
    pub uid: u32,
    pub gid: u32,
    pub size: u32,
}

/// The staging index: a header and the entries in the order in which they
/// are stored. The header's entry count is always the number of entries.
#[derive(Debug)]
pub struct Index {
    header: IndexHeader,
    entries: Vec<IndexEntry>,
}

/// What an [`IndexEntry`] holds, as plain values.
pub ghost struct IndexEntryView {
    pub ctime: IndexTime,
    pub mtime: IndexTime,
    pub dev: u32,
    pub ino: u32,
    pub mode: u32,
    pub uid: u32,
    pub gid: u32,
    pub size: u32,
    pub id: Seq<u8>,
    pub flags: u16,
    pub flags_extended: u16,
    pub path: Seq<u8>,
}

impl IndexEntryView {
    /// The flags declare the length of the path, the identifier has its 20
    /// bytes, and no extended flag is set.
    pub open spec fn wf(self) -> bool {
        &&& self.path.len() == path_len(self.flags)
        &&& self.id.len() == 20
        &&& self.flags_extended == 0
    }
}

/// What an [`Index`] holds, as plain values. The entry count of the header is
/// the length of `entries`, and the tag is always [`index_magic`].
pub ghost struct IndexView {
    pub version: u32,
    pub entries: Seq<IndexEntryView>,
}

impl IndexView {
    /// Every entry is well formed, and the entries can be counted in 32 bits.
    pub open spec fn wf(self) -> bool {
        &&& self.entries.len() <= u32::MAX
        &&& forall|i: int| 0 <= i < self.entries.len() ==> (#[trigger] self.entries[i]).wf()
    }
}

impl View for IndexEntry {
    type V = IndexEntryView;

    open spec fn view(&self) -> IndexEntryView {
        IndexEntryView {
            ctime: self.ctime,
            mtime: self.mtime,
            dev: self.dev,
            ino: self.ino,
            mode: self.mode,
            uid: self.uid,
            gid: self.gid,
            size: self.size,
            id: self.id@,
            flags: self.flags,
            flags_extended: self.flags_extended,
            path: self.path@,
        }
    }
}

/// The views of a vector of entries.
pub open spec fn entry_views(entries: Seq<IndexEntry>) -> Seq<IndexEntryView> {
    entries.map_values(|e: IndexEntry| e@)
}

impl View for Index {
    type V = IndexView;

    closed spec fn view(&self) -> IndexView {
        IndexView { version: self.header.version, entries: entry_views(self.entries@) }
    }
}

/// The path length that a flags field declares: its low 12 bits.
pub open spec fn path_len(flags: u16) -> int {
    (flags & 0x0fff) as int
}

/// The number of zero bytes after a path of `n` bytes: as many as bring the
/// entry to a multiple of 8, and 8 where it is one already.
pub open spec fn padding_len(n: int) -> int {
    8 - (ENTRY_FIXED_LEN + n) % 8
}

/// The number of bytes of an entry whose path has `n` bytes.
pub open spec fn entry_size(n: int) -> int {
    ENTRY_FIXED_LEN + n + padding_len(n)
}

/// `n` zero bytes.
pub open spec fn zeros(n: int) -> Seq<u8> {
    Seq::new(n as nat, |i: int| 0u8)
}

/// The eight bytes of a time: signed seconds, then nanoseconds.
pub open spec fn time_bytes(t: IndexTime) -> Seq<u8> {
    u32_be(unsigned(t.seconds)) + u32_be(t.nanoseconds)
}

/// The twelve bytes of a header.
pub open spec fn header_bytes(magic: Seq<u8>, version: u32, num_entries: u32) -> Seq<u8> {
    magic + u32_be(version) + u32_be(num_entries)
}

/// The bytes of the fixed fields of an entry: the two times, the six
/// numbers, the identifier and the flags.
#[verifier::opaque]
pub open spec fn entry_fixed_bytes(e: IndexEntryView) -> Seq<u8> {
    time_bytes(e.ctime) + time_bytes(e.mtime) + u32_be(e.dev) + u32_be(e.ino) + u32_be(e.mode)
        + u32_be(e.uid) + u32_be(e.gid) + u32_be(e.size) + e.id + u16_be(e.flags)
}

/// The bytes of an entry: the fixed fields, the path, and the padding.
pub open spec fn entry_bytes(e: IndexEntryView) -> Seq<u8> {
    entry_fixed_bytes(e) + e.path + zeros(padding_len(e.path.len() as int))
}

/// The bytes of a sequence of entries, in their order.
pub open spec fn entries_bytes(es: Seq<IndexEntryView>) -> Seq<u8>
    decreases es.len(),
{
    if es.len() == 0 {
        Seq::empty()
    } else {
        entry_bytes(es[0]) + entries_bytes(es.skip(1))
    }
}

/// The bytes of an index: the header, then the entries in their order.
pub open spec fn index_bytes(v: IndexView) -> Seq<u8> {
    header_bytes(index_magic(), v.version, v.entries.len() as u32) + entries_bytes(v.entries)
}

/// The time that the first eight bytes of `s` spell.
pub open spec fn parse_time(s: Seq<u8>) -> IndexTime
    recommends
        s.len() >= 8,
{
    IndexTime { seconds: signed(be_u32(s)), nanoseconds: be_u32(s.skip(4)) }
}

/// The number of bytes of the entry at the start of `s`, as its flags field
/// declares it.
pub open spec fn stream_entry_size(s: Seq<u8>) -> int
    recommends
        s.len() >= ENTRY_FIXED_LEN,
{
    entry_size(path_len(be_u16(s.skip(60))))
}

/// Whether `s` starts with a whole entry.
pub open spec fn entry_fits(s: Seq<u8>) -> bool {
    s.len() >= ENTRY_FIXED_LEN && s.len() >= stream_entry_size(s)
}

/// The entry at the start of `s`.
#[verifier::opaque]
pub open spec fn parse_entry(s: Seq<u8>) -> IndexEntryView
    recommends
        entry_fits(s),
{
    IndexEntryView {
        ctime: parse_time(s),
        mtime: parse_time(s.skip(8)),
        dev: be_u32(s.skip(16)),
        ino: be_u32(s.skip(20)),
        mode: be_u32(s.skip(24)),
        uid: be_u32(s.skip(28)),
        gid: be_u32(s.skip(32)),
        size: be_u32(s.skip(36)),
        id: s.subrange(40, 60),
        flags: be_u16(s.skip(60)),
        flags_extended: 0,
        path: s.subrange(62, 62 + path_len(be_u16(s.skip(60)))),
    }
}

/// The padding of the entry at the start of `s`.
pub open spec fn entry_padding(s: Seq<u8>) -> Seq<u8>
    recommends
        entry_fits(s),
{
    s.subrange(62 + path_len(be_u16(s.skip(60))), stream_entry_size(s))
}

/// The version and the entry count that the header at the start of `s`
/// declares. A missing byte is an `IOError`, a wrong tag a `FormatError`; the
/// tag is looked at as soon as its four bytes are there.
pub open spec fn parse_header(s: Seq<u8>) -> Result<(u32, u32), Error> {
    if s.len() < 4 {
        Err(Error::IOError)
    } else if s.take(4) != index_magic() {
        Err(Error::FormatError)
    } else if s.len() < 12 {
        Err(Error::IOError)
    } else {
        Ok((be_u32(s.skip(4)), be_u32(s.skip(8))))
    }
}

/// The `count` entries at the start of `s`, or `IOError` where `s` ends
/// before the last of them does.
pub open spec fn parse_entries(s: Seq<u8>, count: nat) -> Result<Seq<IndexEntryView>, Error>
    decreases count,
{
    if count == 0 {
        Ok(Seq::empty())
    } else if !entry_fits(s) {
        Err(Error::IOError)
    } else {
        match parse_entries(s.skip(stream_entry_size(s)), (count - 1) as nat) {
            Ok(rest) => Ok(seq![parse_entry(s)] + rest),
            Err(e) => Err(e),
        }
    }
}

/// The number of bytes that `count` entries at the start of `s` take.
pub open spec fn entries_size(s: Seq<u8>, count: nat) -> int
    decreases count,
{
    if count == 0 {
        0
    } else {
        stream_entry_size(s) + entries_size(s.skip(stream_entry_size(s)), (count - 1) as nat)
    }
}

/// Whether the padding of each of the `count` entries at the start of `s` is
/// all zero.
pub open spec fn zero_padded(s: Seq<u8>, count: nat) -> bool
    decreases count,
{
    count == 0 || {
        &&& entry_fits(s)
        &&& entry_padding(s) == zeros(entry_padding(s).len() as int)
        &&& zero_padded(s.skip(stream_entry_size(s)), (count - 1) as nat)
    }
}

/// The index that `s` spells: a header and as many entries as it declares.
pub open spec fn parse_index(s: Seq<u8>) -> Result<IndexView, Error> {
    match parse_header(s) {
        Err(e) => Err(e),
        Ok((version, count)) => match parse_entries(s.skip(12), count as nat) {
            Err(e) => Err(e),
            Ok(entries) => Ok(IndexView { version, entries }),
        },
    }
}

/// The number of bytes that the index at the start of `s` takes.
pub open spec fn index_size(s: Seq<u8>) -> int
    recommends
        s.len() >= 12,
{
    12 + entries_size(s.skip(12), be_u32(s.skip(8)) as nat)
}

/// `entries` appended to what `r` holds, where it holds anything.
pub open spec fn prepend(entries: Seq<IndexEntryView>, r: Result<Seq<IndexEntryView>, Error>)
    -> Result<Seq<IndexEntryView>, Error> {
    match r {
        Ok(rest) => Ok(entries + rest),
        Err(e) => Err(e),
    }
}

/// The text of a time for a person to read.
pub open spec fn time_text(t: IndexTime) -> Seq<char> {
    "IndexTime { seconds: "@ + ascii_chars(signed_decimal(t.seconds as int)) + ", nanoseconds: "@
        + ascii_chars(decimal(t.nanoseconds as nat)) + " }"@
}

/// The text of a header for a person to read. A tag that is not UTF-8 has no
/// text.
pub open spec fn header_text(magic: Seq<u8>, version: u32, num_entries: u32) -> Option<Seq<char>> {
    if valid_utf8(magic) {
        Some(
            "IndexHeader { magic: "@ + decode_utf8(magic) + ", version: "@ + ascii_chars(
                decimal(version as nat),
            ) + ", num_entries: "@ + ascii_chars(decimal(num_entries as nat)) + " }"@,
        )
    } else {
        None
    }
}

/// The text of the numbers of an entry for a person to read: the two times
/// and the six fields after them.
pub open spec fn entry_numbers_text(e: IndexEntryView) -> Seq<char> {
    "IndexEntry { ctime: "@ + time_text(e.ctime) + ", mtime: "@ + time_text(e.mtime) + ", dev: "@
        + ascii_chars(decimal(e.dev as nat)) + ", ino: "@ + ascii_chars(decimal(e.ino as nat))
        + ", mode: "@ + ascii_chars(decimal(e.mode as nat)) + ", uid: "@ + ascii_chars(
        decimal(e.uid as nat),
    ) + ", gid: "@ + ascii_chars(decimal(e.gid as nat)) + ", size: "@ + ascii_chars(
        decimal(e.size as nat),
    )
}

/// The text of an entry for a person to read. An entry whose path is not
/// UTF-8 has no text.
pub open spec fn entry_text(e: IndexEntryView) -> Option<Seq<char>> {
    if valid_utf8(e.path) {
        Some(
            entry_numbers_text(e) + ", id: "@ + hex_chars(e.id) + ", flags: "@ + ascii_chars(
                decimal(e.flags as nat),
            ) + ", flags_extended: "@ + ascii_chars(decimal(e.flags_extended as nat)) + ", path: "@
                + decode_utf8(e.path) + " }"@,
        )
    } else {
        None
    }
}

/// The texts of `entries` in their order, with a comma and a space between
/// one and the next. Where one of them has no text, there is none.
pub open spec fn entries_text(entries: Seq<IndexEntryView>) -> Option<Seq<char>>
    decreases entries.len(),
{
    if entries.len() == 0 {
        Some(Seq::empty())
    } else if entries_text(entries.drop_last()) is None || entry_text(entries.last()) is None {
        None
    } else if entries.len() == 1 {
        entry_text(entries.last())
    } else {
        Some(entries_text(entries.drop_last())->Some_0 + ", "@ + entry_text(entries.last())->Some_0)
    }
}

/// The text of an index for a person to read: the header, and the entries
/// in square brackets. Where an entry has no text, there is none.
pub open spec fn index_text(v: IndexView) -> Option<Seq<char>> {
    let header = header_text(index_magic(), v.version, v.entries.len() as u32);
    if header is Some && entries_text(v.entries) is Some {
        Some(
            "Index { header: "@ + header->Some_0 + ", entries: ["@ + entries_text(
                v.entries,
            )->Some_0 + "] }"@,
        )
    } else {
        None
    }
}

impl IndexHeader {
    /// The header of an empty index in format version 2.
    pub fn new() -> (h: IndexHeader)
        ensures
            h.magic@ == index_magic(),
            h.version == 2,
            h.num_entries == 0,
    {
        Self { magic: [68u8, 73u8, 82u8, 67u8], version: 2, num_entries: 0 }
    }

    /// The header as text for a person to read. A tag that is not UTF-8 is a
    /// `FormatError`.
    pub fn to_text(&self) -> (r: Result<String, Error>)
        ensures
            match r {
                Ok(text) => header_text(self.magic@, self.version, self.num_entries) == Some(
                    text@,
                ),
                Err(e) => e == Error::FormatError && header_text(
                    self.magic@,
                    self.version,
                    self.num_entries,
                ) is None,
            },
    {
        let magic = match utf8(self.magic.as_slice()) {
            Ok(magic) => magic,
            Err(e) => return Err(e),
        };
        let mut text = String::from_str("IndexHeader { magic: ");
        text.append(magic);
        text.append(", version: ");
        append_decimal(&mut text, self.version as u64);
        text.append(", num_entries: ");
        append_decimal(&mut text, self.num_entries as u64);
        text.append(" }");
        Ok(text)
    }

    /// Counts one more entry.
    pub fn increment_entries(&mut self)
        requires
            old(self).num_entries < u32::MAX,
        ensures
            final(self).num_entries == old(self).num_entries + 1,
            final(self).version == old(self).version,
            final(self).magic == old(self).magic,
    {
        self.num_entries = self.num_entries + 1
    }

    /// Reads the twelve bytes of a header and checks its tag.
    pub fn from_reader(reader: &mut Cursor) -> (r: Result<IndexHeader, Error>)
        ensures
            match r {
                Ok(h) => {
                    &&& parse_header(old(reader)@) == Ok::<_, Error>((h.version, h.num_entries))
                    &&& h.magic@ == index_magic()
                    &&& final(reader)@ == old(reader)@.skip(12)
                },
                Err(e) => parse_header(old(reader)@) == Err::<(u32, u32), _>(e),
            },
    {
        let ghost s = reader@;
        let tag = match reader.read_exact(4) {
            Ok(tag) => tag,
            Err(e) => return Err(e),
        };
        if tag[0] != 68u8 || tag[1] != 73u8 || tag[2] != 82u8 || tag[3] != 67u8 {
            assert(s.take(4) != index_magic()) by {
                if s.take(4) == index_magic() {
                    assert(tag@[0] == 68u8 && tag@[1] == 73u8 && tag@[2] == 82u8 && tag@[3]
                        == 67u8);
                }
            }
            return Err(Error::FormatError);
        }
        assert(s.take(4) =~= index_magic());
        let magic = [68u8, 73u8, 82u8, 67u8];
        assert(magic@ =~= index_magic());
        let version = match read_u32(reader) {
            Ok(n) => n,
            Err(e) => return Err(e),
        };
        assert(reader@ == s.skip(8)) by {
            assert(s.skip(4).skip(4) == s.skip(8));
        }
        let num_entries = match read_u32(reader) {
            Ok(n) => n,
            Err(e) => return Err(e),
        };
        assert(reader@ == s.skip(12)) by {
            assert(s.skip(8).skip(4) == s.skip(12));
        }
        Ok(Self { magic, version, num_entries })
    }

    /// Appends the twelve bytes of the header.
    pub fn write(&self, writer: &mut Vec<u8>)
        ensures
            final(writer)@ == old(writer)@ + header_bytes(
                self.magic@,
                self.version,
                self.num_entries,
            ),
    {
        let ghost w = writer@;
        writer.extend_from_slice(self.magic.as_slice());
        write_u32(writer, self.version);
        assert(writer@ == w + (self.magic@ + u32_be(self.version))) by {
            lemma_append(w, self.magic@, u32_be(self.version));
        }
        write_u32(writer, self.num_entries);
        assert(writer@ == w + header_bytes(self.magic@, self.version, self.num_entries)) by {
            lemma_append(w, self.magic@ + u32_be(self.version), u32_be(self.num_entries));
        }
    }
}

impl IndexTime {
    /// The time `seconds` after the epoch and `nanoseconds` more.
    pub fn new(seconds: i32, nanoseconds: u32) -> (t: IndexTime)
        ensures
            t.seconds == seconds,
            t.nanoseconds == nanoseconds,
    {
        Self { seconds, nanoseconds }
    }

    /// Appends the time as text for a person to read.
    pub fn append_text(&self, out: &mut String)
        ensures
            final(out)@ == old(out)@ + time_text(*self),
    {
        let ghost before = out@;
        out.append("IndexTime { seconds: ");
        append_signed_decimal(out, self.seconds as i64);
        out.append(", nanoseconds: ");
        append_decimal(out, self.nanoseconds as u64);
        out.append(" }");
        assert(out@ =~= before + time_text(*self));
    }

    /// Reads the eight bytes of a time. Fails with `IOError` on fewer.
    pub fn from_reader(reader: &mut Cursor) -> (r: Result<IndexTime, Error>)
        ensures
            r is Ok <==> old(reader)@.len() >= 8,
            match r {
                Ok(t) => t == parse_time(old(reader)@) && final(reader)@ == old(reader)@.skip(8),
                Err(e) => e == Error::IOError,
            },
    {
        let ghost s = reader@;
        let seconds = match read_i32(reader) {
            Ok(n) => n,
            Err(e) => return Err(e),
        };
        let nanoseconds = match read_u32(reader) {
            Ok(n) => n,
            Err(e) => return Err(e),
        };
        assert(s.skip(4).skip(4) == s.skip(8));
        Ok(Self { seconds, nanoseconds })
    }

    /// Appends the eight bytes of the time.
    pub fn write(&self, writer: &mut Vec<u8>)
        ensures
            final(writer)@ == old(writer)@ + time_bytes(*self),
    {
        write_i32(writer, self.seconds);
        write_u32(writer, self.nanoseconds);
        assert(writer@ == old(writer)@ + time_bytes(*self));
    }
}

impl IndexEntry {
    /// Whether the entry is one that the file format can hold. See
    /// [`IndexEntryView::wf`].
    pub open spec fn wf(&self) -> bool {
        self@.wf()
    }

    /// The entry for the file at `path` with the metadata `stat` and the
    /// content `content`: the identifier is that of the content as a blob,
    /// and the flags hold the length of the path. A path of more than 4095
    /// bytes does not fit the flags.
    pub fn new(path: &[u8], stat: &FileStat, content: &[u8]) -> (entry: IndexEntry)
        requires
            path@.len() <= 0x0fff,
        ensures
            entry.wf(),
            entry@ == (IndexEntryView {
                ctime: stat.ctime,
                mtime: stat.mtime,
                dev: stat.dev,
                ino: stat.ino,
                mode: stat.mode,
                uid: stat.uid,
                gid: stat.gid,
                size: stat.size,
                id: sha1_digest(blob_encoding(content@)),
                flags: path@.len() as u16,
                flags_extended: 0,
                path: path@,
            }),
    {
        let id = Blob::new(content).id();
        let flags: u16 = path.len() as u16;
        proof {
            id.lemma_len();
            assert(flags <= 0x0fff ==> flags & 0x0fff == flags) by (bit_vector);
        }
        Self {
            ctime: stat.ctime,
            mtime: stat.mtime,
            dev: stat.dev,
            ino: stat.ino,
            mode: stat.mode,
            uid: stat.uid,
            gid: stat.gid,
            size: stat.size,
            id,
            flags,
            flags_extended: 0,
            path: vstd::slice::slice_to_vec(path),
        }
    }

    /// Appends the text of the numbers of the entry.
    fn append_numbers_text(&self, out: &mut String)
        ensures
            final(out)@ == old(out)@ + entry_numbers_text(self@),
    {
        let ghost before = out@;
        out.append("IndexEntry { ctime: ");
        self.ctime.append_text(out);
        out.append(", mtime: ");
        self.mtime.append_text(out);
        out.append(", dev: ");
        append_decimal(out, self.dev as u64);
        out.append(", ino: ");
        append_decimal(out, self.ino as u64);
        out.append(", mode: ");
        append_decimal(out, self.mode as u64);
        out.append(", uid: ");
        append_decimal(out, self.uid as u64);
        out.append(", gid: ");
        append_decimal(out, self.gid as u64);
        out.append(", size: ");
        append_decimal(out, self.size as u64);
        assert(out@ =~= before + entry_numbers_text(self@));
    }

    /// The entry as text for a person to read. A path that is not UTF-8 is
    /// a `FormatError`.
    pub fn to_text(&self) -> (r: Result<String, Error>)
        ensures
            match r {
                Ok(text) => entry_text(self@) == Some(text@),
                Err(e) => e == Error::FormatError && entry_text(self@) is None,
            },
    {
        let path = match utf8(self.path.as_slice()) {
            Ok(path) => path,
            Err(e) => return Err(e),
        };
        let mut text = String::new();
        self.append_numbers_text(&mut text);
        assert(text@ =~= entry_numbers_text(self@));
        let id = self.id.hex();
        text.append(", id: ");
        text.append(id.as_str());
        text.append(", flags: ");
        append_decimal(&mut text, self.flags as u64);
        text.append(", flags_extended: ");
        append_decimal(&mut text, self.flags_extended as u64);
        text.append(", path: ");
        text.append(path);
        text.append(" }");
        Ok(text)
    }

    /// Reads one entry: the 62 fixed bytes, the path, whose length the low 12
    /// bits of the flags give, and the padding, which is skipped. Fails with
    /// `IOError` where the input ends before the entry does.
    pub fn from_reader(reader: &mut Cursor) -> (r: Result<IndexEntry, Error>)
        ensures
            r is Ok <==> entry_fits(old(reader)@),
            match r {
                Ok(entry) => {
                    &&& entry@ == parse_entry(old(reader)@)
                    &&& entry.wf()
                    &&& final(reader)@ == old(reader)@.skip(stream_entry_size(old(reader)@))
                },
                Err(e) => e == Error::IOError,
            },
    {
        let ghost s = reader@;
        reveal(parse_entry);
        let ctime = match IndexTime::from_reader(reader) {
            Ok(t) => t,
            Err(e) => return Err(e),
        };
        let mtime = match IndexTime::from_reader(reader) {
            Ok(t) => t,
            Err(e) => return Err(e),
        };
        assert(reader@ == s.skip(16)) by {
            assert(s.skip(8).skip(8) == s.skip(16));
        }
        let dev = match read_u32(reader) {
            Ok(n) => n,
            Err(e) => return Err(e),
        };
        assert(reader@ == s.skip(20)) by {
            assert(s.skip(16).skip(4) == s.skip(20));
        }
        let ino = match read_u32(reader) {
            Ok(n) => n,
            Err(e) => return Err(e),
        };
        assert(reader@ == s.skip(24)) by {
            assert(s.skip(20).skip(4) == s.skip(24));
        }
        let mode = match read_u32(reader) {
            Ok(n) => n,
            Err(e) => return Err(e),
        };
        assert(reader@ == s.skip(28)) by {
            assert(s.skip(24).skip(4) == s.skip(28));
        }
        let uid = match read_u32(reader) {
            Ok(n) => n,
            Err(e) => return Err(e),
        };
        assert(reader@ == s.skip(32)) by {
            assert(s.skip(28).skip(4) == s.skip(32));
        }
        let gid = match read_u32(reader) {
            Ok(n) => n,
            Err(e) => return Err(e),
        };
        assert(reader@ == s.skip(36)) by {
            assert(s.skip(32).skip(4) == s.skip(36));
        }
        let size = match read_u32(reader) {
            Ok(n) => n,
            Err(e) => return Err(e),
        };
        assert(reader@ == s.skip(40)) by {
            assert(s.skip(36).skip(4) == s.skip(40));
        }
        let id = match Oid::from_reader(reader) {
            Ok(id) => id,
            Err(e) => return Err(e),
        };
        assert(reader@ == s.skip(60) && id@ == s.subrange(40, 60)) by {
            assert(s.skip(40).skip(20) == s.skip(60));
            assert(s.skip(40).take(20) == s.subrange(40, 60));
        }
        let flags = match read_u16(reader) {
            Ok(n) => n,
            Err(e) => return Err(e),
        };
        assert(reader@ == s.skip(62)) by {
            assert(s.skip(60).skip(2) == s.skip(62));
        }
        let flags_extended = 0u16;
        let name_len: u16 = flags & 0x0fff;
        proof {
            lemma_path_len(flags);
        }
        let path = match reader.read_exact(name_len as usize) {
            Ok(path) => path,
            Err(e) => return Err(e),
        };
        assert(reader@ == s.skip(62 + name_len) && path@ == s.subrange(62, 62 + name_len)) by {
            assert(s.skip(62).skip(name_len as int) == s.skip(62 + name_len));
            assert(s.skip(62).take(name_len as int) == s.subrange(62, 62 + name_len));
        }
        let remain: u16 = 8 - (name_len + 62) % 8;
        match reader.read_exact(remain as usize) {
            Ok(_) => {},
            Err(e) => return Err(e),
        }
        assert(reader@ == s.skip(stream_entry_size(s))) by {
            assert(s.skip(62 + name_len).skip(remain as int) == s.skip(62 + name_len + remain));
        }
        Ok(
            Self {
                ctime,
                mtime,
                dev,
                ino,
                mode,
                uid,
                gid,
                size,
                id,
                flags,
                flags_extended,
                path,
            },
        )
    }

    /// Appends the bytes of the fixed fields.
    fn write_fixed(&self, writer: &mut Vec<u8>)
        ensures
            final(writer)@ == old(writer)@ + entry_fixed_bytes(self@),
            entry_fixed_bytes(self@).len() == ENTRY_FIXED_LEN,
    {
        let ghost w = writer@;
        self.ctime.write(writer);
        let ghost f1 = time_bytes(self.ctime);
        self.mtime.write(writer);
        let ghost f2 = f1 + time_bytes(self.mtime);
        assert(writer@ == w + f2) by {
            lemma_append(w, f1, time_bytes(self.mtime));
        }
        write_u32(writer, self.dev);
        let ghost f3 = f2 + u32_be(self.dev);
        assert(writer@ == w + f3) by {
            lemma_append(w, f2, u32_be(self.dev));
        }
        write_u32(writer, self.ino);
        let ghost f4 = f3 + u32_be(self.ino);
        assert(writer@ == w + f4) by {
            lemma_append(w, f3, u32_be(self.ino));
        }
        write_u32(writer, self.mode);
        let ghost f5 = f4 + u32_be(self.mode);
        assert(writer@ == w + f5) by {
            lemma_append(w, f4, u32_be(self.mode));
        }
        write_u32(writer, self.uid);
        let ghost f6 = f5 + u32_be(self.uid);
        assert(writer@ == w + f6) by {
            lemma_append(w, f5, u32_be(self.uid));
        }
        write_u32(writer, self.gid);
        let ghost f7 = f6 + u32_be(self.gid);
        assert(writer@ == w + f7) by {
            lemma_append(w, f6, u32_be(self.gid));
        }
        write_u32(writer, self.size);
        let ghost f8 = f7 + u32_be(self.size);
        assert(writer@ == w + f8) by {
            lemma_append(w, f7, u32_be(self.size));
        }
        writer.extend_from_slice(self.id.as_bytes());
        let ghost f9 = f8 + self.id@;
        assert(writer@ == w + f9) by {
            lemma_append(w, f8, self.id@);
        }
        write_u16(writer, self.flags);
        assert(writer@ == w + entry_fixed_bytes(self@)) by {
            reveal(entry_fixed_bytes);
            lemma_append(w, f9, u16_be(self.flags));
        }
        assert(entry_fixed_bytes(self@).len() == ENTRY_FIXED_LEN) by {
            self.id.lemma_len();
            lemma_parse_of_fixed(self@, Seq::empty());
        }
    }

    /// Appends the bytes of the entry: the fixed fields, the path, and the
    /// zero padding that brings the entry to the next multiple of 8.
    pub fn write(&self, writer: &mut Vec<u8>)
        ensures
            final(writer)@ == old(writer)@ + entry_bytes(self@),
            final(writer)@.len() == old(writer)@.len() + entry_size(self.path@.len() as int),
    {
        let ghost w = writer@;
        self.write_fixed(writer);
        writer.extend_from_slice(self.path.as_slice());
        let ghost head = entry_fixed_bytes(self@) + self.path@;
        assert(writer@ == w + head) by {
            lemma_append(w, entry_fixed_bytes(self@), self.path@);
        }
        let padding: usize = 8 - (self.path.len() % 8 + 6) % 8;
        assert(padding == padding_len(self.path@.len() as int));
        let mut i: usize = 0;
        while i < padding
            invariant
                i <= padding,
                writer@ == (w + head) + zeros(i as int),
            decreases padding - i,
        {
            writer.push(0u8);
            assert(((w + head) + zeros(i as int)).push(0u8) == (w + head) + zeros(i + 1));
            i = i + 1;
        }
        assert(writer@ == w + entry_bytes(self@)) by {
            lemma_append(w, head, zeros(padding as int));
        }
    }
}

impl Index {
    #[verifier::type_invariant]
    spec fn counted(&self) -> bool {
        &&& self.header.num_entries == self.entries@.len()
        &&& self.header.magic@ == index_magic()
    }

    /// An empty index in format version 2.
    pub fn new() -> (index: Index)
        ensures
            index@.version == 2,
            index@.entries == Seq::<IndexEntryView>::empty(),
    {
        let index = Self { header: IndexHeader::new(), entries: Vec::new() };
        assert(index@.entries =~= Seq::<IndexEntryView>::empty());
        index
    }

    /// The number of entries, which is the count that the header holds.
    pub fn len(&self) -> (n: u32)
        ensures
            n == self@.entries.len(),
    {
        proof {
            use_type_invariant(self);
        }
        self.header.num_entries
    }

    /// The format version that the header holds.
    pub fn version(&self) -> (version: u32)
        ensures
            version == self@.version,
    {
        self.header.version
    }

    /// The entries in their stored order.
    pub fn entries(&self) -> (entries: &Vec<IndexEntry>)
        ensures
            entry_views(entries@) == self@.entries,
    {
        &self.entries
    }

    /// The texts of the entries, with a comma and a space between one and
    /// the next. An entry whose path is not UTF-8 is a `FormatError`.
    fn entries_to_text(&self) -> (r: Result<String, Error>)
        ensures
            match r {
                Ok(text) => entries_text(self@.entries) == Some(text@),
                Err(e) => e == Error::FormatError && entries_text(self@.entries) is None,
            },
    {
        let ghost views = entry_views(self.entries@);
        let mut list = String::new();
        let mut i: usize = 0;
        assert(views.take(0) =~= Seq::<IndexEntryView>::empty());
        while i < self.entries.len()
            invariant
                i <= self.entries@.len(),
                views == entry_views(self.entries@),
                views == self@.entries,
                entries_text(views.take(i as int)) == Some(list@),
            decreases self.entries@.len() - i,
        {
            let ghost before = list@;
            let ghost next = views.take(i + 1);
            proof {
                assert(next.drop_last() =~= views.take(i as int));
                assert(next.last() == self.entries@[i as int]@);
            }
            let text = match self.entries[i].to_text() {
                Ok(text) => text,
                Err(e) => {
                    proof {
                        if entries_text(views) is Some {
                            lemma_entries_text_each(views, i as int);
                        }
                    }
                    return Err(e);
                },
            };
            if i > 0 {
                list.append(", ");
            }
            list.append(text.as_str());
            proof {
                if i == 0 {
                    assert(before =~= Seq::<char>::empty());
                    assert(list@ =~= text@);
                }
            }
            i = i + 1;
        }
        assert(views.take(i as int) =~= views);
        Ok(list)
    }

    /// The index as text for a person to read: the header, and the entries
    /// in square brackets. An entry whose path is not UTF-8 is a
    /// `FormatError`.
    pub fn to_text(&self) -> (r: Result<String, Error>)
        ensures
            match r {
                Ok(text) => index_text(self@) == Some(text@),
                Err(e) => e == Error::FormatError && index_text(self@) is None,
            },
    {
        proof {
            use_type_invariant(self);
        }
        let header = match self.header.to_text() {
            Ok(header) => header,
            Err(e) => return Err(e),
        };
        let list = match self.entries_to_text() {
            Ok(list) => list,
            Err(e) => return Err(e),
        };
        let mut text = String::from_str("Index { header: ");
        text.append(header.as_str());
        text.append(", entries: [");
        text.append(list.as_str());
        text.append("] }");
        Ok(text)
    }

    /// Adds an entry after those that are there, and counts it in the header.
    pub fn add_entry(&mut self, index_entry: IndexEntry)
        requires
            old(self)@.entries.len() < u32::MAX,
        ensures
            final(self)@.entries == old(self)@.entries.push(index_entry@),
            final(self)@.version == old(self)@.version,
    {
        let mut taken = Index::new();
        core::mem::swap(self, &mut taken);
        proof {
            use_type_invariant(&taken);
        }
        let Index { mut header, mut entries } = taken;
        let ghost before = entries@;
        header.increment_entries();
        entries.push(index_entry);
        assert(entry_views(entries@) =~= entry_views(before).push(index_entry@));
        *self = Index { header, entries };
    }

    /// Reads an index: the header, then as many entries as it declares. A
    /// wrong tag is a `FormatError`, an input that ends too early an `IOError`.
    pub fn from_reader(reader: &mut Cursor) -> (r: Result<Index, Error>)
        ensures
            match r {
                Ok(index) => {
                    &&& parse_index(old(reader)@) == Ok::<_, Error>(index@)
                    &&& index@.wf()
                    &&& final(reader)@ == old(reader)@.skip(index_size(old(reader)@))
                },
                Err(e) => parse_index(old(reader)@) == Err::<IndexView, _>(e),
            },
    {
        let ghost s = reader@;
        let header = match IndexHeader::from_reader(reader) {
            Ok(h) => h,
            Err(e) => return Err(e),
        };
        let ghost body = reader@;
        let count = header.num_entries;
        let mut entries: Vec<IndexEntry> = Vec::new();
        let mut i: u32 = 0;
        let ghost mut n: int = 0;
        proof {
            assert(body.skip(0) =~= body);
            let all = parse_entries(body, count as nat);
            if all is Ok {
                assert(entry_views(entries@) + all->Ok_0 =~= all->Ok_0);
            }
        }
        while i < count
            invariant
                i <= count,
                entries@.len() == i,
                s == old(reader)@,
                body == s.skip(12),
                count == header.num_entries,
                parse_header(s) == Ok::<_, Error>((header.version, count)),
                forall|k: int| 0 <= k < i ==> (#[trigger] entries@[k]).wf(),
                parse_entries(body, count as nat) == prepend(
                    entry_views(entries@),
                    parse_entries(reader@, (count - i) as nat),
                ),
                0 <= n <= body.len(),
                reader@ == body.skip(n),
                entries_size(body, count as nat) == n + entries_size(reader@, (count - i) as nat),
            decreases count - i,
        {
            let ghost before = reader@;
            let ghost done = entries@;
            let entry = match IndexEntry::from_reader(reader) {
                Ok(entry) => entry,
                Err(e) => return Err(e),
            };
            proof {
                let size = stream_entry_size(before);
                lemma_path_len(be_u16(before.skip(60)));
                assert(body.skip(n).skip(size) == body.skip(n + size));
                let rest = parse_entries(reader@, (count - i - 1) as nat);
                assert(entry_views(done.push(entry)) =~= entry_views(done).push(entry@));
                if rest is Ok {
                    assert(entry_views(done) + (seq![entry@] + rest->Ok_0) =~= entry_views(
                        done.push(entry),
                    ) + rest->Ok_0);
                }
                n = n + size;
            }
            entries.push(entry);
            i = i + 1;
        }
        proof {
            assert(entry_views(entries@) + Seq::<IndexEntryView>::empty() =~= entry_views(
                entries@,
            ));
        }
        let index = Self { header, entries };
        assert(index@.wf());
        Ok(index)
    }

    /// Appends the bytes of the index: the header, then each entry in the
    /// stored order.
    pub fn write(&self, writer: &mut Vec<u8>)
        ensures
            final(writer)@ == old(writer)@ + index_bytes(self@),
    {
        proof {
            use_type_invariant(self);
        }
        let ghost w = writer@;
        self.header.write(writer);
        let ghost head = header_bytes(index_magic(), self.header.version, self.header.num_entries);
        let ghost views = entry_views(self.entries@);
        let mut i: usize = 0;
        assert(views.take(0) =~= Seq::<IndexEntryView>::empty());
        while i < self.entries.len()
            invariant
                i <= self.entries@.len(),
                views == entry_views(self.entries@),
                writer@ == (w + head) + entries_bytes(views.take(i as int)),
            decreases self.entries@.len() - i,
        {
            let ghost sofar = writer@;
            self.entries[i].write(writer);
            proof {
                lemma_entries_bytes_push(views.take(i as int), views[i as int]);
                assert(views.take(i as int).push(views[i as int]) =~= views.take(i + 1));
                lemma_append(w + head, entries_bytes(views.take(i as int)), entry_bytes(views[i as int]));
            }
            i = i + 1;
        }
        proof {
            assert(views.take(i as int) =~= views);
            lemma_append(w, head, entries_bytes(views));
        }
    }
}

/// The size of an entry is the least multiple of 8 that is greater than its
/// 62 fixed bytes and its path together.
pub proof fn lemma_entry_size(n: int, m: int)
    requires
        0 <= n,
    ensures
        entry_size(n) % 8 == 0,
        ENTRY_FIXED_LEN + n < entry_size(n) <= ENTRY_FIXED_LEN + n + 8,
        m % 8 == 0 && ENTRY_FIXED_LEN + n < m ==> entry_size(n) <= m,
{
}

/// Where the fixed bytes and the path together are no multiple of 8, the
/// size of an entry is the least multiple of 8 that is not less than them.
pub proof fn lemma_entry_size_rounds_up(n: int, m: int)
    requires
        0 <= n,
        (ENTRY_FIXED_LEN + n) % 8 != 0,
    ensures
        entry_size(n) % 8 == 0,
        ENTRY_FIXED_LEN + n <= entry_size(n),
        m % 8 == 0 && ENTRY_FIXED_LEN + n <= m ==> entry_size(n) <= m,
{
}

/// Where entries have a text together, each of them has one.
pub proof fn lemma_entries_text_each(entries: Seq<IndexEntryView>, k: int)
    requires
        entries_text(entries) is Some,
        0 <= k < entries.len(),
    ensures
        entry_text(entries[k]) is Some,
    decreases entries.len(),
{
    if k < entries.len() - 1 {
        lemma_entries_text_each(entries.drop_last(), k);
    }
}

/// The declared path length never exceeds 4095.
pub proof fn lemma_path_len(flags: u16)
    ensures
        0 <= path_len(flags) <= 0x0fff,
{
    assert(flags & 0x0fff <= 0x0fff) by (bit_vector);
}

/// The bytes of a sequence of entries with one more entry after them.
pub proof fn lemma_entries_bytes_push(es: Seq<IndexEntryView>, e: IndexEntryView)
    ensures
        entries_bytes(es.push(e)) == entries_bytes(es) + entry_bytes(e),
    decreases es.len(),
{
    if es.len() == 0 {
        let one = es.push(e);
        assert(one.skip(1) =~= Seq::<IndexEntryView>::empty());
        assert(entries_bytes(one.skip(1)) == Seq::<u8>::empty());
        assert(entries_bytes(one) == entry_bytes(one[0]) + entries_bytes(one.skip(1)));
        assert(entries_bytes(one) =~= entries_bytes(es) + entry_bytes(e));
    } else {
        lemma_entries_bytes_push(es.skip(1), e);
        assert(es.push(e).skip(1) =~= es.skip(1).push(e));
        lemma_append(entry_bytes(es[0]), entries_bytes(es.skip(1)), entry_bytes(e));
    }
}

/// The fixed fields of the entry that is read from `s`, written out, are the
/// first 62 bytes of `s`.
proof fn lemma_fixed_of_parse(s: Seq<u8>)
    requires
        s.len() >= ENTRY_FIXED_LEN,
    ensures
        entry_fixed_bytes(parse_entry(s)) == s.subrange(0, 62),
{
    reveal(entry_fixed_bytes);
    reveal(parse_entry);
    let e = parse_entry(s);
    assert(s.skip(0) =~= s);
    assert(s.skip(8).skip(4) =~= s.skip(12));
    lemma_u32_at(s, 0);
    lemma_u32_at(s, 4);
    lemma_u32_at(s, 8);
    lemma_u32_at(s, 12);
    lemma_u32_at(s, 16);
    lemma_u32_at(s, 20);
    lemma_u32_at(s, 24);
    lemma_u32_at(s, 28);
    lemma_u32_at(s, 32);
    lemma_u32_at(s, 36);
    lemma_u16_at(s, 60);
    let f1 = time_bytes(e.ctime);
    assert(f1 =~= s.subrange(0, 8));
    let f2 = f1 + time_bytes(e.mtime);
    assert(time_bytes(e.mtime) =~= s.subrange(8, 16));
    assert(f2 =~= s.subrange(0, 16));
    let f3 = f2 + u32_be(e.dev);
    assert(f3 =~= s.subrange(0, 20));
    let f4 = f3 + u32_be(e.ino);
    assert(f4 =~= s.subrange(0, 24));
    let f5 = f4 + u32_be(e.mode);
    assert(f5 =~= s.subrange(0, 28));
    let f6 = f5 + u32_be(e.uid);
    assert(f6 =~= s.subrange(0, 32));
    let f7 = f6 + u32_be(e.gid);
    assert(f7 =~= s.subrange(0, 36));
    let f8 = f7 + u32_be(e.size);
    assert(f8 =~= s.subrange(0, 40));
    let f9 = f8 + e.id;
    assert(f9 =~= s.subrange(0, 60));
    let f10 = f9 + u16_be(e.flags);
    assert(f10 =~= s.subrange(0, 62));
}

/// An entry that is read from a stream is well formed.
pub proof fn lemma_parse_entry_wf(s: Seq<u8>)
    requires
        entry_fits(s),
    ensures
        parse_entry(s).wf(),
{
    reveal(parse_entry);
    lemma_path_len(be_u16(s.skip(60)));
}

/// An entry that is read from a stream with zero padding, and written out,
/// gives the bytes that were read.
pub proof fn lemma_bytes_of_parse_entry(s: Seq<u8>)
    requires
        entry_fits(s),
        entry_padding(s) == zeros(entry_padding(s).len() as int),
    ensures
        parse_entry(s).wf(),
        entry_bytes(parse_entry(s)) == s.take(stream_entry_size(s)),
{
    reveal(parse_entry);
    let e = parse_entry(s);
    lemma_path_len(e.flags);
    lemma_fixed_of_parse(s);
    let n = path_len(e.flags);
    let size = stream_entry_size(s);
    assert(e.path.len() == n);
    assert(entry_padding(s).len() == padding_len(n));
    assert(s.subrange(0, 62) + s.subrange(62, 62 + n) + s.subrange(62 + n, size) =~= s.take(size));
}

/// Where twelve pieces of the lengths of an entry's fixed fields are laid end
/// to end before `tail`, each piece starts at its field's offset.
proof fn lemma_offsets(f: Seq<Seq<u8>>, tail: Seq<u8>)
    requires
        f.len() == 12,
        forall|k: int| 0 <= k < 8 ==> (#[trigger] f[k]).len() == 4,
        f[8].len() == 4,
        f[9].len() == 4,
        f[10].len() == 20,
        f[11].len() == 2,
    ensures
        ({
            let s = (f[0] + f[1]) + (f[2] + f[3]) + f[4] + f[5] + f[6] + f[7] + f[8] + f[9]
                + f[10] + f[11] + tail;
            let t11 = f[11] + tail;
            let t10 = f[10] + t11;
            let t9 = f[9] + t10;
            let t8 = f[8] + t9;
            let t7 = f[7] + t8;
            let t6 = f[6] + t7;
            let t5 = f[5] + t6;
            let t4 = f[4] + t5;
            let t3 = f[3] + t4;
            let t2 = f[2] + t3;
            let t1 = f[1] + t2;
            &&& s == f[0] + t1
            &&& s.skip(4) == t1
            &&& s.skip(8) == t2
            &&& s.skip(8).skip(4) == t3
            &&& s.skip(16) == t4
            &&& s.skip(20) == t5
            &&& s.skip(24) == t6
            &&& s.skip(28) == t7
            &&& s.skip(32) == t8
            &&& s.skip(36) == t9
            &&& s.skip(40) == t10
            &&& s.subrange(40, 60) == f[10]
            &&& s.skip(60) == t11
            &&& s.len() == 62 + tail.len()
        }),
{
    let t11 = f[11] + tail;
    let t10 = f[10] + t11;
    let t9 = f[9] + t10;
    let t8 = f[8] + t9;
    let t7 = f[7] + t8;
    let t6 = f[6] + t7;
    let t5 = f[5] + t6;
    let t4 = f[4] + t5;
    let t3 = f[3] + t4;
    let t2 = f[2] + t3;
    let t1 = f[1] + t2;
    assert(f[0].len() == 4 && f[1].len() == 4 && f[2].len() == 4 && f[3].len() == 4);
    assert(f[4].len() == 4 && f[5].len() == 4 && f[6].len() == 4 && f[7].len() == 4);
    let h2 = f[0] + f[1];
    let h4 = h2 + (f[2] + f[3]);
    let h5 = h4 + f[4];
    let h6 = h5 + f[5];
    let h7 = h6 + f[6];
    let h8 = h7 + f[7];
    let h9 = h8 + f[8];
    let h10 = h9 + f[9];
    let h11 = h10 + f[10];
    let s = h11 + f[11] + tail;
    lemma_append(h11, f[11], tail);
    lemma_append(h10, f[10], t11);
    lemma_append(h9, f[9], t10);
    lemma_append(h8, f[8], t9);
    lemma_append(h7, f[7], t8);
    lemma_append(h6, f[6], t7);
    lemma_append(h5, f[5], t6);
    lemma_append(h4, f[4], t5);
    assert(s == h4 + t4);
    lemma_append(h2, f[2] + f[3], t4);
    lemma_append(f[2], f[3], t4);
    assert(s == h2 + t2);
    lemma_append(f[0], f[1], t2);
    assert(s == f[0] + t1);
    lemma_skip_prefix(f[0], t1);
    lemma_skip_prefix(h2, t2);
    lemma_skip_prefix(f[2], t3);
    lemma_skip_prefix(h4, t4);
    lemma_skip_prefix(h5, t5);
    lemma_skip_prefix(h6, t6);
    lemma_skip_prefix(h7, t7);
    lemma_skip_prefix(h8, t8);
    lemma_skip_prefix(h9, t9);
    lemma_skip_prefix(h10, t10);
    lemma_skip_prefix(h11, t11);
    lemma_skip_prefix(f[10], t11);
    assert(s.subrange(40, 60) =~= s.skip(40).take(20));
}

/// The fixed fields of an entry, followed by anything, are read back as they
/// were written.
proof fn lemma_parse_of_fixed(e: IndexEntryView, tail: Seq<u8>)
    requires
        e.id.len() == 20,
    ensures
        ({
            let s = entry_fixed_bytes(e) + tail;
            let p = parse_entry(s);
            &&& entry_fixed_bytes(e).len() == ENTRY_FIXED_LEN
            &&& p.ctime == e.ctime
            &&& p.mtime == e.mtime
            &&& p.dev == e.dev
            &&& p.ino == e.ino
            &&& p.mode == e.mode
            &&& p.uid == e.uid
            &&& p.gid == e.gid
            &&& p.size == e.size
            &&& p.id == e.id
            &&& p.flags == e.flags
            &&& p.flags_extended == 0
            &&& p.path == s.subrange(62, 62 + path_len(e.flags))
        }),
{
    reveal(entry_fixed_bytes);
    reveal(parse_entry);
    let s = entry_fixed_bytes(e) + tail;
    let f = seq![
        u32_be(unsigned(e.ctime.seconds)),
        u32_be(e.ctime.nanoseconds),
        u32_be(unsigned(e.mtime.seconds)),
        u32_be(e.mtime.nanoseconds),
        u32_be(e.dev),
        u32_be(e.ino),
        u32_be(e.mode),
        u32_be(e.uid),
        u32_be(e.gid),
        u32_be(e.size),
        e.id,
        u16_be(e.flags),
    ];
    lemma_be_len(e.flags, unsigned(e.ctime.seconds));
    lemma_be_len(e.flags, e.ctime.nanoseconds);
    lemma_be_len(e.flags, unsigned(e.mtime.seconds));
    lemma_be_len(e.flags, e.mtime.nanoseconds);
    lemma_be_len(e.flags, e.dev);
    lemma_be_len(e.flags, e.ino);
    lemma_be_len(e.flags, e.mode);
    lemma_be_len(e.flags, e.uid);
    lemma_be_len(e.flags, e.gid);
    lemma_be_len(e.flags, e.size);
    lemma_offsets(f, tail);
    lemma_offsets(f, Seq::empty());
    assert(entry_fixed_bytes(e) + Seq::<u8>::empty() =~= entry_fixed_bytes(e));
    let t11 = f[11] + tail;
    let t10 = f[10] + t11;
    let t9 = f[9] + t10;
    let t8 = f[8] + t9;
    let t7 = f[7] + t8;
    let t6 = f[6] + t7;
    let t5 = f[5] + t6;
    let t4 = f[4] + t5;
    let t3 = f[3] + t4;
    let t2 = f[2] + t3;
    let t1 = f[1] + t2;
    lemma_be_prefix(0, 0, e.ctime.seconds, t1);
    lemma_be_prefix(0, e.ctime.nanoseconds, 0, t2);
    lemma_be_prefix(0, 0, e.mtime.seconds, t3);
    lemma_be_prefix(0, e.mtime.nanoseconds, 0, t4);
    lemma_be_prefix(0, e.dev, 0, t5);
    lemma_be_prefix(0, e.ino, 0, t6);
    lemma_be_prefix(0, e.mode, 0, t7);
    lemma_be_prefix(0, e.uid, 0, t8);
    lemma_be_prefix(0, e.gid, 0, t9);
    lemma_be_prefix(0, e.size, 0, t10);
    lemma_be_prefix(e.flags, 0, 0, tail);
}

/// A well-formed entry that is written out, with anything after it, is read
/// back as it was, and the read stops where the entry ends.
pub proof fn lemma_parse_entry_of_bytes(e: IndexEntryView, rest: Seq<u8>)
    requires
        e.wf(),
    ensures
        ({
            let s = entry_bytes(e) + rest;
            &&& entry_fits(s)
            &&& parse_entry(s) == e
            &&& stream_entry_size(s) == entry_bytes(e).len()
            &&& s.skip(stream_entry_size(s)) == rest
            &&& entry_padding(s) == zeros(entry_padding(s).len() as int)
        }),
{
    reveal(parse_entry);
    let s = entry_bytes(e) + rest;
    let pad = zeros(padding_len(e.path.len() as int));
    let fixed = entry_fixed_bytes(e);
    lemma_path_len(e.flags);
    lemma_append(fixed + e.path, pad, rest);
    lemma_append(fixed, e.path, pad + rest);
    lemma_parse_of_fixed(e, e.path + (pad + rest));
    let p = parse_entry(s);
    assert(s.subrange(62, 62 + e.path.len() as int) =~= e.path);
    assert(p.path == e.path);
    assert(p =~= e);
    lemma_skip_prefix(entry_bytes(e), rest);
    assert(entry_padding(s) =~= pad);
}

/// Reading `count` entries gives `count` entries, and does not read past the
/// end of the input.
pub proof fn lemma_parse_entries_len(s: Seq<u8>, count: nat)
    requires
        parse_entries(s, count) is Ok,
    ensures
        parse_entries(s, count)->Ok_0.len() == count,
        0 <= entries_size(s, count) <= s.len(),
        forall|i: int| 0 <= i < count ==> (#[trigger] parse_entries(s, count)->Ok_0[i]).wf(),
    decreases count,
{
    if count > 0 {
        let size = stream_entry_size(s);
        lemma_path_len(be_u16(s.skip(60)));
        lemma_parse_entry_wf(s);
        lemma_parse_entries_len(s.skip(size), (count - 1) as nat);
    }
}

/// Well-formed entries that are written out, with anything after them, are
/// read back as they were, and the read stops where the entries end.
pub proof fn lemma_parse_entries_of_bytes(es: Seq<IndexEntryView>, rest: Seq<u8>)
    requires
        forall|i: int| 0 <= i < es.len() ==> (#[trigger] es[i]).wf(),
    ensures
        parse_entries(entries_bytes(es) + rest, es.len()) == Ok::<_, Error>(es),
        entries_size(entries_bytes(es) + rest, es.len()) == entries_bytes(es).len(),
        zero_padded(entries_bytes(es) + rest, es.len()),
    decreases es.len(),
{
    let s = entries_bytes(es) + rest;
    if es.len() == 0 {
        assert(parse_entries(s, 0)->Ok_0 =~= es);
    } else {
        let tail = entries_bytes(es.skip(1)) + rest;
        lemma_append(entry_bytes(es[0]), entries_bytes(es.skip(1)), rest);
        lemma_parse_entry_of_bytes(es[0], tail);
        assert forall|i: int| 0 <= i < es.skip(1).len() implies (#[trigger] es.skip(1)[i]).wf() by {
            assert(es.skip(1)[i] == es[i + 1]);
        }
        lemma_parse_entries_of_bytes(es.skip(1), rest);
        assert(seq![es[0]] + es.skip(1) =~= es);
    }
}

/// Entries that are read from a stream with zero padding, and written out,
/// give the bytes that were read.
pub proof fn lemma_bytes_of_parse_entries(s: Seq<u8>, count: nat)
    requires
        parse_entries(s, count) is Ok,
        zero_padded(s, count),
    ensures
        entries_bytes(parse_entries(s, count)->Ok_0) == s.take(entries_size(s, count)),
    decreases count,
{
    let es = parse_entries(s, count)->Ok_0;
    lemma_parse_entries_len(s, count);
    if count == 0 {
        assert(s.take(0) =~= Seq::<u8>::empty());
    } else {
        let size = stream_entry_size(s);
        let after = s.skip(size);
        lemma_path_len(be_u16(s.skip(60)));
        lemma_bytes_of_parse_entry(s);
        lemma_bytes_of_parse_entries(after, (count - 1) as nat);
        lemma_parse_entries_len(after, (count - 1) as nat);
        let rest = parse_entries(after, (count - 1) as nat)->Ok_0;
        assert(es.skip(1) =~= rest);
        assert(es[0] == parse_entry(s));
        assert(s.take(size) + after.take(entries_size(after, (count - 1) as nat)) =~= s.take(
            entries_size(s, count),
        ));
    }
}

/// Where three pieces of four bytes lie before `tail`, the second starts at
/// offset 4, the third at offset 8, and `tail` at offset 12.
proof fn lemma_header_offsets(a: Seq<u8>, b: Seq<u8>, c: Seq<u8>, tail: Seq<u8>)
    requires
        a.len() == 4,
        b.len() == 4,
        c.len() == 4,
    ensures
        (a + b + c + tail).take(4) == a,
        (a + b + c + tail).skip(4) == b + (c + tail),
        (a + b + c + tail).skip(8) == c + tail,
        (a + b + c + tail).skip(12) == tail,
{
    let s = a + b + c + tail;
    assert(s.take(4) =~= a);
    assert(s.skip(4) =~= b + (c + tail));
    assert(s.skip(8) =~= c + tail);
    assert(s.skip(12) =~= tail);
}

/// A header that is written out, with anything after it, is read back as it
/// was.
proof fn lemma_parse_header_of_bytes(version: u32, count: u32, tail: Seq<u8>)
    ensures
        parse_header(header_bytes(index_magic(), version, count) + tail) == Ok::<_, Error>(
            (version, count),
        ),
        (header_bytes(index_magic(), version, count) + tail).skip(12) == tail,
{
    lemma_be_len(0, version);
    lemma_be_len(0, count);
    lemma_header_offsets(index_magic(), u32_be(version), u32_be(count), tail);
    lemma_be_prefix(0, version, 0, u32_be(count) + tail);
    lemma_be_prefix(0, count, 0, tail);
}

/// A well-formed index that is stored and loaded is the index that it was,
/// and the load reads all that was stored.
pub proof fn lemma_load_of_store(v: IndexView)
    requires
        v.wf(),
    ensures
        parse_index(index_bytes(v)) == Ok::<_, Error>(v),
        index_size(index_bytes(v)) == index_bytes(v).len(),
{
    let count = v.entries.len() as u32;
    let body = entries_bytes(v.entries);
    let s = index_bytes(v);
    lemma_parse_header_of_bytes(v.version, count, body);
    lemma_be_len(0, v.version);
    lemma_be_len(0, count);
    lemma_header_offsets(index_magic(), u32_be(v.version), u32_be(count), body);
    lemma_be_prefix(0, count, 0, body);
    lemma_parse_entries_of_bytes(v.entries, Seq::empty());
    assert(body + Seq::<u8>::empty() =~= body);
    assert(parse_index(s)->Ok_0 =~= v);
}

/// An index file whose padding is all zero and that ends where its last
/// entry ends is stored as it was loaded: loading it and storing the result
/// gives the same bytes.
pub proof fn lemma_store_of_load(bytes: Seq<u8>)
    requires
        parse_index(bytes) is Ok,
        index_size(bytes) == bytes.len(),
        zero_padded(bytes.skip(12), be_u32(bytes.skip(8)) as nat),
    ensures
        index_bytes(parse_index(bytes)->Ok_0) == bytes,
{
    let v = parse_index(bytes)->Ok_0;
    let count = be_u32(bytes.skip(8));
    let body = bytes.skip(12);
    lemma_parse_entries_len(body, count as nat);
    lemma_bytes_of_parse_entries(body, count as nat);
    lemma_u32_at(bytes, 4);
    lemma_u32_at(bytes, 8);
    assert(body.take(body.len() as int) =~= body);
    assert(bytes.take(4) + bytes.subrange(4, 8) + bytes.subrange(8, 12) + body =~= bytes);
}

} // verus!
