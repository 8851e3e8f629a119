use flate2::bufread::{ZlibDecoder, ZlibEncoder};
use flate2::Compression;
use std::io::Read;
use vstd::prelude::*;
use vstd::string::*;
use crate::blob::Blob;
use crate::commit::{parse_commit, parse_identity, identity_len, Commit, Identity};
use crate::cursor::Cursor;
use crate::error::Error;
use crate::object::{lemma_object_round_trip, parse_object, Object, ObjectView};
use crate::oid::{hex_chars, lemma_hex_ascii, sha1_digest, Oid};
use crate::tree::{tree_decoding, Tree, TreeEntryView};

verus! {

/// A store of objects under their identifiers.
pub trait Odb {
    /// The object that is stored under `oid`.
    fn get(&self, oid: &Oid) -> Result<Object, Error>;

    /// Stores `object` and gives the identifier under which it is stored.
    fn put(&mut self, object: &Object) -> Result<Oid, Error>;
}

/// What a zlib stream inflates to, as the `flate2` crate inflates it; none
/// where the bytes are no such stream.
pub uninterp spec fn zlib_inflated(data: Seq<u8>) -> Option<Seq<u8>>;

/// `flate2::bufread::ZlibDecoder`, read to its end: the bytes that the zlib
/// stream at the start of `data` inflates to, which depend on `data` alone,
/// or none where the decoder reports an error.
#[verifier::external_body]
fn inflate(data: &[u8]) -> (r: Option<Vec<u8>>)
    ensures
        r is Some <==> zlib_inflated(data@) is Some,
        r matches Some(out) ==> zlib_inflated(data@) == Some(out@),
{
    let mut out = Vec::new();
    match ZlibDecoder::new(data).read_to_end(&mut out) {
        Ok(_) => Some(out),
        Err(_) => None,
    }
}

/// The zlib stream that the `flate2` crate deflates `data` to at its default
/// level; none where its encoder reports an error.
pub uninterp spec fn zlib_deflated(data: Seq<u8>) -> Option<Seq<u8>>;

/// `flate2::bufread::ZlibEncoder` at the default level, read to its end: the
/// zlib stream that it makes of `data`, which depends on `data` alone, or
/// none where the encoder reports an error. The stream inflates to `data`.
#[verifier::external_body]
fn deflate(data: &[u8]) -> (r: Option<Vec<u8>>)
    ensures
        r is Some <==> zlib_deflated(data@) is Some,
        r matches Some(out) ==> zlib_deflated(data@) == Some(out@),
        r matches Some(out) ==> zlib_inflated(out@) == Some(data@),
{
    let mut out = Vec::new();
    match ZlibEncoder::new(data, Compression::default()).read_to_end(&mut out) {
        Ok(_) => Some(out),
        Err(_) => None,
    }
}

/// The object that the compressed record `data` holds: what it inflates to,
/// decoded. Bytes that do not inflate are a `FormatError`.
pub open spec fn stored_object(data: Seq<u8>) -> Result<ObjectView, Error> {
    match zlib_inflated(data) {
        Some(raw) => parse_object(raw),
        None => Err(Error::FormatError),
    }
}

/// The bytes of a file that was found, if one was.
pub open spec fn view_of(file: Option<&[u8]>) -> Option<Seq<u8>> {
    match file {
        Some(data) => Some(data@),
        None => None,
    }
}

/// What a lookup gives for what was found under an identifier: `NotFound`
/// where nothing was found, and otherwise the object that the record holds.
pub open spec fn found_object(file: Option<Seq<u8>>) -> Result<ObjectView, Error> {
    match file {
        Some(data) => stored_object(data),
        None => Err(Error::NotFound),
    }
}

/// The name of the directory that holds the record of `oid`: the first two
/// hexadecimal digits of the identifier.
pub open spec fn object_directory_chars(oid: Seq<u8>) -> Seq<char> {
    hex_chars(oid).subrange(0, 2)
}

/// The name of the file that holds the record of `oid`: the other 38
/// hexadecimal digits of the identifier.
pub open spec fn object_file_chars(oid: Seq<u8>) -> Seq<char> {
    hex_chars(oid).subrange(2, 40)
}

/// The path of the record of `oid` below the directory `root`: the directory
/// of the record, and the file in it.
pub open spec fn object_path_chars(root: Seq<char>, oid: Seq<u8>) -> Seq<char> {
    root + seq!['/'] + object_directory_chars(oid) + seq!['/'] + object_file_chars(oid)
}

/// The store of loose objects below a directory: one compressed record for
/// each object. This type computes where a record lies and what it holds;
/// reading and writing the files is left to the caller. The view is the path
/// of the directory.
#[derive(Debug, Clone)]
pub struct StandardOdb {
    objects: String,
}

impl View for StandardOdb {
    type V = Seq<char>;

    closed spec fn view(&self) -> Seq<char> {
        self.objects@
    }
}

impl StandardOdb {
    /// The store below the directory `path`.
    pub fn from_path(path: &str) -> (odb: StandardOdb)
        ensures
            odb@ == path@,
    {
        Self { objects: String::from_str(path) }
    }

    /// The names of the directory and of the file that hold the record of
    /// `oid`, for a caller that keeps the store's directory as a path of its
    /// own.
    pub fn object_segments(oid: &Oid) -> (segments: (String, String))
        ensures
            segments.0@ == object_directory_chars(oid@),
            segments.1@ == object_file_chars(oid@),
    {
        let hex = oid.hex();
        proof {
            lemma_hex_ascii(oid@);
            oid.lemma_len();
        }
        let text = hex.as_str();
        let pre = text.substring_ascii(0, 2);
        let last = text.substring_ascii(2, 40);
        (String::from_str(pre), String::from_str(last))
    }

    /// The path of the record of `oid`.
    pub fn object_path(&self, oid: &Oid) -> (path: String)
        ensures
            path@ == object_path_chars(self@, oid@),
    {
        let (pre, last) = StandardOdb::object_segments(oid);
        proof {
            reveal_strlit("/");
        }
        let mut object_path = self.objects.clone();
        object_path.append("/");
        object_path.append(pre.as_str());
        object_path.append("/");
        object_path.append(last.as_str());
        assert("/"@ =~= seq!['/']);
        object_path
    }

    /// Inflates a compressed record. Bytes that do not inflate are a
    /// `FormatError`.
    pub fn decompress(data: &[u8]) -> (r: Result<Vec<u8>, Error>)
        ensures
            match r {
                Ok(raw) => zlib_inflated(data@) == Some(raw@),
                Err(e) => e == Error::FormatError && zlib_inflated(data@) is None,
            },
    {
        match inflate(data) {
            Some(raw) => Ok(raw),
            None => Err(Error::FormatError),
        }
    }

    /// Compresses the stored bytes of an object into a record: the zlib
    /// stream of `raw`, which inflates to `raw`. Where the compressor has no
    /// stream for `raw`, that is an `IOError`.
    pub fn compress(raw: &[u8]) -> (r: Result<Vec<u8>, Error>)
        ensures
            r is Ok <==> zlib_deflated(raw@) is Some,
            match r {
                Ok(data) => {
                    &&& zlib_deflated(raw@) == Some(data@)
                    &&& zlib_inflated(data@) == Some(raw@)
                },
                Err(e) => e == Error::IOError,
            },
    {
        match deflate(raw) {
            Some(data) => Ok(data),
            None => Err(Error::IOError),
        }
    }

    /// Reads a stored record: the header and the payload after it, to the
    /// end of the input.
    pub fn read_object(reader: &mut Cursor) -> (r: Result<Object, Error>)
        ensures
            match r {
                Ok(object) => {
                    &&& parse_object(old(reader)@) == Ok::<_, Error>(object@)
                    &&& final(reader)@ == Seq::<u8>::empty()
                },
                Err(e) => parse_object(old(reader)@) == Err::<ObjectView, _>(e),
            },
    {
        Object::from_reader(reader)
    }

    /// Reads the payload of a blob: all that is left. The size that the
    /// header declared is not held against it.
    pub fn read_blob(reader: &mut Cursor, object_size: usize) -> (blob: Blob)
        ensures
            blob@ == old(reader)@,
            final(reader)@ == Seq::<u8>::empty(),
    {
        let buf = reader.read_to_end();
        Blob::new(buf.as_slice())
    }

    /// Reads the payload of a tree, to the end of the input.
    pub fn read_tree(reader: &mut Cursor) -> (r: Result<Tree, Error>)
        ensures
            match r {
                Ok(tree) => {
                    &&& tree_decoding(old(reader)@) == Ok::<_, Error>(tree@)
                    &&& final(reader)@ == Seq::<u8>::empty()
                },
                Err(e) => e == Error::FormatError && tree_decoding(old(reader)@) == Err::<
                    Map<Seq<u8>, TreeEntryView>,
                    _,
                >(e),
            },
    {
        Tree::from_reader(reader)
    }

    /// Reads the payload of a commit, to the end of the input.
    pub fn read_commit(reader: &mut Cursor) -> (r: Result<Commit, Error>)
        ensures
            match r {
                Ok(commit) => {
                    &&& parse_commit(old(reader)@) == Some(commit@)
                    &&& final(reader)@ == Seq::<u8>::empty()
                },
                Err(e) => e == Error::FormatError && parse_commit(old(reader)@) is None,
            },
    {
        Commit::from_reader(reader)
    }

    /// Reads one identity line of a commit.
    pub fn read_identity(reader: &mut Cursor) -> (r: Result<Identity, Error>)
        ensures
            match r {
                Ok(identity) => {
                    &&& parse_identity(old(reader)@) == Some(identity@)
                    &&& final(reader)@ == old(reader)@.skip(identity_len(old(reader)@))
                },
                Err(e) => e == Error::FormatError && parse_identity(old(reader)@) is None,
            },
    {
        Identity::from_reader(reader)
    }

    /// What a lookup gives for what the caller found at the path of an
    /// identifier: `NotFound` for no file, and otherwise the object that the
    /// file's bytes hold, or the error that decoding them gives.
    pub fn read(file: Option<&[u8]>) -> (r: Result<Object, Error>)
        ensures
            match r {
                Ok(object) => found_object(view_of(file)) == Ok::<_, Error>(object@),
                Err(e) => found_object(view_of(file)) == Err::<ObjectView, _>(e),
            },
    {
        match file {
            None => Err(Error::NotFound),
            Some(data) => {
                let raw = match StandardOdb::decompress(data) {
                    Ok(raw) => raw,
                    Err(e) => return Err(e),
                };
                let mut reader = Cursor::new(raw);
                StandardOdb::read_object(&mut reader)
            },
        }
    }

    /// The identifier of `object` and the record to store under it: the
    /// digest of the stored bytes of the object, and the zlib stream of those
    /// bytes, which inflates to them. Where the compressor has no stream for
    /// them, that is an `IOError`.
    pub fn pack(object: &Object) -> (r: Result<(Oid, Vec<u8>), Error>)
        ensures
            r is Ok <==> zlib_deflated(object@.encoding()) is Some,
            match r {
                Ok((oid, data)) => {
                    &&& oid@ == sha1_digest(object@.encoding())
                    &&& zlib_deflated(object@.encoding()) == Some(data@)
                    &&& zlib_inflated(data@) == Some(object@.encoding())
                },
                Err(e) => e == Error::IOError,
            },
    {
        let raw = object.encode();
        let oid = Oid::hash(raw.as_slice());
        match StandardOdb::compress(raw.as_slice()) {
            Ok(data) => Ok((oid, data)),
            Err(e) => Err(e),
        }
    }
}

/// A record with the identifier under which it is stored, as plain values.
pub ghost struct RecordView {
    pub oid: Seq<u8>,
    pub data: Seq<u8>,
}

/// The position of the first of `records` that is stored under `oid`, or
/// `records.len()` where there is none.
pub open spec fn record_index(records: Seq<RecordView>, oid: Seq<u8>) -> int
    decreases records.len(),
{
    if records.len() == 0 {
        0
    } else if records[0].oid == oid {
        0
    } else {
        1 + record_index(records.skip(1), oid)
    }
}

/// The mapping from each identifier under which one of `records` is stored
/// to the first such record.
pub open spec fn record_map(records: Seq<RecordView>) -> Map<Seq<u8>, Seq<u8>> {
    Map::new(
        |oid: Seq<u8>| record_index(records, oid) < records.len(),
        |oid: Seq<u8>| records[record_index(records, oid)].data,
    )
}

/// A store of objects in memory: compressed records under their
/// identifiers, as the store below a directory holds them in files. The view
/// is the mapping from each identifier to its record.
#[derive(Debug)]
pub struct MemoryOdb {
    records: Vec<(Oid, Vec<u8>)>,
}

/// The record that a stored pair stands for.
pub closed spec fn record_of(pair: (Oid, Vec<u8>)) -> RecordView {
    RecordView { oid: pair.0@, data: pair.1@ }
}

impl View for MemoryOdb {
    type V = Map<Seq<u8>, Seq<u8>>;

    closed spec fn view(&self) -> Map<Seq<u8>, Seq<u8>> {
        record_map(self.records@.map_values(|pair: (Oid, Vec<u8>)| record_of(pair)))
    }
}

impl MemoryOdb {
    /// An empty store.
    pub fn new() -> (odb: MemoryOdb)
        ensures
            odb@ == Map::<Seq<u8>, Seq<u8>>::empty(),
    {
        let odb = Self { records: Vec::new() };
        assert(odb@ =~= Map::<Seq<u8>, Seq<u8>>::empty());
        odb
    }

    /// The position of the record of `oid`, or the number of records where
    /// it has none.
    fn find(&self, oid: &Oid) -> (i: usize)
        ensures
            i == record_index(
                self.records@.map_values(|pair: (Oid, Vec<u8>)| record_of(pair)),
                oid@,
            ),
            i <= self.records@.len(),
    {
        let ghost records = self.records@.map_values(|pair: (Oid, Vec<u8>)| record_of(pair));
        let mut i: usize = 0;
        while i < self.records.len()
            invariant
                i <= self.records@.len(),
                records == self.records@.map_values(|pair: (Oid, Vec<u8>)| record_of(pair)),
                forall|k: int| 0 <= k < i ==> (#[trigger] records[k]).oid != oid@,
            decreases self.records@.len() - i,
        {
            if self.records[i].0.same(oid) {
                proof {
                    lemma_record_index_is(records, oid@, i as int);
                }
                return i;
            }
            i = i + 1;
        }
        proof {
            lemma_record_index_is(records, oid@, i as int);
        }
        i
    }

    /// Whether a record is stored under `oid`.
    pub fn contains(&self, oid: &Oid) -> (r: bool)
        ensures
            r == self@.dom().contains(oid@),
    {
        self.find(oid) < self.records.len()
    }

    /// Stores the record `data` under `oid`, in the place of the record that
    /// was there, if any. Nothing is asked of `data`: this is what writing a
    /// file into the store's directory would be.
    pub fn write(&mut self, oid: Oid, data: Vec<u8>)
        ensures
            final(self)@ == old(self)@.insert(oid@, data@),
    {
        let ghost before = self.records@.map_values(|pair: (Oid, Vec<u8>)| record_of(pair));
        let ghost record = RecordView { oid: oid@, data: data@ };
        let i = self.find(&oid);
        proof {
            lemma_record_index(before, oid@);
        }
        if i < self.records.len() {
            self.records[i] = (oid, data);
        } else {
            self.records.push((oid, data));
        }
        proof {
            let after = self.records@.map_values(|pair: (Oid, Vec<u8>)| record_of(pair));
            assert(after.len() > i && after[i as int] == record);
            assert(forall|k: int| 0 <= k < after.len() && k != i ==> after[k] == before[k]);
            assert forall|other: Seq<u8>|
                record_index(after, other) == (if other == oid@ {
                    i as int
                } else if record_index(before, other) < before.len() {
                    record_index(before, other)
                } else {
                    after.len() as int
                }) by {
                lemma_record_index(before, other);
                if other == oid@ {
                    lemma_record_index_is(after, other, i as int);
                } else if record_index(before, other) < before.len() {
                    lemma_record_index_is(after, other, record_index(before, other));
                } else {
                    lemma_record_index_is(after, other, after.len() as int);
                }
            }
            let target = record_map(before).insert(oid@, data@);
            assert forall|other: Seq<u8>| record_map(after).dom().contains(other) <==> target.dom().contains(
                other,
            ) by {
                lemma_record_index(before, other);
                lemma_record_index(after, other);
            }
            assert forall|other: Seq<u8>| record_map(after).dom().contains(other) implies record_map(
                after,
            )[other] == target[other] by {
                lemma_record_index(before, other);
                lemma_record_index(after, other);
            }
            assert(record_map(after) =~= target);
        }
    }
}

impl Odb for MemoryOdb {
    /// The object that is stored under `oid`: `NotFound` where no record is,
    /// and otherwise the object that the record holds, or the error that
    /// decoding the record gives.
    fn get(&self, oid: &Oid) -> (r: Result<Object, Error>)
        ensures
            !self@.dom().contains(oid@) ==> r == Err::<Object, _>(Error::NotFound),
            self@.dom().contains(oid@) ==> match r {
                Ok(object) => stored_object(self@[oid@]) == Ok::<_, Error>(object@),
                Err(e) => stored_object(self@[oid@]) == Err::<ObjectView, _>(e),
            },
    {
        let i = self.find(oid);
        if i < self.records.len() {
            StandardOdb::read(Some(self.records[i].1.as_slice()))
        } else {
            StandardOdb::read(None)
        }
    }

    /// Stores `object` under its identifier and gives the identifier. The
    /// record that is stored is the zlib stream of the stored bytes of the
    /// object, which inflates to them; no other record changes. Where the
    /// compressor has no stream for them, that is an `IOError` and the store
    /// stays as it was.
    fn put(&mut self, object: &Object) -> (r: Result<Oid, Error>)
        ensures
            r is Ok <==> zlib_deflated(object@.encoding()) is Some,
            match r {
                Ok(oid) => {
                    &&& oid@ == sha1_digest(object@.encoding())
                    &&& final(self)@ == old(self)@.insert(
                        oid@,
                        zlib_deflated(object@.encoding())->Some_0,
                    )
                    &&& zlib_inflated(final(self)@[oid@]) == Some(object@.encoding())
                },
                Err(e) => e == Error::IOError && final(self)@ == old(self)@,
            },
    {
        match StandardOdb::pack(object) {
            Ok((oid, data)) => {
                self.write(oid, data);
                Ok(oid)
            },
            Err(e) => Err(e),
        }
    }
}

/// `record_index` is the least position of a record under `oid`, and the
/// length where there is none.
pub proof fn lemma_record_index(records: Seq<RecordView>, oid: Seq<u8>)
    ensures
        0 <= record_index(records, oid) <= records.len(),
        forall|i: int| 0 <= i < record_index(records, oid) ==> (#[trigger] records[i]).oid != oid,
        record_index(records, oid) < records.len() ==> records[record_index(records, oid)].oid
            == oid,
    decreases records.len(),
{
    if records.len() > 0 && records[0].oid != oid {
        let tail = records.skip(1);
        lemma_record_index(tail, oid);
        assert forall|i: int| 0 <= i < record_index(records, oid) implies (#[trigger] records[i]).oid
            != oid by {
            if i > 0 {
                assert(records[i] == tail[i - 1]);
            }
        }
    }
}

/// A position of a record under `oid` with no such record before it is
/// `record_index`; and so is the length, where there is no such record.
pub proof fn lemma_record_index_is(records: Seq<RecordView>, oid: Seq<u8>, k: int)
    requires
        0 <= k <= records.len(),
        forall|i: int| 0 <= i < k ==> (#[trigger] records[i]).oid != oid,
        k < records.len() ==> records[k].oid == oid,
    ensures
        record_index(records, oid) == k,
{
    lemma_record_index(records, oid);
    let f = record_index(records, oid);
    if f < k {
        assert(records[f].oid != oid);
    } else if k < f {
        assert(records[k].oid == oid);
    }
}

/// A record that inflates to the stored bytes of an encodable object holds
/// that object.
pub proof fn lemma_stored_object(data: Seq<u8>, v: ObjectView)
    requires
        zlib_inflated(data) == Some(v.encoding()),
        v.encodable(),
    ensures
        stored_object(data) == Ok::<_, Error>(v),
{
    lemma_object_round_trip(v);
}

} // verus!
