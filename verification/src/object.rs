use vstd::prelude::*;
use crate::blob::Blob;
use crate::bytes::{
    bytes_eq, first_index, lemma_first_index, lemma_first_index_is, lemma_skip_prefix, through,
};
use crate::commit::{
    commit_encodable, commit_encoding, lemma_commit_round_trip, parse_commit, Commit, CommitView,
};
use crate::cursor::Cursor;
use crate::decimal::{
    decimal, decimal_value, is_decimal, lemma_decimal, parse_decimal, write_decimal,
};
use crate::error::Error;
use crate::oid::{sha1_digest, Oid};
use crate::tree::{
    lemma_tree_round_trip, tree_decoding, tree_encodable, tree_encoding, Tree, TreeEntryView,
};

verus! {

/// The three kinds of object that the store holds.
#[derive(Debug, Clone, Copy, PartialEq, Eq, Structural)]
pub enum ObjectType {
    Blob,
    Commit,
    Tree,
}

/// The type and the declared payload size of a stored record.
#[derive(Debug, Clone, Copy)]
pub struct ObjectHeader {
    pub object_type: ObjectType,
    pub object_size: usize,
}

/// An object of one of the three kinds.
#[derive(Debug)]
pub enum Object {
    Commit(Commit),
    Tree(Tree),
    Blob(Blob),
}

/// What an [`Object`] holds, as plain values.
pub ghost enum ObjectView {
    Commit(CommitView),
    Tree(Map<Seq<u8>, TreeEntryView>),
    Blob(Seq<u8>),
}

impl View for Object {
    type V = ObjectView;

    open spec fn view(&self) -> ObjectView {
        match self {
            Object::Commit(commit) => ObjectView::Commit(commit@),
            Object::Tree(tree) => ObjectView::Tree(tree@),
            Object::Blob(blob) => ObjectView::Blob(blob@),
        }
    }
}

/// The ASCII word `blob`.
pub open spec fn blob_token() -> Seq<u8> {
    seq![98u8, 108u8, 111u8, 98u8]
}

/// The ASCII word `commit`.
pub open spec fn commit_token() -> Seq<u8> {
    seq![99u8, 111u8, 109u8, 109u8, 105u8, 116u8]
}

/// The ASCII word `tree`.
pub open spec fn tree_token() -> Seq<u8> {
    seq![116u8, 114u8, 101u8, 101u8]
}

/// The word that names an object type in a stored record.
pub open spec fn type_token(t: ObjectType) -> Seq<u8> {
    match t {
        ObjectType::Blob => blob_token(),
        ObjectType::Commit => commit_token(),
        ObjectType::Tree => tree_token(),
    }
}

/// The object type that a word names, if it names one.
pub open spec fn token_type(token: Seq<u8>) -> Option<ObjectType> {
    if token == blob_token() {
        Some(ObjectType::Blob)
    } else if token == commit_token() {
        Some(ObjectType::Commit)
    } else if token == tree_token() {
        Some(ObjectType::Tree)
    } else {
        None
    }
}

/// The header of a stored record: the type's word, a space, the payload's
/// length in decimal, and a zero byte.
pub open spec fn object_header(t: ObjectType, size: nat) -> Seq<u8> {
    type_token(t) + seq![32u8] + decimal(size) + seq![0u8]
}

/// The bytes under which an object is stored and from which its identifier
/// is computed: the header for its type and the length of its payload, and
/// the payload.
pub open spec fn stored_encoding(t: ObjectType, payload: Seq<u8>) -> Seq<u8> {
    object_header(t, payload.len()) + payload
}

/// The number of bytes of the header at the start of `s`: through the first
/// zero byte after the first space.
pub open spec fn header_len(s: Seq<u8>) -> int {
    through(s, 32) + through(s.skip(through(s, 32)), 0)
}

/// The header at the start of `s`: the word before the first space names the
/// type, and the decimal numeral between that space and the next zero byte
/// is the size. A missing space or zero byte and a size that is no numeral
/// or too large are `FormatError`; a word that names no type is
/// `UnsupportedType`, and is looked at before the size.
pub open spec fn parse_object_header(s: Seq<u8>) -> Result<(ObjectType, nat), Error> {
    let space = first_index(s, 32);
    let rest = s.skip(space + 1);
    let zero = first_index(rest, 0);
    if space >= s.len() {
        Err(Error::FormatError)
    } else if token_type(s.take(space)) is None {
        Err(Error::UnsupportedType)
    } else if zero >= rest.len() {
        Err(Error::FormatError)
    } else if !is_decimal(rest.take(zero)) || decimal_value(rest.take(zero)) > usize::MAX {
        Err(Error::FormatError)
    } else {
        Ok((token_type(s.take(space))->Some_0, decimal_value(rest.take(zero))))
    }
}

impl ObjectView {
    /// The type of the object.
    pub open spec fn object_type(self) -> ObjectType {
        match self {
            ObjectView::Commit(_) => ObjectType::Commit,
            ObjectView::Tree(_) => ObjectType::Tree,
            ObjectView::Blob(_) => ObjectType::Blob,
        }
    }

    /// The payload of the stored record: the content of a blob, and the
    /// canonical encoding of a tree or of a commit.
    pub open spec fn payload(self) -> Seq<u8> {
        match self {
            ObjectView::Commit(commit) => commit_encoding(commit),
            ObjectView::Tree(tree) => tree_encoding(tree),
            ObjectView::Blob(content) => content,
        }
    }

    /// The bytes under which the object is stored.
    pub open spec fn encoding(self) -> Seq<u8> {
        stored_encoding(self.object_type(), self.payload())
    }

    /// Whether the object is read back from its stored bytes as it was.
    pub open spec fn encodable(self) -> bool {
        &&& self.payload().len() <= usize::MAX
        &&& match self {
            ObjectView::Commit(commit) => commit_encodable(commit),
            ObjectView::Tree(tree) => tree_encodable(tree),
            ObjectView::Blob(_) => true,
        }
    }
}

/// The object that the stored record `s` holds: the header says which codec
/// decodes the bytes after it. The size that the header declares is not held
/// against those bytes.
pub open spec fn parse_object(s: Seq<u8>) -> Result<ObjectView, Error> {
    let payload = s.skip(header_len(s));
    match parse_object_header(s) {
        Err(e) => Err(e),
        Ok((ObjectType::Blob, _)) => Ok(ObjectView::Blob(payload)),
        Ok((ObjectType::Tree, _)) => match tree_decoding(payload) {
            Ok(tree) => Ok(ObjectView::Tree(tree)),
            Err(e) => Err(e),
        },
        Ok((ObjectType::Commit, _)) => match parse_commit(payload) {
            Some(commit) => Ok(ObjectView::Commit(commit)),
            None => Err(Error::FormatError),
        },
    }
}

impl ObjectType {
    /// The type that `object_type` names: `blob`, `commit` or `tree`.
    pub fn new(object_type: &[u8]) -> (r: Result<ObjectType, Error>)
        ensures
            match r {
                Ok(t) => token_type(object_type@) == Some(t),
                Err(e) => e == Error::UnsupportedType && token_type(object_type@) is None,
            },
    {
        let blob = [98u8, 108u8, 111u8, 98u8];
        let commit = [99u8, 111u8, 109u8, 109u8, 105u8, 116u8];
        let tree = [116u8, 114u8, 101u8, 101u8];
        assert(blob@ =~= blob_token());
        assert(commit@ =~= commit_token());
        assert(tree@ =~= tree_token());
        if bytes_eq(object_type, blob.as_slice()) {
            Ok(ObjectType::Blob)
        } else if bytes_eq(object_type, commit.as_slice()) {
            Ok(ObjectType::Commit)
        } else if bytes_eq(object_type, tree.as_slice()) {
            Ok(ObjectType::Tree)
        } else {
            Err(Error::UnsupportedType)
        }
    }

    /// Appends the word that names the type.
    pub fn write(&self, writer: &mut Vec<u8>)
        ensures
            final(writer)@ == old(writer)@ + type_token(*self),
    {
        match self {
            ObjectType::Blob => {
                let token = [98u8, 108u8, 111u8, 98u8];
                assert(token@ =~= blob_token());
                writer.extend_from_slice(token.as_slice());
            },
            ObjectType::Commit => {
                let token = [99u8, 111u8, 109u8, 109u8, 105u8, 116u8];
                assert(token@ =~= commit_token());
                writer.extend_from_slice(token.as_slice());
            },
            ObjectType::Tree => {
                let token = [116u8, 114u8, 101u8, 101u8];
                assert(token@ =~= tree_token());
                writer.extend_from_slice(token.as_slice());
            },
        }
    }
}

impl ObjectHeader {
    /// Reads the header of a stored record and leaves the cursor at the
    /// payload.
    pub fn read(reader: &mut Cursor) -> (r: Result<ObjectHeader, Error>)
        ensures
            match r {
                Ok(h) => {
                    &&& parse_object_header(old(reader)@) == Ok::<_, Error>(
                        (h.object_type, h.object_size as nat),
                    )
                    &&& final(reader)@ == old(reader)@.skip(header_len(old(reader)@))
                },
                Err(e) => parse_object_header(old(reader)@) == Err::<(ObjectType, nat), _>(e),
            },
    {
        let ghost s = reader@;
        let mut type_vec = reader.read_until(32u8);
        if type_vec.len() == 0 || type_vec[type_vec.len() - 1] != 32u8 {
            proof {
                lemma_first_index(s, 32);
            }
            return Err(Error::FormatError);
        }
        proof {
            lemma_first_index(s, 32);
        }
        type_vec.pop();
        assert(type_vec@ =~= s.take(first_index(s, 32)));
        let object_type = match ObjectType::new(type_vec.as_slice()) {
            Ok(t) => t,
            Err(e) => return Err(e),
        };
        let ghost rest = reader@;
        let mut size_vec = reader.read_until(0u8);
        proof {
            lemma_first_index(rest, 0);
        }
        if size_vec.len() == 0 || size_vec[size_vec.len() - 1] != 0u8 {
            return Err(Error::FormatError);
        }
        size_vec.pop();
        assert(size_vec@ =~= rest.take(first_index(rest, 0)));
        let object_size = match parse_decimal(size_vec.as_slice()) {
            Some(n) => {
                if n > usize::MAX as u64 {
                    return Err(Error::FormatError);
                }
                n as usize
            },
            None => return Err(Error::FormatError),
        };
        assert(reader@ == s.skip(header_len(s))) by {
            assert(s.skip(through(s, 32)).skip(through(rest, 0)) =~= s.skip(header_len(s)));
        }
        Ok(Self { object_type, object_size })
    }

    /// Appends the header: the type's word, a space, the size in decimal, and
    /// a zero byte.
    pub fn write(&self, writer: &mut Vec<u8>)
        ensures
            final(writer)@ == old(writer)@ + object_header(
                self.object_type,
                self.object_size as nat,
            ),
    {
        let ghost w = writer@;
        self.object_type.write(writer);
        writer.push(32u8);
        write_decimal(writer, self.object_size as u64);
        writer.push(0u8);
        assert(writer@ =~= w + object_header(self.object_type, self.object_size as nat));
    }
}

/// The bytes under which a payload of the given type is stored.
pub fn store_bytes(t: ObjectType, payload: &[u8]) -> (data: Vec<u8>)
    ensures
        data@ == stored_encoding(t, payload@),
{
    let mut data: Vec<u8> = Vec::new();
    let header = ObjectHeader { object_type: t, object_size: payload.len() };
    header.write(&mut data);
    data.extend_from_slice(payload);
    data
}

impl Object {
    /// The blob that the object is, if it is one.
    pub fn as_blob(&self) -> (r: Option<&Blob>)
        ensures
            match r {
                Some(blob) => self@ == ObjectView::Blob(blob@),
                None => !(self@ is Blob),
            },
    {
        match self {
            Object::Blob(ref blob) => Some(blob),
            _ => None,
        }
    }

    /// The tree that the object is, if it is one.
    pub fn as_tree(&self) -> (r: Option<&Tree>)
        ensures
            match r {
                Some(tree) => self@ == ObjectView::Tree(tree@),
                None => !(self@ is Tree),
            },
    {
        match self {
            Object::Tree(ref tree) => Some(tree),
            _ => None,
        }
    }

    /// The commit that the object is, if it is one.
    pub fn as_commit(&self) -> (r: Option<&Commit>)
        ensures
            match r {
                Some(commit) => self@ == ObjectView::Commit(commit@),
                None => !(self@ is Commit),
            },
    {
        match self {
            Object::Commit(ref commit) => Some(commit),
            _ => None,
        }
    }

    /// The object as a blob, if it is one.
    pub fn into_blob(self) -> (r: Option<Blob>)
        ensures
            match r {
                Some(blob) => self@ == ObjectView::Blob(blob@),
                None => !(self@ is Blob),
            },
    {
        match self {
            Object::Blob(blob) => Some(blob),
            _ => None,
        }
    }

    /// The object as a tree, if it is one.
    pub fn into_tree(self) -> (r: Option<Tree>)
        ensures
            match r {
                Some(tree) => self@ == ObjectView::Tree(tree@),
                None => !(self@ is Tree),
            },
    {
        match self {
            Object::Tree(tree) => Some(tree),
            _ => None,
        }
    }

    /// The object as a commit, if it is one.
    pub fn into_commit(self) -> (r: Option<Commit>)
        ensures
            match r {
                Some(commit) => self@ == ObjectView::Commit(commit@),
                None => !(self@ is Commit),
            },
    {
        match self {
            Object::Commit(commit) => Some(commit),
            _ => None,
        }
    }

    /// The type of the object.
    pub fn object_type(&self) -> (t: ObjectType)
        ensures
            t == self@.object_type(),
    {
        match self {
            Object::Commit(_) => ObjectType::Commit,
            Object::Tree(_) => ObjectType::Tree,
            Object::Blob(_) => ObjectType::Blob,
        }
    }

    /// The bytes under which the object is stored: the header, and the
    /// payload that the object's codec gives.
    pub fn encode(&self) -> (data: Vec<u8>)
        ensures
            data@ == self@.encoding(),
    {
        match self {
            Object::Commit(commit) => {
                let payload = commit.encode();
                store_bytes(ObjectType::Commit, payload.as_slice())
            },
            Object::Tree(tree) => {
                let payload = tree.encode();
                store_bytes(ObjectType::Tree, payload.as_slice())
            },
            Object::Blob(blob) => store_bytes(ObjectType::Blob, blob.as_bytes()),
        }
    }

    /// The identifier of the object: the digest of the bytes under which it
    /// is stored.
    pub fn id(&self) -> (oid: Oid)
        ensures
            oid@ == sha1_digest(self@.encoding()),
    {
        let data = self.encode();
        Oid::hash(data.as_slice())
    }

    /// Reads a stored record to the end of the input: the header, and after
    /// it the payload, which the codec of the header's type decodes.
    pub fn from_reader(reader: &mut Cursor) -> (r: Result<Object, Error>)
        ensures
            match r {
                Ok(object) => {
                    &&& parse_object(old(reader)@) == Ok::<_, Error>(object@)
                    &&& final(reader)@ == Seq::<u8>::empty()
                },
                Err(e) => parse_object(old(reader)@) == Err::<ObjectView, _>(e),
            },
    {
        let header = match ObjectHeader::read(reader) {
            Ok(header) => header,
            Err(e) => return Err(e),
        };
        match header.object_type {
            ObjectType::Blob => {
                let content = reader.read_to_end();
                Ok(Object::Blob(Blob::new(content.as_slice())))
            },
            ObjectType::Commit => match Commit::from_reader(reader) {
                Ok(commit) => Ok(Object::Commit(commit)),
                Err(e) => Err(e),
            },
            ObjectType::Tree => match Tree::from_reader(reader) {
                Ok(tree) => Ok(Object::Tree(tree)),
                Err(e) => Err(e),
            },
        }
    }

    /// Decodes the bytes under which an object is stored.
    pub fn decode(data: &[u8]) -> (r: Result<Object, Error>)
        ensures
            match r {
                Ok(object) => parse_object(data@) == Ok::<_, Error>(object@),
                Err(e) => parse_object(data@) == Err::<ObjectView, _>(e),
            },
    {
        let mut reader = Cursor::new(vstd::slice::slice_to_vec(data));
        Object::from_reader(&mut reader)
    }
}

/// In a header with any payload after it, the type's word ends at the first
/// space, the size at the first zero byte after it, and that zero byte is
/// the first zero byte of all.
pub proof fn lemma_object_header_shape(t: ObjectType, size: nat, payload: Seq<u8>)
    ensures
        ({
            let s = object_header(t, size) + payload;
            let space = first_index(s, 32);
            let rest = s.skip(space + 1);
            &&& space == type_token(t).len()
            &&& s.take(space) == type_token(t)
            &&& first_index(rest, 0) == decimal(size).len()
            &&& rest.take(first_index(rest, 0)) == decimal(size)
            &&& header_len(s) == object_header(t, size).len()
            &&& first_index(s, 0) == object_header(t, size).len() - 1
        }),
{
    let token = type_token(t);
    let digits = decimal(size);
    let s = object_header(t, size) + payload;
    lemma_decimal(size);
    let k = token.len() as int;
    assert(forall|i: int| 0 <= i < k ==> token[i] != 32 && token[i] != 0);
    assert(s =~= token + (seq![32u8] + (digits + (seq![0u8] + payload))));
    assert(s[k] == 32);
    assert forall|i: int| 0 <= i < k implies s[i] != 32 by {
        assert(s[i] == token[i]);
    }
    lemma_first_index_is(s, 32, k);
    assert(s.take(k) =~= token);
    let rest = s.skip(k + 1);
    assert(rest =~= digits + (seq![0u8] + payload));
    let d = digits.len() as int;
    assert forall|i: int| 0 <= i < d implies rest[i] != 0 by {
        assert(rest[i] == digits[i]);
    }
    assert(rest[d] == 0);
    lemma_first_index_is(rest, 0, d);
    assert(rest.take(d) =~= digits);
    assert forall|i: int| 0 <= i < k + 1 + d implies s[i] != 0 by {
        if i < k {
            assert(s[i] == token[i]);
        } else if i > k {
            assert(s[i] == digits[i - k - 1]);
        }
    }
    assert(s[k + 1 + d] == 0);
    lemma_first_index_is(s, 0, k + 1 + d);
}

/// A header that is written out, with any payload after it, is read back as
/// it was, and the payload starts where the header ends.
pub proof fn lemma_parse_of_object_header(t: ObjectType, size: nat, payload: Seq<u8>)
    requires
        size <= usize::MAX,
    ensures
        parse_object_header(object_header(t, size) + payload) == Ok::<_, Error>((t, size)),
        header_len(object_header(t, size) + payload) == object_header(t, size).len(),
{
    lemma_object_header_shape(t, size, payload);
    lemma_decimal(size);
    assert(token_type(type_token(t)) == Some(t));
}

/// An encodable object is read back from its stored bytes as it was.
pub proof fn lemma_object_round_trip(v: ObjectView)
    requires
        v.encodable(),
    ensures
        parse_object(v.encoding()) == Ok::<_, Error>(v),
{
    let payload = v.payload();
    let header = object_header(v.object_type(), payload.len());
    lemma_parse_of_object_header(v.object_type(), payload.len(), payload);
    lemma_skip_prefix(header, payload);
    match v {
        ObjectView::Commit(commit) => {
            lemma_commit_round_trip(commit);
        },
        ObjectView::Tree(tree) => {
            lemma_tree_round_trip(tree);
        },
        ObjectView::Blob(_) => {},
    }
}

} // verus!
