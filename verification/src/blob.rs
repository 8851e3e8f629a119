use vstd::prelude::*;
use vstd::string::*;
use crate::bytes::{first_index, lemma_first_index_is, lemma_skip_prefix};
use crate::error::Error;
use crate::object::{lemma_object_header_shape, object_header, ObjectHeader, ObjectType};
use crate::oid::{sha1_digest, Oid};
use crate::text::utf8;

verus! {

/// File content: raw bytes without further structure. The view is the
/// bytes.
#[derive(Debug, Clone)]
pub struct Blob {
    content: Vec<u8>,
}

impl View for Blob {
    type V = Seq<u8>;

    closed spec fn view(&self) -> Seq<u8> {
        self.content@
    }
}

/// The canonical encoding of a blob: the header of a stored blob record and
/// the content after it.
pub open spec fn blob_encoding(content: Seq<u8>) -> Seq<u8> {
    object_header(ObjectType::Blob, content.len()) + content
}

/// The content that an encoded blob holds: all that follows its first zero
/// byte. Bytes without a zero byte are no encoded blob.
pub open spec fn blob_decoding(data: Seq<u8>) -> Result<Seq<u8>, Error> {
    if first_index(data, 0) < data.len() {
        Ok(data.skip(first_index(data, 0) + 1))
    } else {
        Err(Error::FormatError)
    }
}

impl Blob {
    /// A blob with a copy of `content`.
    pub fn new(content: &[u8]) -> (blob: Blob)
        ensures
            blob@ == content@,
    {
        Self { content: vstd::slice::slice_to_vec(content) }
    }

    /// The content.
    pub fn as_bytes(&self) -> (content: &[u8])
        ensures
            content@ == self@,
    {
        self.content.as_slice()
    }

    /// The content as text. Content that is not well-formed UTF-8 is a
    /// `FormatError`.
    pub fn as_str(&self) -> (r: Result<&str, Error>)
        ensures
            r is Ok <==> vstd::utf8::valid_utf8(self@),
            r matches Ok(text) ==> text@ == vstd::utf8::decode_utf8(self@) && text.spec_bytes()
                == self@,
            r matches Err(e) ==> e == Error::FormatError,
    {
        utf8(self.content.as_slice())
    }

    /// The canonical encoding: `blob`, a space, the length of the content in
    /// decimal, a zero byte, and the content.
    pub fn encode(&self) -> (data: Vec<u8>)
        ensures
            data@ == blob_encoding(self@),
    {
        let mut data: Vec<u8> = Vec::new();
        let header = ObjectHeader {
            object_type: ObjectType::Blob,
            object_size: self.content.len(),
        };
        header.write(&mut data);
        data.extend_from_slice(self.content.as_slice());
        data
    }

    /// Decodes an encoded blob: the content is all that follows the first
    /// zero byte. The length that the header declares is not held against
    /// the content.
    pub fn decode(data: &[u8]) -> (r: Result<Blob, Error>)
        ensures
            match r {
                Ok(blob) => blob_decoding(data@) == Ok::<_, Error>(blob@),
                Err(e) => blob_decoding(data@) == Err::<Seq<u8>, _>(e),
            },
    {
        let mut i: usize = 0;
        while i < data.len() && data[i] != 0u8
            invariant
                i <= data@.len(),
                forall|j: int| 0 <= j < i ==> data@[j] != 0,
            decreases data@.len() - i,
        {
            i = i + 1;
        }
        proof {
            lemma_first_index_is(data@, 0, i as int);
        }
        if i == data.len() {
            return Err(Error::FormatError);
        }
        let content = vstd::slice::slice_subrange(data, i + 1, data.len());
        assert(content@ =~= data@.skip(i + 1));
        Ok(Blob::new(content))
    }

    /// The identifier of the blob: the digest of its canonical encoding.
    pub fn id(&self) -> (oid: Oid)
        ensures
            oid@ == sha1_digest(blob_encoding(self@)),
    {
        let data = self.encode();
        Oid::hash(data.as_slice())
    }
}

/// Decoding an encoded blob gives its content, whatever the content is.
pub proof fn lemma_blob_round_trip(content: Seq<u8>)
    ensures
        blob_decoding(blob_encoding(content)) == Ok::<_, Error>(content),
{
    let header = object_header(ObjectType::Blob, content.len());
    lemma_object_header_shape(ObjectType::Blob, content.len(), content);
    lemma_skip_prefix(header, content);
}

} // verus!
