use sha1::{Digest, Sha1};
use vstd::prelude::*;
use vstd::string::*;
use crate::cursor::Cursor;
use crate::error::Error;

verus! {

/// The number of raw bytes in an identifier.
pub const GIT_OID_RAWSZ: usize = 20;

/// An object identifier: the 20 raw bytes of a digest. Its view is those
/// bytes, and two identifiers are the same exactly when their bytes are.
#[derive(Clone, Copy, Debug)]
pub struct Oid {
    id: [u8; GIT_OID_RAWSZ],
}

impl View for Oid {
    type V = Seq<u8>;

    closed spec fn view(&self) -> Seq<u8> {
        self.id@
    }
}

/// The lower-case hexadecimal digit, as an ASCII byte, of a value below 16.
pub open spec fn hex_digit(v: int) -> u8 {
    if v < 10 {
        (48 + v) as u8
    } else {
        (87 + v) as u8
    }
}

/// The hexadecimal text of `data` as ASCII bytes: two lower-case digits for
/// each byte, the high four bits first.
pub open spec fn hex_bytes(data: Seq<u8>) -> Seq<u8> {
    Seq::new(
        2 * data.len(),
        |i: int|
            if i % 2 == 0 {
                hex_digit(data[i / 2] as int / 16)
            } else {
                hex_digit(data[i / 2] as int % 16)
            },
    )
}

/// The hexadecimal text of `data` as characters.
pub open spec fn hex_chars(data: Seq<u8>) -> Seq<char> {
    Seq::new(2 * data.len(), |i: int| hex_bytes(data)[i] as char)
}

/// Whether `c` is an ASCII hexadecimal digit, in either case.
pub open spec fn is_hex_digit(c: u8) -> bool {
    ||| 48 <= c <= 57
    ||| 65 <= c <= 70
    ||| 97 <= c <= 102
}

/// The value of the hexadecimal digit `c`.
pub open spec fn hex_value(c: u8) -> int {
    if 48 <= c <= 57 {
        c - 48
    } else if 65 <= c <= 70 {
        c - 55
    } else {
        c - 87
    }
}

/// Whether `s` is hexadecimal text for whole bytes: an even number of
/// hexadecimal digits.
pub open spec fn is_hex(s: Seq<u8>) -> bool {
    &&& s.len() % 2 == 0
    &&& forall|i: int| 0 <= i < s.len() ==> is_hex_digit(#[trigger] s[i])
}

/// The bytes that the hexadecimal text `s` spells.
pub open spec fn unhex(s: Seq<u8>) -> Seq<u8> {
    Seq::new(
        (s.len() / 2) as nat,
        |i: int| (hex_value(s[2 * i]) * 16 + hex_value(s[2 * i + 1])) as u8,
    )
}

/// The SHA-1 digest of `data`, as the `sha1` crate computes it.
pub uninterp spec fn sha1_digest(data: Seq<u8>) -> Seq<u8>;

/// `sha1::Sha1::digest` (the `Digest` trait's one-shot function): the
/// 20-byte SHA-1 digest of `data`, which depends on `data` alone.
#[verifier::external_body]
fn sha1_of(data: &[u8]) -> (out: [u8; 20])
    ensures
        out@ == sha1_digest(data@),
{
    Sha1::digest(data).into()
}

/// `hex::encode`: two lower-case hexadecimal digits for each byte of `data`,
/// the high four bits first.
#[verifier::external_body]
fn hex_encode(data: &[u8]) -> (out: String)
    ensures
        out@ == hex_chars(data@),
{
    hex::encode(data)
}

/// `hex::decode`: fails on an odd length or on a byte that is no hexadecimal
/// digit of either case; otherwise each pair of digits gives one byte, the
/// first digit its high four bits.
#[verifier::external_body]
fn hex_decode(data: &[u8]) -> (out: Option<Vec<u8>>)
    ensures
        out is Some <==> is_hex(data@),
        out matches Some(bytes) ==> bytes@ == unhex(data@),
{
    hex::decode(data).ok()
}

impl Oid {
    /// Every identifier has 20 bytes.
    pub proof fn lemma_len(self)
        ensures
            self@.len() == GIT_OID_RAWSZ,
    {
    }

    /// The identifier with the raw bytes `id`.
    pub fn new(id: [u8; GIT_OID_RAWSZ]) -> (oid: Oid)
        ensures
            oid@ == id@,
    {
        Self { id }
    }

    /// The identifier of a byte buffer: its SHA-1 digest.
    pub fn hash(data: &[u8]) -> (oid: Oid)
        ensures
            oid@ == sha1_digest(data@),
            oid@.len() == GIT_OID_RAWSZ,
    {
        Self { id: sha1_of(data) }
    }

    /// Parses the hexadecimal text of an identifier. The text must be exactly
    /// 40 hexadecimal digits, of either case.
    pub fn from_hex(data: &[u8]) -> (r: Result<Oid, Error>)
        ensures
            r is Ok <==> data@.len() == 40 && is_hex(data@),
            r matches Ok(oid) ==> oid@ == unhex(data@),
            r matches Err(e) ==> e == Error::FormatError,
    {
        if data.len() != 2 * GIT_OID_RAWSZ {
            return Err(Error::FormatError);
        }
        match hex_decode(data) {
            Some(bytes) => {
                let mut id = [0u8; GIT_OID_RAWSZ];
                let mut i: usize = 0;
                while i < GIT_OID_RAWSZ
                    invariant
                        i <= GIT_OID_RAWSZ,
                        bytes@.len() == GIT_OID_RAWSZ,
                        forall|j: int| 0 <= j < i ==> id@[j] == bytes@[j],
                    decreases GIT_OID_RAWSZ - i,
                {
                    id[i] = bytes[i];
                    i = i + 1;
                }
                assert(id@ =~= bytes@);
                Ok(Self { id })
            },
            None => Err(Error::FormatError),
        }
    }

    /// Reads the 20 raw bytes of an identifier. Fails on fewer, and then
    /// leaves the cursor where it was.
    pub fn from_reader(reader: &mut Cursor) -> (r: Result<Oid, Error>)
        ensures
            r is Ok <==> old(reader)@.len() >= GIT_OID_RAWSZ,
            match r {
                Ok(oid) => {
                    &&& oid@ == old(reader)@.take(GIT_OID_RAWSZ as int)
                    &&& final(reader)@ == old(reader)@.skip(GIT_OID_RAWSZ as int)
                },
                Err(e) => e == Error::IOError && final(reader)@ == old(reader)@,
            },
    {
        match reader.read_exact(GIT_OID_RAWSZ) {
            Ok(bytes) => {
                let mut id = [0u8; GIT_OID_RAWSZ];
                let mut i: usize = 0;
                while i < GIT_OID_RAWSZ
                    invariant
                        i <= GIT_OID_RAWSZ,
                        bytes@.len() == GIT_OID_RAWSZ,
                        forall|j: int| 0 <= j < i ==> id@[j] == bytes@[j],
                    decreases GIT_OID_RAWSZ - i,
                {
                    id[i] = bytes[i];
                    i = i + 1;
                }
                assert(id@ =~= bytes@);
                Ok(Self { id })
            },
            Err(e) => Err(e),
        }
    }

    /// The raw bytes.
    pub fn as_bytes(&self) -> (bytes: &[u8])
        ensures
            bytes@ == self@,
    {
        self.id.as_slice()
    }

    /// The 40 lower-case hexadecimal digits of the identifier.
    pub fn hex(&self) -> (text: String)
        ensures
            text@ == hex_chars(self@),
    {
        hex_encode(self.id.as_slice())
    }

    /// The hexadecimal text as ASCII bytes.
    pub fn hex_bytes(&self) -> (text: Vec<u8>)
        ensures
            text@ == hex_bytes(self@),
    {
        let text = self.hex();
        proof {
            lemma_hex_ascii(self@);
        }
        text.as_str().as_bytes_vec()
    }

    /// Whether two identifiers have the same bytes.
    pub fn same(&self, other: &Oid) -> (r: bool)
        ensures
            r == (self@ == other@),
    {
        let mut i: usize = 0;
        while i < GIT_OID_RAWSZ
            invariant
                i <= GIT_OID_RAWSZ,
                forall|j: int| 0 <= j < i ==> self.id@[j] == other.id@[j],
            decreases GIT_OID_RAWSZ - i,
        {
            if self.id[i] != other.id[i] {
                return false;
            }
            i = i + 1;
        }
        assert(self.id@ =~= other.id@);
        true
    }
}

impl PartialEq for Oid {
    fn eq(&self, other: &Oid) -> (r: bool) {
        self.same(other)
    }
}

impl Eq for Oid {}

impl vstd::std_specs::cmp::PartialEqSpecImpl for Oid {
    open spec fn obeys_eq_spec() -> bool {
        true
    }

    open spec fn eq_spec(&self, other: &Oid) -> bool {
        self@ == other@
    }
}

/// The hexadecimal text of any bytes is valid, and spells those bytes.
pub proof fn lemma_unhex_of_hex(data: Seq<u8>)
    ensures
        hex_bytes(data).len() == 2 * data.len(),
        is_hex(hex_bytes(data)),
        unhex(hex_bytes(data)) == data,
{
    let h = hex_bytes(data);
    assert forall|i: int| 0 <= i < h.len() implies is_hex_digit(#[trigger] h[i]) by {
        let v = data[i / 2] as int;
        assert(0 <= v / 16 < 16 && 0 <= v % 16 < 16);
    }
    assert forall|i: int| 0 <= i < data.len() implies #[trigger] unhex(h)[i] == data[i] by {
        let v = data[i] as int;
        assert((2 * i) / 2 == i && (2 * i) % 2 == 0);
        assert((2 * i + 1) / 2 == i && (2 * i + 1) % 2 == 1);
        assert(h[2 * i] == hex_digit(v / 16));
        assert(h[2 * i + 1] == hex_digit(v % 16));
        assert(0 <= v / 16 < 16 && 0 <= v % 16 < 16);
        assert(v == (v / 16) * 16 + v % 16);
    }
    assert(unhex(h) =~= data);
}

/// The hexadecimal text of any bytes is ASCII, so that its characters and its
/// bytes are the same.
pub proof fn lemma_hex_ascii(data: Seq<u8>)
    ensures
        vstd::utf8::is_ascii_chars(hex_chars(data)),
        vstd::utf8::encode_utf8(hex_chars(data)) == hex_bytes(data),
{
    let chars = hex_chars(data);
    assert forall|i: int| 0 <= i < chars.len() implies '\0' <= #[trigger] chars[i] <= '\u{7f}' by {
        let v = data[i / 2] as int;
        assert(0 <= v / 16 < 16 && 0 <= v % 16 < 16);
    }
    vstd::utf8::is_ascii_chars_encode_utf8(chars);
    assert(vstd::utf8::encode_utf8(chars) =~= hex_bytes(data));
}

} // verus!
