use vstd::prelude::*;
use vstd::string::*;
use vstd::utf8::{decode_utf8, encode_utf8, is_ascii_chars, valid_utf8};
use crate::decimal::{
    decimal, lemma_decimal, lemma_signed_decimal, signed_decimal, write_decimal,
    write_signed_decimal,
};
use crate::error::Error;

verus! {

/// The characters that ASCII bytes stand for, one for each byte.
pub open spec fn ascii_chars(bytes: Seq<u8>) -> Seq<char> {
    Seq::new(bytes.len(), |i: int| bytes[i] as char)
}

/// Whether every byte of `bytes` is ASCII.
pub open spec fn all_ascii(bytes: Seq<u8>) -> bool {
    forall|i: int| 0 <= i < bytes.len() ==> #[trigger] bytes[i] < 128
}

/// The decimal digits of `n` as characters, with zeros before them where
/// there are fewer than `width`.
pub open spec fn padded_decimal(n: nat, width: nat) -> Seq<char> {
    if decimal(n).len() < width {
        Seq::new((width - decimal(n).len()) as nat, |i: int| '0') + ascii_chars(decimal(n))
    } else {
        ascii_chars(decimal(n))
    }
}

/// `core::str::from_utf8`: succeeds exactly on well-formed UTF-8, and the
/// text that it gives has the bytes that it was given.
#[verifier::external_body]
fn utf8_text(bytes: &[u8]) -> (r: Option<&str>)
    ensures
        r is Some <==> valid_utf8(bytes@),
        r matches Some(text) ==> text.spec_bytes() == bytes@,
{
    core::str::from_utf8(bytes).ok()
}

/// The text that `bytes` spell in UTF-8. Bytes that are not well-formed
/// UTF-8 are a `FormatError`.
pub fn utf8(bytes: &[u8]) -> (r: Result<&str, Error>)
    ensures
        r is Ok <==> valid_utf8(bytes@),
        r matches Ok(text) ==> text@ == decode_utf8(bytes@) && text.spec_bytes() == bytes@,
        r matches Err(e) ==> e == Error::FormatError,
{
    match utf8_text(bytes) {
        Some(text) => {
            proof {
                vstd::utf8::encode_utf8_decode_utf8(text@);
            }
            Ok(text)
        },
        None => Err(Error::FormatError),
    }
}

/// Appends the characters of ASCII bytes.
pub fn append_ascii(out: &mut String, bytes: &[u8])
    requires
        all_ascii(bytes@),
    ensures
        final(out)@ == old(out)@ + ascii_chars(bytes@),
{
    proof {
        lemma_ascii_text(bytes@);
    }
    match utf8(bytes) {
        Ok(text) => out.append(text),
        Err(_) => {},
    }
}

/// Appends the decimal digits of `n`.
pub fn append_decimal(out: &mut String, n: u64)
    ensures
        final(out)@ == old(out)@ + ascii_chars(decimal(n as nat)),
{
    let mut digits: Vec<u8> = Vec::new();
    write_decimal(&mut digits, n);
    assert(digits@ =~= decimal(n as nat));
    proof {
        lemma_decimal(n as nat);
    }
    append_ascii(out, digits.as_slice());
}

/// Appends the decimal text of `i`, with a minus sign where it is negative.
pub fn append_signed_decimal(out: &mut String, i: i64)
    ensures
        final(out)@ == old(out)@ + ascii_chars(signed_decimal(i as int)),
{
    let mut digits: Vec<u8> = Vec::new();
    write_signed_decimal(&mut digits, i);
    assert(digits@ =~= signed_decimal(i as int));
    proof {
        lemma_signed_decimal(i as int);
        let t = signed_decimal(i as int);
        assert forall|k: int| 0 <= k < t.len() implies #[trigger] t[k] < 128 by {
            if t[0] == 45 && k > 0 {
                assert(t.skip(1)[k - 1] == t[k]);
            }
        }
    }
    append_ascii(out, digits.as_slice());
}

/// Appends the decimal digits of `n`, with zeros before them where there are
/// fewer than `width`.
pub fn append_padded_decimal(out: &mut String, n: u64, width: usize)
    ensures
        final(out)@ == old(out)@ + padded_decimal(n as nat, width as nat),
{
    let mut digits: Vec<u8> = Vec::new();
    write_decimal(&mut digits, n);
    assert(digits@ =~= decimal(n as nat));
    proof {
        lemma_decimal(n as nat);
        reveal_strlit("0");
    }
    let ghost start = out@;
    let mut i: usize = digits.len();
    while i < width
        invariant
            digits@.len() <= i,
            i <= width || i == digits@.len(),
            out@ == start + Seq::new((i - digits@.len()) as nat, |k: int| '0'),
            "0"@ == seq!['0'],
        decreases width - i,
    {
        out.append("0");
        assert(out@ =~= start + Seq::new((i + 1 - digits@.len()) as nat, |k: int| '0'));
        i = i + 1;
    }
    let ghost zeros = Seq::new((i - digits@.len()) as nat, |k: int| '0');
    assert(i == digits@.len() ==> zeros =~= Seq::<char>::empty());
    append_ascii(out, digits.as_slice());
    assert(out@ =~= start + padded_decimal(n as nat, width as nat));
}

/// ASCII bytes are well-formed UTF-8, and the text that they spell has one
/// character for each byte.
pub proof fn lemma_ascii_text(bytes: Seq<u8>)
    requires
        all_ascii(bytes),
    ensures
        valid_utf8(bytes),
        decode_utf8(bytes) == ascii_chars(bytes),
        encode_utf8(ascii_chars(bytes)) == bytes,
{
    let chars = ascii_chars(bytes);
    assert(is_ascii_chars(chars)) by {
        assert forall|i: int| 0 <= i < chars.len() implies '\0' <= #[trigger] chars[i]
            <= '\u{7f}' by {
            assert(bytes[i] < 128);
        }
    }
    vstd::utf8::is_ascii_chars_encode_utf8(chars);
    assert(encode_utf8(chars) =~= bytes) by {
        assert forall|i: int| 0 <= i < bytes.len() implies encode_utf8(chars)[i] == bytes[i] by {
            assert(bytes[i] < 128);
            assert(chars[i] as u8 == bytes[i]);
        }
    }
    vstd::utf8::encode_utf8_valid_utf8(chars);
    vstd::utf8::encode_utf8_decode_utf8(chars);
}

} // verus!
