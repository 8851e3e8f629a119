use vstd::prelude::*;

verus! {

/// The ASCII decimal digits of `n`, most significant first, without leading
/// zeros; a single `0` for zero.
pub open spec fn decimal(n: nat) -> Seq<u8>
    decreases n,
{
    if n < 10 {
        seq![(48 + n) as u8]
    } else {
        decimal(n / 10).push((48 + n % 10) as u8)
    }
}

/// Whether every byte of `s` is an ASCII decimal digit.
pub open spec fn all_digits(s: Seq<u8>) -> bool {
    forall|i: int| 0 <= i < s.len() ==> 48 <= #[trigger] s[i] <= 57
}

/// Whether `s` is a decimal numeral: one digit at least, and digits only.
pub open spec fn is_decimal(s: Seq<u8>) -> bool {
    s.len() > 0 && all_digits(s)
}

/// The number that the digits `s` spell.
pub open spec fn decimal_value(s: Seq<u8>) -> nat
    decreases s.len(),
{
    if s.len() == 0 {
        0
    } else {
        (decimal_value(s.drop_last()) * 10 + (s.last() - 48)) as nat
    }
}

/// The decimal text of a signed number: a minus sign before the digits of a
/// negative one.
pub open spec fn signed_decimal(i: int) -> Seq<u8> {
    if i < 0 {
        seq![45u8] + decimal((-i) as nat)
    } else {
        decimal(i as nat)
    }
}

/// Whether `s` is a decimal numeral with or without a minus sign before it.
pub open spec fn is_signed_decimal(s: Seq<u8>) -> bool {
    if s.len() > 0 && s[0] == 45 {
        is_decimal(s.skip(1))
    } else {
        is_decimal(s)
    }
}

/// The number that the signed numeral `s` spells.
pub open spec fn signed_decimal_value(s: Seq<u8>) -> int {
    if s.len() > 0 && s[0] == 45 {
        -(decimal_value(s.skip(1)) as int)
    } else {
        decimal_value(s) as int
    }
}

/// Appends the decimal digits of `n`.
pub fn write_decimal(writer: &mut Vec<u8>, n: u64)
    ensures
        final(writer)@ == old(writer)@ + decimal(n as nat),
    decreases n,
{
    if n >= 10 {
        write_decimal(writer, n / 10);
    }
    let digit: u8 = (48 + n % 10) as u8;
    writer.push(digit);
    proof {
        if n >= 10 {
            assert(writer@ =~= old(writer)@ + decimal(n as nat));
        } else {
            assert(writer@ =~= old(writer)@ + decimal(n as nat));
        }
    }
}

/// Appends the decimal text of `i`, with a minus sign where it is negative.
pub fn write_signed_decimal(writer: &mut Vec<u8>, i: i64)
    ensures
        final(writer)@ == old(writer)@ + signed_decimal(i as int),
{
    if i < 0 {
        writer.push(45u8);
        let magnitude: u64 = if i == i64::MIN {
            0x8000_0000_0000_0000u64
        } else {
            (-i) as u64
        };
        write_decimal(writer, magnitude);
        assert(writer@ =~= old(writer)@ + signed_decimal(i as int));
    } else {
        write_decimal(writer, i as u64);
    }
}

/// Reads a decimal numeral. The text must be digits only, one at least, and
/// must spell a number that fits in 64 bits.
pub fn parse_decimal(text: &[u8]) -> (r: Option<u64>)
    ensures
        r is Some <==> is_decimal(text@) && decimal_value(text@) <= u64::MAX,
        r matches Some(n) ==> n == decimal_value(text@),
{
    if text.len() == 0 {
        return None;
    }
    let mut value: u64 = 0;
    let mut i: usize = 0;
    assert(text@.take(0) =~= Seq::<u8>::empty());
    while i < text.len()
        invariant
            i <= text@.len(),
            all_digits(text@.take(i as int)),
            value == decimal_value(text@.take(i as int)),
        decreases text@.len() - i,
    {
        let b = text[i];
        if b < 48 || b > 57 {
            return None;
        }
        let digit: u64 = (b - 48) as u64;
        proof {
            assert(text@.take(i + 1).drop_last() =~= text@.take(i as int));
            assert(text@.take(i + 1).last() == b);
            assert(all_digits(text@.take(i + 1))) by {
                assert forall|j: int| 0 <= j < i + 1 implies 48 <= #[trigger] text@.take(i + 1)[j]
                    <= 57 by {
                    if j < i {
                        assert(text@.take(i as int)[j] == text@[j]);
                    }
                }
            }
        }
        if value > (u64::MAX - digit) / 10 {
            proof {
                if all_digits(text@) {
                    lemma_decimal_value_prefix(text@, i + 1);
                }
            }
            return None;
        }
        value = value * 10 + digit;
        i = i + 1;
    }
    assert(text@.take(i as int) =~= text@);
    Some(value)
}

/// Reads a decimal numeral with or without a minus sign before it. The
/// number must fit in 64 bits with a sign.
pub fn parse_signed_decimal(text: &[u8]) -> (r: Option<i64>)
    ensures
        r is Some <==> is_signed_decimal(text@) && i64::MIN <= signed_decimal_value(text@)
            <= i64::MAX,
        r matches Some(n) ==> n == signed_decimal_value(text@),
{
    if text.len() > 0 && text[0] == 45u8 {
        let digits = vstd::slice::slice_subrange(text, 1, text.len());
        assert(digits@ =~= text@.skip(1));
        match parse_decimal(digits) {
            Some(n) => {
                if n > 0x8000_0000_0000_0000u64 {
                    None
                } else if n == 0x8000_0000_0000_0000u64 {
                    Some(i64::MIN)
                } else {
                    Some(-(n as i64))
                }
            },
            None => None,
        }
    } else {
        match parse_decimal(text) {
            Some(n) => {
                if n > 0x7fff_ffff_ffff_ffffu64 {
                    None
                } else {
                    Some(n as i64)
                }
            },
            None => None,
        }
    }
}

/// The digits of a number are a numeral that spells it.
pub proof fn lemma_decimal(n: nat)
    ensures
        is_decimal(decimal(n)),
        decimal_value(decimal(n)) == n,
    decreases n,
{
    if n < 10 {
        let s = decimal(n);
        assert(s.drop_last() =~= Seq::<u8>::empty());
        assert(decimal_value(s.drop_last()) == 0);
    } else {
        lemma_decimal(n / 10);
        let s = decimal(n);
        assert(s.drop_last() =~= decimal(n / 10));
    }
}

/// The text of a signed number is a signed numeral that spells it.
pub proof fn lemma_signed_decimal(i: int)
    ensures
        is_signed_decimal(signed_decimal(i)),
        signed_decimal_value(signed_decimal(i)) == i,
{
    if i < 0 {
        lemma_decimal((-i) as nat);
        assert(signed_decimal(i).skip(1) =~= decimal((-i) as nat));
    } else {
        lemma_decimal(i as nat);
    }
}

/// A numeral spells no less than any of its prefixes does.
pub proof fn lemma_decimal_value_prefix(s: Seq<u8>, k: int)
    requires
        all_digits(s),
        0 <= k <= s.len(),
    ensures
        decimal_value(s.take(k)) <= decimal_value(s),
    decreases s.len() - k,
{
    if k < s.len() {
        lemma_decimal_value_prefix(s, k + 1);
        assert(s.take(k + 1).drop_last() =~= s.take(k));
    } else {
        assert(s.take(k) =~= s);
    }
}

} // verus!
