use vstd::prelude::*;

verus! {

/// The position of the first occurrence of `b` in `s`, or `s.len()` where
/// there is none.
pub open spec fn first_index(s: Seq<u8>, b: u8) -> int
    decreases s.len(),
{
    if s.len() == 0 {
        0
    } else if s[0] == b {
        0
    } else {
        1 + first_index(s.skip(1), b)
    }
}

/// The number of bytes that a read through the first `b` consumes: one past
/// its position, or all of `s` where there is none.
pub open spec fn through(s: Seq<u8>, b: u8) -> int {
    if first_index(s, b) < s.len() {
        first_index(s, b) + 1
    } else {
        s.len() as int
    }
}

/// Whether `a` stands at position `i` of `s`, right before `b`.
pub open spec fn pair_at(s: Seq<u8>, i: int, a: u8, b: u8) -> bool {
    0 <= i && i + 1 < s.len() && s[i] == a && s[i + 1] == b
}

/// The position of the first place in `s` where `a` stands right before
/// `b`, or `s.len()` where there is none.
pub open spec fn find_pair(s: Seq<u8>, a: u8, b: u8) -> int
    decreases s.len(),
{
    if s.len() < 2 {
        s.len() as int
    } else if s[0] == a && s[1] == b {
        0
    } else {
        1 + find_pair(s.skip(1), a, b)
    }
}

/// Whether `a` comes before `b` in byte-wise lexicographic order: at the
/// first position where they differ `a` has the smaller byte, or `a` is a
/// proper prefix of `b`.
pub open spec fn lex_lt(a: Seq<u8>, b: Seq<u8>) -> bool
    decreases a.len(),
{
    if b.len() == 0 {
        false
    } else if a.len() == 0 {
        true
    } else if a[0] != b[0] {
        a[0] < b[0]
    } else {
        lex_lt(a.skip(1), b.skip(1))
    }
}

/// Whether two byte strings are the same.
pub fn bytes_eq(a: &[u8], b: &[u8]) -> (r: bool)
    ensures
        r == (a@ == b@),
{
    if a.len() != b.len() {
        return false;
    }
    let mut i: usize = 0;
    while i < a.len()
        invariant
            i <= a@.len(),
            a@.len() == b@.len(),
            forall|j: int| 0 <= j < i ==> a@[j] == b@[j],
        decreases a@.len() - i,
    {
        if a[i] != b[i] {
            return false;
        }
        i = i + 1;
    }
    assert(a@ =~= b@);
    true
}

/// Whether `a` comes before `b` in byte-wise lexicographic order.
pub fn bytes_lt(a: &[u8], b: &[u8]) -> (r: bool)
    ensures
        r == lex_lt(a@, b@),
{
    let mut i: usize = 0;
    assert(a@.skip(0) =~= a@ && b@.skip(0) =~= b@);
    while i < a.len() && i < b.len()
        invariant
            i <= a@.len(),
            i <= b@.len(),
            lex_lt(a@, b@) == lex_lt(a@.skip(i as int), b@.skip(i as int)),
        decreases a@.len() - i,
    {
        assert(a@.skip(i as int)[0] == a@[i as int]);
        assert(b@.skip(i as int)[0] == b@[i as int]);
        if a[i] != b[i] {
            return a[i] < b[i];
        }
        assert(a@.skip(i as int).skip(1) =~= a@.skip(i + 1));
        assert(b@.skip(i as int).skip(1) =~= b@.skip(i + 1));
        i = i + 1;
    }
    i < b.len()
}

/// `first_index` is the least position that holds `b`, and the length where no
/// position does.
pub proof fn lemma_first_index(s: Seq<u8>, b: u8)
    ensures
        0 <= first_index(s, b) <= s.len(),
        forall|i: int| 0 <= i < first_index(s, b) ==> s[i] != b,
        first_index(s, b) < s.len() ==> s[first_index(s, b)] == b,
    decreases s.len(),
{
    if s.len() > 0 && s[0] != b {
        let t = s.skip(1);
        lemma_first_index(t, b);
        assert forall|i: int| 0 <= i < first_index(s, b) implies s[i] != b by {
            if i > 0 {
                assert(s[i] == t[i - 1]);
            }
        }
    }
}

/// A position that holds `b` and has no `b` before it is `first_index`.
pub proof fn lemma_first_index_is(s: Seq<u8>, b: u8, k: int)
    requires
        0 <= k <= s.len(),
        forall|i: int| 0 <= i < k ==> s[i] != b,
        k < s.len() ==> s[k] == b,
    ensures
        first_index(s, b) == k,
{
    lemma_first_index(s, b);
    let f = first_index(s, b);
    if f < k {
        assert(s[f] != b);
    } else if k < f {
        assert(s[k] == b);
    }
}

/// Bytes without `c`, then `c`, then anything: the first `c` is the one
/// after the bytes.
pub proof fn lemma_first_index_after(p: Seq<u8>, c: u8, rest: Seq<u8>)
    requires
        first_index(p, c) == p.len(),
    ensures
        first_index(p + (seq![c] + rest), c) == p.len(),
        through(p + (seq![c] + rest), c) == p.len() + 1,
        (p + (seq![c] + rest)).take(p.len() as int) == p,
        (p + (seq![c] + rest)).skip(p.len() as int + 1) == rest,
{
    let s = p + (seq![c] + rest);
    let n = p.len() as int;
    lemma_first_index(p, c);
    assert forall|i: int| 0 <= i < n implies s[i] != c by {
        assert(s[i] == p[i]);
    }
    assert(s[n] == c);
    lemma_first_index_is(s, c, n);
    assert(s.take(n) =~= p);
    assert(s.skip(n + 1) =~= rest);
}

/// `find_pair` is the least position where the pair stands, and the length
/// where it stands nowhere.
pub proof fn lemma_find_pair(s: Seq<u8>, a: u8, b: u8)
    ensures
        0 <= find_pair(s, a, b) <= s.len(),
        find_pair(s, a, b) < s.len() ==> pair_at(s, find_pair(s, a, b), a, b),
        forall|i: int| 0 <= i < find_pair(s, a, b) ==> !#[trigger] pair_at(s, i, a, b),
    decreases s.len(),
{
    if s.len() >= 2 && !(s[0] == a && s[1] == b) {
        let t = s.skip(1);
        lemma_find_pair(t, a, b);
        assert forall|i: int| 0 <= i < find_pair(s, a, b) implies !#[trigger] pair_at(s, i, a, b) by {
            if i > 0 {
                assert(!pair_at(t, i - 1, a, b));
            }
        }
    }
}

/// A position where the pair stands, with no such position before it, is
/// `find_pair`; and so is the length, where the pair stands nowhere.
pub proof fn lemma_find_pair_is(s: Seq<u8>, a: u8, b: u8, k: int)
    requires
        0 <= k <= s.len(),
        forall|i: int| 0 <= i < k ==> !#[trigger] pair_at(s, i, a, b),
        k < s.len() ==> pair_at(s, k, a, b),
    ensures
        find_pair(s, a, b) == k,
{
    lemma_find_pair(s, a, b);
    let f = find_pair(s, a, b);
    if f < k {
        assert(!pair_at(s, f, a, b));
    } else if k < f {
        assert(pair_at(s, k, a, b));
    }
}

/// Bytes in which `a` never stands right before `b`, then `a` and `b`, then
/// anything: the first such pair is the one after the bytes.
pub proof fn lemma_find_pair_after(p: Seq<u8>, a: u8, b: u8, rest: Seq<u8>)
    requires
        a != b,
        find_pair(p, a, b) == p.len(),
    ensures
        find_pair(p + (seq![a, b] + rest), a, b) == p.len(),
        (p + (seq![a, b] + rest)).take(p.len() as int) == p,
        (p + (seq![a, b] + rest)).skip(p.len() as int + 2) == rest,
{
    let s = p + (seq![a, b] + rest);
    let n = p.len() as int;
    lemma_find_pair(p, a, b);
    assert(s[n] == a && s[n + 1] == b);
    assert forall|i: int| 0 <= i < n implies !#[trigger] pair_at(s, i, a, b) by {
        assert(s[i] == p[i]);
        if i + 1 < n {
            assert(!pair_at(p, i, a, b));
            assert(s[i + 1] == p[i + 1]);
        }
    }
    assert(pair_at(s, n, a, b));
    lemma_find_pair_is(s, a, b, n);
    assert(s.take(n) =~= p);
    assert(s.skip(n + 2) =~= rest);
}

/// Appending is associative.
pub proof fn lemma_append(a: Seq<u8>, b: Seq<u8>, c: Seq<u8>)
    ensures
        (a + b) + c == a + (b + c),
{
    assert((a + b) + c =~= a + (b + c));
}

/// What follows a prefix of a concatenation is the rest of it.
pub proof fn lemma_skip_prefix(p: Seq<u8>, rest: Seq<u8>)
    ensures
        (p + rest).skip(p.len() as int) == rest,
        (p + rest).take(p.len() as int) == p,
{
    assert((p + rest).skip(p.len() as int) =~= rest);
    assert((p + rest).take(p.len() as int) =~= p);
}

/// Skipping twice is skipping the sum.
pub proof fn lemma_skip_skip(s: Seq<u8>, a: int, b: int)
    requires
        0 <= a,
        0 <= b,
        a + b <= s.len(),
    ensures
        s.skip(a).skip(b) == s.skip(a + b),
{
    assert(s.skip(a).skip(b) =~= s.skip(a + b));
}

/// Nothing comes before itself, and of two byte strings at most one comes
/// before the other.
pub proof fn lemma_lex_asymmetric(a: Seq<u8>, b: Seq<u8>)
    ensures
        !(lex_lt(a, b) && lex_lt(b, a)),
        !lex_lt(a, a),
    decreases a.len(),
{
    if a.len() > 0 {
        lemma_lex_asymmetric(a.skip(1), a.skip(1));
        if b.len() > 0 && a[0] == b[0] {
            lemma_lex_asymmetric(a.skip(1), b.skip(1));
        }
    }
}

/// Of two different byte strings one comes before the other.
pub proof fn lemma_lex_total(a: Seq<u8>, b: Seq<u8>)
    ensures
        a == b || lex_lt(a, b) || lex_lt(b, a),
    decreases a.len(),
{
    if a.len() == 0 || b.len() == 0 {
        if a.len() == 0 && b.len() == 0 {
            assert(a =~= b);
        }
    } else if a[0] == b[0] {
        lemma_lex_total(a.skip(1), b.skip(1));
        if a.skip(1) == b.skip(1) {
            assert(a =~= seq![a[0]] + a.skip(1));
            assert(b =~= seq![b[0]] + b.skip(1));
        }
    }
}

/// What comes before something that comes before a third comes before the
/// third.
pub proof fn lemma_lex_transitive(a: Seq<u8>, b: Seq<u8>, c: Seq<u8>)
    requires
        lex_lt(a, b),
        lex_lt(b, c),
    ensures
        lex_lt(a, c),
    decreases a.len(),
{
    if a.len() > 0 && a[0] == b[0] && b[0] == c[0] {
        lemma_lex_transitive(a.skip(1), b.skip(1), c.skip(1));
    }
}

} // verus!
