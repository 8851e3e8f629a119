use vstd::prelude::*;
use crate::bytes::{
    find_pair, first_index, lemma_find_pair_is, lemma_first_index_is, pair_at, through,
};
use crate::error::Error;

verus! {

/// A reading position over an owned buffer. Its view is the bytes that are
/// still to be read.
pub struct Cursor {
    buf: Vec<u8>,
    pos: usize,
}

impl View for Cursor {
    type V = Seq<u8>;

    closed spec fn view(&self) -> Seq<u8> {
        self.buf@.skip(self.pos as int)
    }
}

impl Cursor {
    #[verifier::type_invariant]
    spec fn in_bounds(&self) -> bool {
        self.pos <= self.buf@.len()
    }

    /// A cursor at the start of `buf`.
    pub fn new(buf: Vec<u8>) -> (c: Cursor)
        ensures
            c@ == buf@,
    {
        Cursor { buf, pos: 0 }
    }

    /// The number of bytes that are still to be read.
    pub fn remaining(&self) -> (n: usize)
        ensures
            n == self@.len(),
    {
        proof {
            use_type_invariant(self);
        }
        self.buf.len() - self.pos
    }

    /// Reads through the first `delim`, which is the last byte of the result,
    /// or to the end of the input where there is none.
    pub fn read_until(&mut self, delim: u8) -> (out: Vec<u8>)
        ensures
            out@ == old(self)@.take(through(old(self)@, delim)),
            final(self)@ == old(self)@.skip(through(old(self)@, delim)),
    {
        proof {
            use_type_invariant(&*self);
        }
        let mut out: Vec<u8> = Vec::new();
        let ghost start = self.pos as int;
        let ghost rem = self@;
        let mut done = false;
        while !done && self.pos < self.buf.len()
            invariant
                0 <= start <= self.pos <= self.buf@.len(),
                rem == self.buf@.skip(start),
                rem.len() == self.buf@.len() - start,
                out@ == rem.take(self.pos - start),
                !done ==> forall|i: int| 0 <= i < self.pos - start ==> rem[i] != delim,
                done ==> self.pos - start == first_index(rem, delim) + 1 && first_index(rem, delim) < rem.len(),
            decreases self.buf@.len() - self.pos + (if done { 0int } else { 1int }),
        {
            let b = self.buf[self.pos];
            out.push(b);
            assert(rem[self.pos - start] == b);
            assert(rem.take(self.pos - start + 1) == rem.take(self.pos - start).push(b));
            if b == delim {
                proof {
                    lemma_first_index_is(rem, delim, self.pos - start);
                }
                done = true;
            }
            self.pos = self.pos + 1;
        }
        proof {
            if !done {
                lemma_first_index_is(rem, delim, rem.len() as int);
            }
            let n = through(rem, delim);
            assert(self.buf@.skip(self.pos as int) == rem.skip(n));
        }
        out
    }

    /// Reads exactly `n` bytes. Where fewer are left the read fails and the
    /// cursor stays where it was.
    pub fn read_exact(&mut self, n: usize) -> (r: Result<Vec<u8>, Error>)
        ensures
            n <= old(self)@.len() ==> r is Ok,
            match r {
                Ok(out) => {
                    &&& n <= old(self)@.len()
                    &&& out@ == old(self)@.take(n as int)
                    &&& final(self)@ == old(self)@.skip(n as int)
                },
                Err(e) => {
                    &&& e == Error::IOError
                    &&& n > old(self)@.len()
                    &&& final(self)@ == old(self)@
                },
            },
    {
        proof {
            use_type_invariant(&*self);
        }
        if self.buf.len() - self.pos < n {
            return Err(Error::IOError);
        }
        let ghost start = self.pos as int;
        let ghost rem = self@;
        let end: usize = self.pos + n;
        let mut out: Vec<u8> = Vec::new();
        while self.pos < end
            invariant
                0 <= start <= self.pos <= end <= self.buf@.len(),
                rem == self.buf@.skip(start),
                out@ == rem.take(self.pos - start),
            decreases end - self.pos,
        {
            let b = self.buf[self.pos];
            out.push(b);
            assert(rem.take(self.pos - start + 1) == rem.take(self.pos - start).push(b));
            self.pos = self.pos + 1;
        }
        proof {
            assert(self.buf@.skip(self.pos as int) == rem.skip(n as int));
        }
        Ok(out)
    }

    /// Reads up to the first place where `a` stands right before `b`, and
    /// steps over the pair. Where the pair stands nowhere the read fails and
    /// the cursor stays where it was.
    pub fn read_until_pair(&mut self, a: u8, b: u8) -> (r: Option<Vec<u8>>)
        ensures
            r is Some <==> find_pair(old(self)@, a, b) < old(self)@.len(),
            match r {
                Some(out) => {
                    &&& out@ == old(self)@.take(find_pair(old(self)@, a, b))
                    &&& final(self)@ == old(self)@.skip(find_pair(old(self)@, a, b) + 2)
                },
                None => final(self)@ == old(self)@,
            },
    {
        proof {
            use_type_invariant(&*self);
        }
        let ghost start = self.pos as int;
        let ghost rem = self@;
        let mut i: usize = self.pos;
        while i < self.buf.len()
            invariant
                0 <= start <= i <= self.buf@.len(),
                start == self.pos,
                rem == old(self)@,
                rem == self.buf@.skip(start),
                rem.len() == self.buf@.len() - start,
                forall|k: int| 0 <= k < i - start ==> !#[trigger] pair_at(rem, k, a, b),
            decreases self.buf@.len() - i,
        {
            if self.buf[i] == a && self.buf.len() - i > 1 && self.buf[i + 1] == b {
                assert(pair_at(rem, i - start, a, b));
                proof {
                    lemma_find_pair_is(rem, a, b, i - start);
                }
                let n: usize = i - self.pos;
                let out = match self.read_exact(n) {
                    Ok(out) => out,
                    Err(_) => return None,
                };
                match self.read_exact(2) {
                    Ok(_) => {
                        assert(rem.skip(n as int).skip(2) == rem.skip(n + 2));
                        return Some(out);
                    },
                    Err(_) => return None,
                }
            }
            assert(!pair_at(rem, i - start, a, b));
            i = i + 1;
        }
        proof {
            lemma_find_pair_is(rem, a, b, rem.len() as int);
        }
        None
    }

    /// Reads all that is left.
    pub fn read_to_end(&mut self) -> (out: Vec<u8>)
        ensures
            out@ == old(self)@,
            final(self)@ == Seq::<u8>::empty(),
    {
        proof {
            use_type_invariant(&*self);
        }
        let n = self.buf.len() - self.pos;
        match self.read_exact(n) {
            Ok(out) => {
                assert(old(self)@.take(n as int) == old(self)@);
                assert(old(self)@.skip(n as int) == Seq::<u8>::empty());
                out
            },
            Err(_) => Vec::new(),
        }
    }
}

} // verus!
