//! A cursor over a buffer of tokens, with a mark for backtracking.
use vstd::pervasive::cloned;
use vstd::prelude::*;

verus! {

/// A cursor over a buffer of tokens. The tokens between the mark and the
/// cursor are pending: taken, but neither extracted nor ignored yet.
pub struct Scanner<T> {
    buf: Vec<T>,
    base: usize,
    pos: usize,
}

impl<T> Scanner<T> {
    /// The scanner's invariant.
    #[verifier::type_invariant]
    pub closed spec fn wf(&self) -> bool {
        self.base <= self.pos <= self.buf.len()
    }

    /// The invariant says that the scanner is valid.
    pub proof fn lemma_valid(&self)
        requires
            self.wf(),
        ensures
            self.valid(),
    {
    }

    /// All tokens of the buffer.
    pub closed spec fn tokens(&self) -> Seq<T> {
        self.buf@
    }

    /// How many tokens lie before the mark.
    pub closed spec fn mark(&self) -> int {
        self.base as int
    }

    /// How many tokens lie before the cursor.
    pub closed spec fn taken(&self) -> int {
        self.pos as int
    }

    /// The tokens from the cursor on.
    pub open spec fn remaining(&self) -> Seq<T> {
        self.tokens().subrange(self.taken(), self.tokens().len() as int)
    }

    /// The tokens between the mark and the cursor.
    pub open spec fn pending(&self) -> Seq<T> {
        self.tokens().subrange(self.mark(), self.taken())
    }

    /// Whether the mark and the cursor are in order and within the buffer,
    /// as they are in every scanner that a program holds.
    pub open spec fn valid(&self) -> bool {
        0 <= self.mark() <= self.taken() <= self.tokens().len()
    }
}

impl<T: Clone> Scanner<T> {
    /// A scanner at the front of `buf`.
    pub fn from_buf(buf: Vec<T>) -> (r: Scanner<T>)
        ensures
            r.tokens() == buf@,
            r.mark() == 0,
            r.taken() == 0,
    {
        Scanner { buf, base: 0, pos: 0 }
    }

    /// Takes the token at the cursor, if there is one.
    pub fn next(&mut self) -> (r: Option<T>)
        ensures
            final(self).tokens() == old(self).tokens(),
            final(self).mark() == old(self).mark(),
            old(self).valid(),
            final(self).valid(),
            match r {
                Some(token) => old(self).taken() < old(self).tokens().len() && final(self).taken()
                    == old(self).taken() + 1 && cloned(
                    old(self).tokens()[old(self).taken()],
                    token,
                ),
                None => old(self).taken() == old(self).tokens().len() && final(self).taken()
                    == old(self).taken(),
            },
    {
        proof {
            use_type_invariant(&*self);
        }
        if self.pos < self.buf.len() {
            let token = self.buf[self.pos].clone();
            self.pos = self.pos + 1;
            Some(token)
        } else {
            None
        }
    }

    /// The token at the cursor, if there is one; the cursor stays.
    pub fn peek(&self) -> (r: Option<T>)
        ensures
            self.valid(),
            match r {
                Some(token) => self.taken() < self.tokens().len() && cloned(
                    self.tokens()[self.taken()],
                    token,
                ),
                None => self.taken() == self.tokens().len(),
            },
    {
        proof {
            use_type_invariant(self);
        }
        if self.pos < self.buf.len() {
            Some(self.buf[self.pos].clone())
        } else {
            None
        }
    }

    /// How many tokens lie before the cursor.
    pub fn pos(&self) -> (r: usize)
        ensures
            r == self.taken(),
            self.valid(),
    {
        proof {
            use_type_invariant(self);
        }
        self.pos
    }

    /// Moves the cursor so that `pos` tokens lie before it. A position
    /// before the mark or behind the buffer is refused and nothing changes.
    pub fn set_pos(&mut self, pos: usize) -> (r: bool)
        ensures
            final(self).tokens() == old(self).tokens(),
            final(self).mark() == old(self).mark(),
            old(self).valid(),
            final(self).valid(),
            r == (old(self).mark() <= pos <= old(self).tokens().len()),
            r ==> final(self).taken() == pos,
            !r ==> final(self).taken() == old(self).taken(),
    {
        proof {
            use_type_invariant(&*self);
        }
        if pos < self.base || pos > self.buf.len() {
            return false;
        }
        self.pos = pos;
        true
    }

    /// Forgets the pending tokens: the mark moves up to the cursor.
    pub fn ignore(&mut self)
        ensures
            final(self).tokens() == old(self).tokens(),
            final(self).taken() == old(self).taken(),
            final(self).mark() == old(self).taken(),
            old(self).valid(),
            final(self).valid(),
    {
        proof {
            use_type_invariant(&*self);
        }
        self.base = self.pos;
    }

    /// Hands out copies of the pending tokens and forgets them.
    pub fn extract(&mut self) -> (r: Vec<T>)
        ensures
            final(self).tokens() == old(self).tokens(),
            final(self).taken() == old(self).taken(),
            final(self).mark() == old(self).taken(),
            old(self).valid(),
            final(self).valid(),
            r.len() == old(self).pending().len(),
            forall|i: int| 0 <= i < r.len() ==> cloned(old(self).pending()[i], #[trigger] r[i]),
    {
        proof {
            use_type_invariant(&*self);
        }
        let mut out: Vec<T> = Vec::new();
        let mut i: usize = self.base;
        while i < self.pos
            invariant
                self.base <= i <= self.pos <= self.buf.len(),
                out.len() == i - self.base,
                forall|j: int|
                    0 <= j < out.len() ==> cloned(self.buf[self.base + j], #[trigger] out[j]),
            decreases self.pos - i,
        {
            out.push(self.buf[i].clone());
            i += 1;
        }
        self.base = self.pos;
        out
    }
}

} // verus!
