//! Cursors over a token sequence: one yields each token, the other each pair
//! of consecutive tokens. Each holds a borrowed sequence and a position that
//! only its own `next` advances.
use vstd::prelude::*;

use crate::tokens::views;

verus! {

/// The pairs of consecutive items of `s`, in order.
pub open spec fn consecutive_pairs(s: Seq<Seq<char>>) -> Seq<(Seq<char>, Seq<char>)> {
    Seq::new((if s.len() == 0 { 0 } else { s.len() - 1 }) as nat, |i: int| (s[i], s[i + 1]))
}

/// A cursor that yields each token once, in order.
pub struct WordIterator<'a> {
    words: &'a [String],
    index: usize,
}

impl<'a> WordIterator<'a> {
    /// The tokens this cursor has yet to yield.
    pub closed spec fn remaining(&self) -> Seq<Seq<char>> {
        if self.index < self.words@.len() {
            views(self.words@).subrange(self.index as int, self.words@.len() as int)
        } else {
            Seq::empty()
        }
    }

    /// A cursor at the first of `words`.
    pub(crate) fn new(words: &'a [String]) -> (r: WordIterator<'a>)
        ensures
            r.remaining() == views(words@),
    {
        let r = WordIterator { words, index: 0 };
        assert(views(words@).subrange(0, words@.len() as int) == views(words@));
        r
    }

    /// Yields the next token, or `None` once every token has been yielded;
    /// an exhausted cursor stays exhausted.
    pub fn next(&mut self) -> (r: Option<&'a String>)
        ensures
            old(self).remaining().len() == 0 ==> r is None && final(self).remaining() == old(
                self,
            ).remaining(),
            old(self).remaining().len() > 0 ==> r is Some && r->0@ == old(self).remaining()[0]
                && final(self).remaining() == old(self).remaining().drop_first(),
    {
        if self.index < self.words.len() {
            let w = &self.words[self.index];
            self.index = self.index + 1;
            proof {
                let ghost o = old(self).remaining();
                assert(self.remaining() == o.drop_first());
            }
            Some(w)
        } else {
            None
        }
    }

    /// The number of tokens this cursor would yield before it is exhausted.
    pub fn count(self) -> (n: usize)
        ensures
            n == self.remaining().len(),
    {
        if self.index < self.words.len() {
            self.words.len() - self.index
        } else {
            0
        }
    }
}

/// A cursor that yields each pair of consecutive tokens once, in order.
pub struct WordPairIterator<'a> {
    words: &'a [String],
    index: usize,
}

impl<'a> WordPairIterator<'a> {
    /// The pairs this cursor has yet to yield.
    pub closed spec fn remaining(&self) -> Seq<(Seq<char>, Seq<char>)> {
        let pairs = consecutive_pairs(views(self.words@));
        if self.index < pairs.len() {
            pairs.subrange(self.index as int, pairs.len() as int)
        } else {
            Seq::empty()
        }
    }

    /// A cursor at the first pair of `words`.
    pub(crate) fn new(words: &'a [String]) -> (r: WordPairIterator<'a>)
        ensures
            r.remaining() == consecutive_pairs(views(words@)),
    {
        let r = WordPairIterator { words, index: 0 };
        let ghost pairs = consecutive_pairs(views(words@));
        assert(pairs.subrange(0, pairs.len() as int) == pairs);
        r
    }

    /// Yields the next pair, or `None` once fewer than two tokens remain ahead
    /// of the cursor; an exhausted cursor stays exhausted.
    pub fn next(&mut self) -> (r: Option<(&'a String, &'a String)>)
        ensures
            old(self).remaining().len() == 0 ==> r is None && final(self).remaining() == old(
                self,
            ).remaining(),
            old(self).remaining().len() > 0 ==> r is Some && ((r->0).0@, (r->0).1@) == old(
                self,
            ).remaining()[0] && final(self).remaining() == old(self).remaining().drop_first(),
    {
        if self.index < self.words.len() && self.words.len() - self.index > 1 {
            let first = &self.words[self.index];
            let second = &self.words[self.index + 1];
            self.index = self.index + 1;
            proof {
                let ghost o = old(self).remaining();
                assert(self.remaining() == o.drop_first());
            }
            Some((first, second))
        } else {
            None
        }
    }
}

} // verus!
