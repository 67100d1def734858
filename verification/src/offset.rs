//! The iterator that shifts every range by a fixed offset.
use core::ops::Range;
use vstd::prelude::*;
use crate::encoding::{
    after_first, after_last, after_nth, after_nth_back, byte_len, first_item, found, last_item,
    nth_back_item, nth_item, ranged, shifted, spanned, Spanned,
};
use crate::ranges::CharRanges;

verus! {

/// An iterator over the characters of a string and the bytes that each
/// occupies, with a fixed offset added to both ends of every range. It is
/// for a string that is a slice of a larger one, when the ranges are wanted
/// in the larger string.
///
/// It holds a [`CharRanges`] and the offset. A clone copies the offsets,
/// never the text.
pub struct CharRangesOffset<'a> {
    iter: CharRanges<'a>,
    offset: usize,
}

impl<'a> Clone for CharRangesOffset<'a> {
    /// Copies the offsets and the reference to the text.
    fn clone(&self) -> (r: Self)
        ensures
            r == *self,
    {
        proof {
            use_type_invariant(self);
        }
        CharRangesOffset { iter: self.iter.clone(), offset: self.offset }
    }
}

impl<'a> CharRangesOffset<'a> {
    #[verifier::type_invariant]
    closed spec fn inv(self) -> bool {
        self.wf()
    }

    /// The iterator inside is well formed, and where anything is left, the
    /// shifted end of it fits a `usize`. Every iterator that the library
    /// hands out is well formed, and stays so.
    pub closed spec fn wf(&self) -> bool {
        &&& self.iter.wf()
        &&& self.iter.front() < self.iter.back() ==> self.iter.back() + self.offset <= usize::MAX
    }

    /// The iterator over the text itself, without the offset.
    pub closed spec fn inner(&self) -> CharRanges<'a> {
        self.iter
    }

    /// The offset that is added to every range.
    pub closed spec fn shift(&self) -> int {
        self.offset as int
    }

    /// The characters that are left.
    pub open spec fn remaining(&self) -> Seq<char> {
        self.inner().remaining()
    }

    /// The items that are left, front to back: those of the iterator
    /// inside, each shifted by the offset.
    pub open spec fn items(&self) -> Seq<Spanned> {
        shifted(self.inner().items(), self.shift())
    }

    /// The iterator inside is well formed, and where anything is left, the
    /// shifted ranges of all the items fit a `usize`.
    pub proof fn lemma_bounds(&self)
        requires
            self.wf(),
        ensures
            self.inner().wf(),
            0 <= self.inner().front() <= self.inner().back(),
            self.remaining().len() > 0 ==> self.inner().back() + self.shift() <= usize::MAX,
            self.items().len() == self.remaining().len(),
    {
        self.iter.lemma_bounds();
    }

    /// Puts `offset` on an iterator.
    pub(crate) fn wrap(iter: CharRanges<'a>, offset: usize) -> (r: Self)
        requires
            iter.wf(),
            iter.front() < iter.back() ==> iter.back() + offset <= usize::MAX,
        ensures
            r.wf(),
            r.inner() == iter,
            r.shift() == offset,
    {
        CharRangesOffset { iter, offset }
    }

    /// Creates an iterator over all the characters of `text`, with `offset`
    /// added to every range.
    pub fn new(offset: usize, text: &'a str) -> (r: Self)
        requires
            text@.len() > 0 ==> byte_len(text@) + offset <= usize::MAX,
        ensures
            r.wf(),
            r.shift() == offset,
            r.inner().source() == text@,
            r.inner().front() == 0,
            r.inner().back() == byte_len(text@),
            r.remaining() == text@,
            r.items() == shifted(ranged(text@, 0), offset as int),
    {
        let iter = CharRanges::new(text);
        proof {
            iter.lemma_bounds();
        }
        CharRangesOffset { iter, offset }
    }

    /// Returns the part of the text that is left. The offset plays no part
    /// in it.
    pub fn as_str(&self) -> (r: &'a str)
        ensures
            r@ == self.remaining(),
    {
        self.iter.as_str()
    }

    /// Returns the offset that the iterator was made with.
    pub fn offset(&self) -> (r: usize)
        ensures
            r == self.shift(),
    {
        self.offset
    }

    /// Takes the first of the characters that are left, with its shifted
    /// range.
    pub fn next(&mut self) -> (r: Option<(Range<usize>, char)>)
        ensures
            final(self).wf(),
            final(self).shift() == old(self).shift(),
            final(self).inner().source() == old(self).inner().source(),
            final(self).inner().back() == old(self).inner().back(),
            r is Some <==> old(self).remaining().len() > 0,
            found(r) == first_item(old(self).items()),
            final(self).items() == after_first(old(self).items()),
            final(self).remaining() == after_first(old(self).remaining()),
            match r {
                Some((range, c)) => {
                    &&& final(self).inner().front() + old(self).shift() == range.end
                    &&& c == old(self).remaining().first()
                },
                None => final(self).inner().front() == old(self).inner().front(),
            },
    {
        proof {
            use_type_invariant(&*self);
            self.lemma_bounds();
        }
        let mut inner = self.iter.clone();
        let found = inner.next();
        self.iter = inner;
        proof {
            if found is Some {
                assert(self.items() =~= old(self).items().drop_first());
            }
        }
        shift_found(found, self.offset)
    }

    /// Takes the last of the characters that are left, with its shifted
    /// range.
    pub fn next_back(&mut self) -> (r: Option<(Range<usize>, char)>)
        ensures
            final(self).wf(),
            final(self).shift() == old(self).shift(),
            final(self).inner().source() == old(self).inner().source(),
            final(self).inner().front() == old(self).inner().front(),
            r is Some <==> old(self).remaining().len() > 0,
            found(r) == last_item(old(self).items()),
            final(self).items() == after_last(old(self).items()),
            final(self).remaining() == after_last(old(self).remaining()),
            match r {
                Some((range, c)) => {
                    &&& final(self).inner().back() + old(self).shift() == range.start
                    &&& c == old(self).remaining().last()
                },
                None => final(self).inner().back() == old(self).inner().back(),
            },
    {
        proof {
            use_type_invariant(&*self);
            self.lemma_bounds();
        }
        let mut inner = self.iter.clone();
        let found = inner.next_back();
        self.iter = inner;
        proof {
            if found is Some {
                assert(self.items() =~= old(self).items().drop_last());
            }
        }
        shift_found(found, self.offset)
    }

    /// Skips `n` characters from the front and takes the one after them,
    /// with its shifted range. Where no more than `n` characters are left,
    /// all of them are skipped and nothing is returned.
    pub fn nth(&mut self, n: usize) -> (r: Option<(Range<usize>, char)>)
        ensures
            final(self).wf(),
            final(self).shift() == old(self).shift(),
            final(self).inner().source() == old(self).inner().source(),
            final(self).inner().back() == old(self).inner().back(),
            r is Some <==> n < old(self).remaining().len(),
            found(r) == nth_item(old(self).items(), n as int),
            final(self).items() == after_nth(old(self).items(), n as int),
            final(self).remaining() == after_nth(old(self).remaining(), n as int),
            match r {
                Some((range, c)) => {
                    &&& final(self).inner().front() + old(self).shift() == range.end
                    &&& c == old(self).remaining()[n as int]
                },
                None => final(self).inner().front() == old(self).inner().back(),
            },
    {
        proof {
            use_type_invariant(&*self);
            self.lemma_bounds();
        }
        let mut inner = self.iter.clone();
        let found = inner.nth(n);
        self.iter = inner;
        proof {
            if found is Some {
                assert(self.items() =~= old(self).items().skip(n + 1));
            }
        }
        shift_found(found, self.offset)
    }

    /// Skips `n` characters from the back and takes the one before them,
    /// with its shifted range. Where no more than `n` characters are left,
    /// all of them are skipped and nothing is returned.
    pub fn nth_back(&mut self, n: usize) -> (r: Option<(Range<usize>, char)>)
        ensures
            final(self).wf(),
            final(self).shift() == old(self).shift(),
            final(self).inner().source() == old(self).inner().source(),
            final(self).inner().front() == old(self).inner().front(),
            r is Some <==> n < old(self).remaining().len(),
            found(r) == nth_back_item(old(self).items(), n as int),
            final(self).items() == after_nth_back(old(self).items(), n as int),
            final(self).remaining() == after_nth_back(old(self).remaining(), n as int),
            match r {
                Some((range, c)) => {
                    &&& final(self).inner().back() + old(self).shift() == range.start
                    &&& c == old(self).remaining()[old(self).remaining().len() - 1 - n]
                },
                None => final(self).inner().back() == old(self).inner().front(),
            },
    {
        proof {
            use_type_invariant(&*self);
            self.lemma_bounds();
        }
        let mut inner = self.iter.clone();
        let found = inner.nth_back(n);
        self.iter = inner;
        proof {
            if found is Some {
                assert(self.items() =~= old(self).items().take(
                    old(self).items().len() - 1 - n,
                ));
            }
        }
        shift_found(found, self.offset)
    }

    /// Takes the last of the characters that are left, with its shifted
    /// range, in one step from the back, and leaves the iterator behind.
    pub fn last(self) -> (r: Option<(Range<usize>, char)>)
        ensures
            r is Some <==> self.remaining().len() > 0,
            found(r) == last_item(self.items()),
            r matches Some((_, c)) ==> c == self.remaining().last(),
    {
        let mut it = self;
        it.next_back()
    }

    /// Counts the characters that are left.
    pub fn count(self) -> (r: usize)
        ensures
            r == self.remaining().len(),
    {
        self.iter.count()
    }

    /// Bounds on the number of characters that are left, as the iterator
    /// inside gives them.
    pub fn size_hint(&self) -> (r: (usize, Option<usize>))
        ensures
            r.0 == (self.inner().back() - self.inner().front() + 3) / 4,
            r.1 == Some((self.inner().back() - self.inner().front()) as usize),
            r.0 <= self.remaining().len() <= self.inner().back() - self.inner().front(),
    {
        self.iter.size_hint()
    }

    /// Lists the items that are left, front to back, with their shifted
    /// ranges, and leaves the iterator where it is.
    pub fn to_vec(&self) -> (r: Vec<(Range<usize>, char)>)
        ensures
            r@.len() == self.items().len(),
            forall|i: int|
                0 <= i < r@.len() ==> spanned((#[trigger] r@[i]).0, r@[i].1) == self.items()[i],
    {
        let mut it = self.clone();
        let mut out: Vec<(Range<usize>, char)> = Vec::new();
        proof {
            use_type_invariant(self);
            assert(self.items().skip(0) =~= self.items());
        }
        loop
            invariant
                it.wf(),
                out@.len() + it.items().len() == self.items().len(),
                it.items() == self.items().skip(out@.len() as int),
                forall|i: int|
                    0 <= i < out@.len() ==> spanned((#[trigger] out@[i]).0, out@[i].1)
                        == self.items()[i],
            ensures
                out@.len() == self.items().len(),
            decreases it.items().len(),
        {
            let ghost before = it;
            match it.next() {
                Some(found) => {
                    out.push(found);
                    proof {
                        assert(before.items().drop_first() =~= self.items().skip(
                            out@.len() as int,
                        ));
                    }
                },
                None => {
                    break ;
                },
            }
        }
        out
    }
}

/// Adds `offset` to both ends of the range of an item, if there is one.
fn shift_found(found: Option<(Range<usize>, char)>, offset: usize) -> (r: Option<
    (Range<usize>, char),
>)
    requires
        found matches Some((range, _)) ==> range.end + offset <= usize::MAX && range.start
            <= range.end,
    ensures
        match found {
            Some((range, c)) => {
                &&& r matches Some((out, ch))
                &&& ch == c
                &&& out.start == range.start + offset
                &&& out.end == range.end + offset
            },
            None => r is None,
        },
{
    match found {
        Some((range, c)) => {
            let start = range.start + offset;
            let end = range.end + offset;
            Some((start..end, c))
        },
        None => None,
    }
}

} // verus!
