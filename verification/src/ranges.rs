//! The iterator over the characters of a string and their byte ranges.
use core::ops::Range;
use vstd::prelude::*;
use vstd::string::*;
use vstd::utf8::*;
use crate::decode::{decode_front, last_start, width_at};
use crate::encoding::{
    after_first, after_last, after_nth, after_nth_back, byte_len, first_item, found, last_item,
    lemma_back_step, lemma_boundary_iff, lemma_byte_len_bounds, lemma_front_step,
    lemma_ranged_first, lemma_ranged_last, lemma_window_valid, nth_back_item, nth_item, ranged,
    spanned, Spanned,
};
use crate::offset::CharRangesOffset;

verus! {

/// An iterator over the characters of a string and the bytes that each
/// occupies. It can be advanced from both ends.
///
/// It borrows the string and holds two byte offsets into it: where the
/// characters that are left begin, and where they end. A clone copies the
/// two offsets, never the text.
pub struct CharRanges<'a> {
    text: &'a str,
    front: usize,
    back: usize,
}

impl<'a> Clone for CharRanges<'a> {
    /// Copies the two offsets and the reference to the text.
    fn clone(&self) -> (r: Self)
        ensures
            r == *self,
    {
        proof {
            use_type_invariant(self);
        }
        CharRanges { text: self.text, front: self.front, back: self.back }
    }
}

impl<'a> CharRanges<'a> {
    #[verifier::type_invariant]
    closed spec fn inv(self) -> bool {
        self.wf()
    }

    /// Both offsets are character boundaries of the text, and `front` does
    /// not pass `back`. Every iterator that the library hands out is well
    /// formed, and stays so.
    pub closed spec fn wf(&self) -> bool {
        &&& self.front <= self.back <= self.text.spec_bytes().len()
        &&& is_char_boundary(self.text.spec_bytes(), self.front as int)
        &&& is_char_boundary(self.text.spec_bytes(), self.back as int)
    }

    /// The whole text that the iterator was made over.
    pub closed spec fn source(&self) -> Seq<char> {
        self.text@
    }

    /// Byte offset in the text at which the characters that are left begin.
    pub closed spec fn front(&self) -> int {
        self.front as int
    }

    /// Byte offset in the text at which the characters that are left end.
    pub closed spec fn back(&self) -> int {
        self.back as int
    }

    /// The characters that are left: the decoding of the text's bytes
    /// between the two offsets.
    pub open spec fn remaining(&self) -> Seq<char> {
        decode_utf8(encode_utf8(self.source()).subrange(self.front(), self.back()))
    }

    /// The items that are left, front to back.
    pub open spec fn items(&self) -> Seq<Spanned> {
        ranged(self.remaining(), self.front())
    }

    /// The offsets lie within the text, in order, and the characters that
    /// are left fill the bytes between them.
    pub proof fn lemma_bounds(&self)
        requires
            self.wf(),
        ensures
            0 <= self.front() <= self.back() <= byte_len(self.source()),
            self.back() <= usize::MAX,
            valid_utf8(encode_utf8(self.source())),
            is_char_boundary(encode_utf8(self.source()), self.front()),
            is_char_boundary(encode_utf8(self.source()), self.back()),
            byte_len(self.remaining()) == self.back() - self.front(),
            encode_utf8(self.remaining()) == encode_utf8(self.source()).subrange(
                self.front(),
                self.back(),
            ),
            self.items().len() == self.remaining().len(),
            self.front() == self.back() <==> self.remaining().len() == 0,
    {
        let bytes = encode_utf8(self.source());
        encode_utf8_valid_utf8(self.source());
        lemma_window_valid(bytes, self.front(), self.back());
        decode_utf8_encode_utf8(bytes.subrange(self.front(), self.back()));
        if self.front() < self.back() {
            lemma_front_step(bytes, self.front(), self.back());
        }
    }

    /// Creates an iterator over all the characters of `text`.
    pub fn new(text: &'a str) -> (r: Self)
        ensures
            r.wf(),
            r.source() == text@,
            r.front() == 0,
            r.back() == byte_len(text@),
            r.remaining() == text@,
            r.items() == ranged(text@, 0),
    {
        let back = text.as_bytes().len();
        proof {
            let bytes = encode_utf8(text@);
            encode_utf8_valid_utf8(text@);
            is_char_boundary_start_end_of_seq(bytes);
            assert(bytes.subrange(0, bytes.len() as int) =~= bytes);
            encode_utf8_decode_utf8(text@);
        }
        CharRanges { text, front: 0, back }
    }

    /// Returns the part of the text that is left: what has not yet been
    /// taken from either end.
    pub fn as_str(&self) -> (r: &'a str)
        ensures
            r@ == self.remaining(),
            encode_utf8(r@) == encode_utf8(self.source()).subrange(self.front(), self.back()),
    {
        proof {
            use_type_invariant(self);
            self.lemma_bounds();
            lemma_window_valid(self.text.spec_bytes(), self.front as int, self.back as int);
        }
        let (head, _) = self.text.split_at(self.back);
        let (_, rest) = head.split_at(self.front);
        proof {
            assert(rest.spec_bytes() =~= self.text.spec_bytes().subrange(
                self.front as int,
                self.back as int,
            ));
            encode_utf8_decode_utf8(rest@);
        }
        rest
    }

    /// Takes the first of the characters that are left, with its range.
    pub fn next(&mut self) -> (r: Option<(Range<usize>, char)>)
        ensures
            final(self).wf(),
            final(self).source() == old(self).source(),
            final(self).back() == old(self).back(),
            r is Some <==> old(self).remaining().len() > 0,
            found(r) == first_item(old(self).items()),
            final(self).items() == after_first(old(self).items()),
            final(self).remaining() == after_first(old(self).remaining()),
            match r {
                Some((range, c)) => {
                    &&& old(self).front() == range.start < range.end <= old(self).back()
                    &&& final(self).front() == range.end
                    &&& c == old(self).remaining().first()
                },
                None => final(self).front() == old(self).front(),
            },
    {
        proof {
            use_type_invariant(&*self);
            self.lemma_bounds();
        }
        if self.front >= self.back {
            return None;
        }
        let bytes = self.text.as_bytes();
        let start = self.front;
        proof {
            lemma_front_step(bytes@, start as int, self.back as int);
        }
        let (c, len) = decode_front(bytes, start, self.back);
        let end = start + len;
        self.front = end;
        proof {
            lemma_ranged_first(old(self).remaining(), start as int);
        }
        Some((start..end, c))
    }

    /// Takes the last of the characters that are left, with its range.
    pub fn next_back(&mut self) -> (r: Option<(Range<usize>, char)>)
        ensures
            final(self).wf(),
            final(self).source() == old(self).source(),
            final(self).front() == old(self).front(),
            r is Some <==> old(self).remaining().len() > 0,
            found(r) == last_item(old(self).items()),
            final(self).items() == after_last(old(self).items()),
            final(self).remaining() == after_last(old(self).remaining()),
            match r {
                Some((range, c)) => {
                    &&& old(self).front() <= range.start < range.end == old(self).back()
                    &&& final(self).back() == range.start
                    &&& c == old(self).remaining().last()
                },
                None => final(self).back() == old(self).back(),
            },
    {
        proof {
            use_type_invariant(&*self);
            self.lemma_bounds();
        }
        if self.front >= self.back {
            return None;
        }
        let bytes = self.text.as_bytes();
        let end = self.back;
        proof {
            lemma_boundary_iff(bytes@, self.front as int);
        }
        let start = last_start(bytes, self.front, end);
        proof {
            lemma_back_step(bytes@, self.front as int, start as int, end as int);
        }
        let (c, _) = decode_front(bytes, start, end);
        self.back = start;
        proof {
            lemma_ranged_last(old(self).remaining(), self.front as int);
        }
        Some((start..end, c))
    }

    /// Skips `n` characters from the front and takes the one after them.
    /// The skipped characters are measured by their leading byte alone.
    /// Where no more than `n` characters are left, all of them are skipped
    /// and nothing is returned.
    pub fn nth(&mut self, n: usize) -> (r: Option<(Range<usize>, char)>)
        ensures
            final(self).wf(),
            final(self).source() == old(self).source(),
            final(self).back() == old(self).back(),
            r is Some <==> n < old(self).remaining().len(),
            found(r) == nth_item(old(self).items(), n as int),
            final(self).items() == after_nth(old(self).items(), n as int),
            final(self).remaining() == after_nth(old(self).remaining(), n as int),
            match r {
                Some((range, c)) => {
                    &&& old(self).front() <= range.start < range.end <= old(self).back()
                    &&& final(self).front() == range.end
                    &&& c == old(self).remaining()[n as int]
                },
                None => final(self).front() == old(self).back(),
            },
    {
        proof {
            use_type_invariant(&*self);
            self.lemma_bounds();
        }
        let bytes = self.text.as_bytes();
        let mut k: usize = 0;
        while k < n && self.front < self.back
            invariant
                self.wf(),
                bytes@ == encode_utf8(self.source()),
                self.source() == old(self).source(),
                self.back() == old(self).back(),
                old(self).front() <= self.front(),
                k <= n,
                k <= old(self).remaining().len(),
                old(self).items().len() == old(self).remaining().len(),
                self.remaining() == old(self).remaining().skip(k as int),
                self.items() == old(self).items().skip(k as int),
            decreases self.back - self.front,
        {
            proof {
                self.lemma_bounds();
                lemma_front_step(bytes@, self.front as int, self.back as int);
                lemma_ranged_first(self.remaining(), self.front as int);
            }
            let ghost before = *self;
            let width = width_at(bytes, self.front);
            self.front = self.front + width;
            k = k + 1;
            proof {
                assert(before.remaining().drop_first() =~= old(self).remaining().skip(k as int));
                assert(before.items().drop_first() =~= old(self).items().skip(k as int));
            }
        }
        let ghost before = *self;
        proof {
            before.lemma_bounds();
        }
        let r = self.next();
        proof {
            if r is Some {
                assert(before.remaining().drop_first() =~= old(self).remaining().skip(n + 1));
                assert(before.items().drop_first() =~= old(self).items().skip(n + 1));
            }
        }
        r
    }

    /// Skips `n` characters from the back and takes the one before them.
    /// The skipped characters are only measured, not decoded. Where no more
    /// than `n` characters are left, all of them are skipped and nothing is
    /// returned.
    pub fn nth_back(&mut self, n: usize) -> (r: Option<(Range<usize>, char)>)
        ensures
            final(self).wf(),
            final(self).source() == old(self).source(),
            final(self).front() == old(self).front(),
            r is Some <==> n < old(self).remaining().len(),
            found(r) == nth_back_item(old(self).items(), n as int),
            final(self).items() == after_nth_back(old(self).items(), n as int),
            final(self).remaining() == after_nth_back(old(self).remaining(), n as int),
            match r {
                Some((range, c)) => {
                    &&& old(self).front() <= range.start < range.end <= old(self).back()
                    &&& final(self).back() == range.start
                    &&& c == old(self).remaining()[old(self).remaining().len() - 1 - n]
                },
                None => final(self).back() == old(self).front(),
            },
    {
        proof {
            use_type_invariant(&*self);
            self.lemma_bounds();
        }
        let bytes = self.text.as_bytes();
        let ghost total = old(self).remaining().len() as int;
        let mut k: usize = 0;
        while k < n && self.front < self.back
            invariant
                self.wf(),
                bytes@ == encode_utf8(self.source()),
                self.source() == old(self).source(),
                self.front() == old(self).front(),
                self.back() <= old(self).back(),
                k <= n,
                k <= total,
                total == old(self).remaining().len(),
                total == old(self).items().len(),
                self.remaining() == old(self).remaining().take(total - k),
                self.items() == old(self).items().take(total - k),
            decreases self.back - self.front,
        {
            proof {
                self.lemma_bounds();
                lemma_boundary_iff(bytes@, self.front as int);
            }
            let ghost before = *self;
            let start = last_start(bytes, self.front, self.back);
            proof {
                lemma_back_step(bytes@, self.front as int, start as int, self.back as int);
                lemma_ranged_last(self.remaining(), self.front as int);
            }
            self.back = start;
            k = k + 1;
            proof {
                assert(before.remaining().drop_last() =~= old(self).remaining().take(total - k));
                assert(before.items().drop_last() =~= old(self).items().take(total - k));
            }
        }
        let ghost before = *self;
        proof {
            before.lemma_bounds();
        }
        let r = self.next_back();
        proof {
            if r is Some {
                assert(before.remaining().drop_last() =~= old(self).remaining().take(
                    total - 1 - n,
                ));
                assert(before.items().drop_last() =~= old(self).items().take(total - 1 - n));
            }
        }
        r
    }

    /// Takes the last of the characters that are left, in one step from the
    /// back, and leaves the iterator behind.
    pub fn last(self) -> (r: Option<(Range<usize>, char)>)
        ensures
            r is Some <==> self.remaining().len() > 0,
            found(r) == last_item(self.items()),
            r matches Some((range, c)) ==> {
                &&& self.front() <= range.start < range.end == self.back()
                &&& c == self.remaining().last()
            },
    {
        let mut it = self;
        it.next_back()
    }

    /// Counts the characters that are left, by their leading bytes alone.
    pub fn count(self) -> (r: usize)
        ensures
            r == self.remaining().len(),
    {
        proof {
            use_type_invariant(&self);
            self.lemma_bounds();
        }
        let bytes = self.text.as_bytes();
        let mut at: usize = self.front;
        let mut seen: usize = 0;
        while at < self.back
            invariant
                self.wf(),
                bytes@ == encode_utf8(self.source()),
                self.front() <= at <= self.back() <= bytes@.len(),
                is_char_boundary(bytes@, at as int),
                seen <= at - self.front(),
                seen + decode_utf8(bytes@.subrange(at as int, self.back())).len()
                    == self.remaining().len(),
            decreases self.back - at,
        {
            proof {
                self.lemma_bounds();
                lemma_front_step(bytes@, at as int, self.back as int);
            }
            let width = width_at(bytes, at);
            at = at + width;
            seen = seen + 1;
        }
        proof {
            assert(bytes@.subrange(at as int, self.back()) =~= Seq::<u8>::empty());
        }
        seen
    }

    /// Bounds on the number of characters that are left, from the number
    /// of bytes that are left alone: a quarter of it, rounded up, and all
    /// of it.
    pub fn size_hint(&self) -> (r: (usize, Option<usize>))
        ensures
            r.0 == (self.back() - self.front() + 3) / 4,
            r.1 == Some((self.back() - self.front()) as usize),
            r.0 <= self.remaining().len() <= self.back() - self.front(),
    {
        proof {
            use_type_invariant(self);
            self.lemma_bounds();
            lemma_byte_len_bounds(self.remaining());
        }
        let len = self.back - self.front;
        let lower = if len % 4 == 0 {
            len / 4
        } else {
            len / 4 + 1
        };
        (lower, Some(len))
    }

    /// Lists the items that are left, front to back, and leaves the
    /// iterator where it is.
    pub fn to_vec(&self) -> (r: Vec<(Range<usize>, char)>)
        ensures
            r@.len() == self.items().len(),
            forall|i: int|
                0 <= i < r@.len() ==> spanned((#[trigger] r@[i]).0, r@[i].1) == self.items()[i],
    {
        let mut it = self.clone();
        let mut out: Vec<(Range<usize>, char)> = Vec::new();
        proof {
            use_type_invariant(self);
            assert(self.items().skip(0) =~= self.items());
        }
        loop
            invariant
                it.wf(),
                out@.len() + it.items().len() == self.items().len(),
                it.items() == self.items().skip(out@.len() as int),
                forall|i: int|
                    0 <= i < out@.len() ==> spanned((#[trigger] out@[i]).0, out@[i].1)
                        == self.items()[i],
            ensures
                out@.len() == self.items().len(),
            decreases it.items().len(),
        {
            let ghost before = it;
            match it.next() {
                Some(found) => {
                    out.push(found);
                    proof {
                        assert(before.items().drop_first() =~= self.items().skip(
                            out@.len() as int,
                        ));
                    }
                },
                None => {
                    break ;
                },
            }
        }
        out
    }

    /// Turns the iterator into one that adds `offset` to both ends of every
    /// range that it gives from here on.
    pub fn offset(self, offset: usize) -> (r: CharRangesOffset<'a>)
        requires
            self.front() < self.back() ==> self.back() + offset <= usize::MAX,
        ensures
            r.wf(),
            r.inner() == self,
            r.shift() == offset,
    {
        proof {
            use_type_invariant(&self);
        }
        CharRangesOffset::wrap(self, offset)
    }
}

} // verus!
