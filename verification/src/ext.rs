//! The extension trait that puts the two iterators on `str`.
use vstd::prelude::*;
use crate::encoding::{byte_len, ranged, shifted};
use crate::offset::CharRangesOffset;
use crate::ranges::CharRanges;

verus! {

/// Text that can be walked character by character with byte ranges.
pub trait CharRangesExt {
    /// The characters of the text.
    spec fn chars_view(&self) -> Seq<char>;

    /// Returns an iterator over the characters and the bytes that each
    /// occupies.
    fn char_ranges(&self) -> (r: CharRanges<'_>)
        ensures
            r.wf(),
            r.source() == self.chars_view(),
            r.front() == 0,
            r.back() == byte_len(self.chars_view()),
            r.remaining() == self.chars_view(),
            r.items() == ranged(self.chars_view(), 0),
    ;

    /// Returns an iterator over the characters and the bytes that each
    /// occupies, with `offset` added to both ends of every range.
    fn char_ranges_offset(&self, offset: usize) -> (r: CharRangesOffset<'_>)
        requires
            self.chars_view().len() > 0 ==> byte_len(self.chars_view()) + offset <= usize::MAX,
        ensures
            r.wf(),
            r.shift() == offset,
            r.inner().source() == self.chars_view(),
            r.inner().front() == 0,
            r.inner().back() == byte_len(self.chars_view()),
            r.remaining() == self.chars_view(),
            r.items() == shifted(ranged(self.chars_view(), 0), offset as int),
    {
        self.char_ranges().offset(offset)
    }
}

impl CharRangesExt for str {
    open spec fn chars_view(&self) -> Seq<char> {
        self@
    }

    fn char_ranges(&self) -> (r: CharRanges<'_>) {
        CharRanges::new(self)
    }
}

} // verus!
