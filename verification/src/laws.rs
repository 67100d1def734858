//! What holds of the iterators on every text, proved from the model that
//! their contracts are stated over.
use vstd::prelude::*;
use vstd::utf8::*;
use crate::encoding::{
    after_first, after_last, after_nth, after_nth_back, byte_len, char_width, chars_of,
    first_item, last_item, lemma_byte_len_single, lemma_char_width_bounds, lemma_encode_concat,
    lemma_ranged_skip, lemma_shifted_ranged, lemma_window_valid, nth_back_item, nth_item, ranged,
    shifted,
};
use crate::offset::CharRangesOffset;
use crate::ranges::CharRanges;

verus! {

/// The elements in the order in which steps from the front give them,
/// until nothing is left.
pub open spec fn front_order<A>(items: Seq<A>) -> Seq<A>
    decreases items.len(),
{
    match first_item(items) {
        Some(x) => seq![x] + front_order(after_first(items)),
        None => Seq::empty(),
    }
}

/// The elements in the order in which steps from the back give them, until
/// nothing is left.
pub open spec fn back_order<A>(items: Seq<A>) -> Seq<A>
    decreases items.len(),
{
    match last_item(items) {
        Some(x) => seq![x] + back_order(after_last(items)),
        None => Seq::empty(),
    }
}

/// Stepping from the front until nothing is left gives the elements in
/// their own order.
pub proof fn lemma_front_order<A>(items: Seq<A>)
    ensures
        front_order(items) == items,
    decreases items.len(),
{
    if items.len() > 0 {
        lemma_front_order(items.drop_first());
        assert(seq![items.first()] + items.drop_first() =~= items);
    } else {
        assert(items =~= Seq::empty());
    }
}

/// Stepping from the back until nothing is left gives the elements in
/// reverse.
pub proof fn lemma_back_order<A>(items: Seq<A>)
    ensures
        back_order(items) == items.reverse(),
    decreases items.len(),
{
    if items.len() > 0 {
        lemma_back_order(items.drop_last());
        assert(seq![items.last()] + items.drop_last().reverse() =~= items.reverse());
    }
}

/// The characters of the items of a text are the text: walking a text from
/// the front to its end and putting the characters together gives the text
/// back.
pub proof fn lemma_front_traversal_spells_text(text: Seq<char>)
    ensures
        chars_of(front_order(ranged(text, 0))) == text,
{
    lemma_front_order(ranged(text, 0));
    assert(ranged(text, 0).len() == text.len());
    assert(chars_of(ranged(text, 0)) =~= text);
}

/// At every point of a traversal the characters of the items that are left
/// are the characters that are left.
pub proof fn lemma_items_spell_remaining(it: CharRanges<'_>)
    ensures
        chars_of(it.items()) == it.remaining(),
        chars_of(front_order(it.items())) == it.remaining(),
{
    lemma_front_order(it.items());
    assert(it.items().len() == it.remaining().len());
    assert(chars_of(it.items()) =~= it.remaining());
}

/// At every point of a traversal what is left is a substring of the text:
/// the characters from index `at.0` up to index `at.1`, where the first
/// `at.0` characters take the bytes before `front` and the first `at.1`
/// characters take the bytes before `back`.
pub proof fn lemma_remaining_is_substring(it: CharRanges<'_>) -> (at: (int, int))
    requires
        it.wf(),
    ensures
        0 <= at.0 <= at.1 <= it.source().len(),
        it.remaining() == it.source().subrange(at.0, at.1),
        byte_len(it.source().take(at.0)) == it.front(),
        byte_len(it.source().take(at.1)) == it.back(),
{
    it.lemma_bounds();
    let bytes = encode_utf8(it.source());
    let front = it.front();
    let back = it.back();
    lemma_window_valid(bytes, front, back);
    let upto = bytes.subrange(0, back);
    let head = decode_utf8(bytes.subrange(0, front));
    let tail = decode_utf8(bytes.subrange(back, bytes.len() as int));
    encode_utf8_decode_utf8(it.source());
    decode_utf8_split(bytes, back);
    decode_utf8_split(upto, front);
    assert(upto.subrange(0, front) =~= bytes.subrange(0, front));
    assert(upto.subrange(front, upto.len() as int) =~= bytes.subrange(front, back));
    assert(it.source() =~= head + it.remaining() + tail);
    decode_utf8_encode_utf8(bytes.subrange(0, front));
    decode_utf8_encode_utf8(upto);
    let lo = head.len() as int;
    let hi = lo + it.remaining().len();
    assert(it.source().take(lo) =~= head);
    assert(it.source().take(hi) =~= decode_utf8(upto));
    assert(it.source().subrange(lo, hi) =~= it.remaining());
    (lo, hi)
}

/// Every item that is left lies within the bytes that are left, is as wide
/// as its character, and the bytes of the text at its range are the
/// encoding of its character alone: decoding them gives that one character
/// and nothing else.
pub proof fn lemma_item_decodes_alone(it: CharRanges<'_>, i: int)
    requires
        it.wf(),
        0 <= i < it.items().len(),
    ensures
        it.front() <= it.items()[i].start < it.items()[i].end <= it.back(),
        it.items()[i].end - it.items()[i].start == char_width(it.items()[i].ch),
        encode_utf8(it.source()).subrange(it.items()[i].start, it.items()[i].end) == encode_utf8(
            seq![it.items()[i].ch],
        ),
        decode_utf8(encode_utf8(it.source()).subrange(it.items()[i].start, it.items()[i].end))
            == seq![it.items()[i].ch],
{
    it.lemma_bounds();
    let left = it.remaining();
    let bytes = encode_utf8(it.source());
    let window = bytes.subrange(it.front(), it.back());
    let before = left.take(i);
    let one = seq![left[i]];
    let after = left.skip(i + 1);
    assert(left.take(i + 1) =~= before + one);
    assert(left =~= left.take(i + 1) + after);
    lemma_encode_concat(before, one);
    lemma_encode_concat(left.take(i + 1), after);
    lemma_byte_len_single(left[i]);
    lemma_char_width_bounds(left[i]);
    let x = it.items()[i];
    assert(window.subrange(byte_len(before), byte_len(before) + byte_len(one)) =~= encode_utf8(
        one,
    ));
    assert(bytes.subrange(x.start, x.end) =~= window.subrange(
        byte_len(before),
        byte_len(before) + byte_len(one),
    ));
    encode_utf8_decode_utf8(one);
}

/// Every item that an iterator with an offset has left is an item of the
/// text moved by the offset: the bytes of the text at its range, moved
/// back, are the encoding of its character alone.
pub proof fn lemma_shifted_item_decodes_alone(it: CharRangesOffset<'_>, i: int)
    requires
        it.wf(),
        0 <= i < it.items().len(),
    ensures
        it.items()[i].end - it.items()[i].start == char_width(it.items()[i].ch),
        it.items()[i].end <= usize::MAX,
        decode_utf8(
            encode_utf8(it.inner().source()).subrange(
                it.items()[i].start - it.shift(),
                it.items()[i].end - it.shift(),
            ),
        ) == seq![it.items()[i].ch],
{
    it.lemma_bounds();
    it.inner().lemma_bounds();
    lemma_item_decodes_alone(it.inner(), i);
}

/// Walking a text from the back gives the items that walking it from the
/// front gives, in reverse.
pub proof fn lemma_back_order_reverses_front_order(text: Seq<char>)
    ensures
        back_order(ranged(text, 0)) == front_order(ranged(text, 0)).reverse(),
{
    lemma_front_order(ranged(text, 0));
    lemma_back_order(ranged(text, 0));
}

/// Skipping no element and taking the next is a plain step, from the front
/// and from the back: it gives the same element and leaves the same
/// elements.
pub proof fn lemma_nth_zero_is_step<A>(items: Seq<A>)
    ensures
        nth_item(items, 0) == first_item(items),
        after_nth(items, 0) == after_first(items),
        nth_back_item(items, 0) == last_item(items),
        after_nth_back(items, 0) == after_last(items),
{
    if items.len() > 0 {
        assert(items.skip(1) =~= items.drop_first());
        assert(items.take(items.len() - 1) =~= items.drop_last());
    } else {
        assert(items =~= Seq::empty());
    }
}

/// The elements in the order in which skipping none from the front and
/// taking the next gives them, until nothing is left.
pub open spec fn skip_none_order<A>(items: Seq<A>) -> Seq<A>
    decreases items.len(),
{
    match nth_item(items, 0) {
        Some(x) => seq![x] + skip_none_order(after_nth(items, 0)),
        None => Seq::empty(),
    }
}

/// The elements in the order in which skipping none from the back and
/// taking the next gives them, until nothing is left.
pub open spec fn skip_none_back_order<A>(items: Seq<A>) -> Seq<A>
    decreases items.len(),
{
    match nth_back_item(items, 0) {
        Some(x) => seq![x] + skip_none_back_order(after_nth_back(items, 0)),
        None => Seq::empty(),
    }
}

/// Skipping none and taking the next, again and again, gives what plain
/// steps give, from the front and from the back.
pub proof fn lemma_skip_none_order_is_plain_order<A>(items: Seq<A>)
    ensures
        skip_none_order(items) == front_order(items),
        skip_none_back_order(items) == back_order(items),
    decreases items.len(),
{
    lemma_nth_zero_is_step(items);
    if items.len() > 0 {
        lemma_skip_none_order_is_plain_order(items.drop_first());
        lemma_skip_none_order_is_plain_order(items.drop_last());
    }
}

/// Walking `text` with the offset that a prefix takes in bytes gives the
/// items that walking the prefix followed by `text` gives once the
/// prefix's characters are past.
pub proof fn lemma_offset_matches_larger_text(prefix: Seq<char>, text: Seq<char>)
    ensures
        shifted(ranged(text, 0), byte_len(prefix)) == ranged(prefix + text, 0).skip(
            prefix.len() as int,
        ),
{
    let whole = prefix + text;
    lemma_ranged_skip(whole, 0, prefix.len() as int);
    assert(whole.skip(prefix.len() as int) =~= text);
    assert(whole.take(prefix.len() as int) =~= prefix);
    lemma_shifted_ranged(text, 0, byte_len(prefix));
}

/// An iterator that stands at byte `front` of its text has the items that
/// walking what is left, as a text of its own, with the offset `front`
/// gives.
pub proof fn lemma_offset_resumes_traversal(it: CharRanges<'_>)
    ensures
        it.items() == shifted(ranged(it.remaining(), 0), it.front()),
{
    lemma_shifted_ranged(it.remaining(), 0, it.front());
}

/// An iterator with an offset has the items of the iterator inside it,
/// which are those of the characters that are left, placed where the
/// shifted front stands.
pub proof fn lemma_offset_items(it: CharRangesOffset<'_>)
    ensures
        it.items() == ranged(it.remaining(), it.inner().front() + it.shift()),
{
    lemma_shifted_ranged(it.remaining(), it.inner().front(), it.shift());
}

} // verus!
