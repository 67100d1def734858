//! The mathematical model: encoded widths, byte offsets, and the ranged
//! items of a character sequence, with the facts about UTF-8 that the
//! iterators rest on.
use vstd::prelude::*;
use vstd::utf8::*;

verus! {

/// Number of bytes that `c` takes in UTF-8.
pub open spec fn char_width(c: char) -> int {
    encode_scalar(c as u32).len() as int
}

/// Number of bytes that `chars` takes in UTF-8.
pub open spec fn byte_len(chars: Seq<char>) -> int {
    encode_utf8(chars).len() as int
}

/// A character with the half-open byte range `start..end` that it occupies.
pub ghost struct Spanned {
    pub start: int,
    pub end: int,
    pub ch: char,
}

/// The item of the character `ch` that occupies the bytes `start..end`.
pub open spec fn item(start: int, end: int, ch: char) -> Spanned {
    Spanned { start, end, ch }
}

/// The items of `chars` when its first byte stands at offset `base`: item
/// `i` is character `i` with the bytes that it occupies.
pub open spec fn ranged(chars: Seq<char>, base: int) -> Seq<Spanned> {
    Seq::new(
        chars.len(),
        |i: int|
            item(base + byte_len(chars.take(i)), base + byte_len(chars.take(i + 1)), chars[i]),
    )
}

/// The item that a range and a character stand for.
pub open spec fn spanned(range: core::ops::Range<usize>, ch: char) -> Spanned {
    item(range.start as int, range.end as int, ch)
}

/// The items with `by` added to both ends of every range.
pub open spec fn shifted(items: Seq<Spanned>, by: int) -> Seq<Spanned> {
    Seq::new(items.len(), |i: int| item(items[i].start + by, items[i].end + by, items[i].ch))
}

/// What a step of an iterator gave, as an item of the model.
pub open spec fn found(r: Option<(core::ops::Range<usize>, char)>) -> Option<Spanned> {
    match r {
        Some((range, ch)) => Some(spanned(range, ch)),
        None => None,
    }
}

/// What a step from the front gives: the first element, if there is one.
pub open spec fn first_item<A>(items: Seq<A>) -> Option<A> {
    if items.len() > 0 {
        Some(items.first())
    } else {
        None
    }
}

/// What a step from the front leaves: all but the first element.
pub open spec fn after_first<A>(items: Seq<A>) -> Seq<A> {
    if items.len() > 0 {
        items.drop_first()
    } else {
        items
    }
}

/// What a step from the back gives: the last element, if there is one.
pub open spec fn last_item<A>(items: Seq<A>) -> Option<A> {
    if items.len() > 0 {
        Some(items.last())
    } else {
        None
    }
}

/// What a step from the back leaves: all but the last element.
pub open spec fn after_last<A>(items: Seq<A>) -> Seq<A> {
    if items.len() > 0 {
        items.drop_last()
    } else {
        items
    }
}

/// What skipping `n` elements from the front and taking the next gives:
/// element `n`, if there are more than `n`.
pub open spec fn nth_item<A>(items: Seq<A>, n: int) -> Option<A> {
    if 0 <= n < items.len() {
        Some(items[n])
    } else {
        None
    }
}

/// What skipping `n` elements from the front and taking the next leaves:
/// the elements after element `n`, or nothing where there are no more than
/// `n`.
pub open spec fn after_nth<A>(items: Seq<A>, n: int) -> Seq<A> {
    if 0 <= n < items.len() {
        items.skip(n + 1)
    } else {
        Seq::empty()
    }
}

/// What skipping `n` elements from the back and taking the next gives: the
/// element that has `n` elements after it, if there are more than `n`.
pub open spec fn nth_back_item<A>(items: Seq<A>, n: int) -> Option<A> {
    if 0 <= n < items.len() {
        Some(items[items.len() - 1 - n])
    } else {
        None
    }
}

/// What skipping `n` elements from the back and taking the next leaves: the
/// elements before the one taken, or nothing where there are no more than
/// `n`.
pub open spec fn after_nth_back<A>(items: Seq<A>, n: int) -> Seq<A> {
    if 0 <= n < items.len() {
        items.take(items.len() - 1 - n)
    } else {
        Seq::empty()
    }
}

/// The characters of a sequence of items, in order.
pub open spec fn chars_of(items: Seq<Spanned>) -> Seq<char> {
    Seq::new(items.len(), |i: int| items[i].ch)
}

/// Every character is one to four bytes wide.
pub proof fn lemma_char_width_bounds(c: char)
    ensures
        1 <= char_width(c) <= 4,
{
    char_is_scalar(c);
}

/// A single character encodes to `char_width` bytes.
pub proof fn lemma_byte_len_single(c: char)
    ensures
        byte_len(seq![c]) == char_width(c),
{
    reveal_with_fuel(encode_utf8, 2);
    assert(seq![c].drop_first() =~= Seq::<char>::empty());
}

/// A sequence of characters takes at least one byte and at most four bytes
/// for each character.
pub proof fn lemma_byte_len_bounds(chars: Seq<char>)
    ensures
        chars.len() <= byte_len(chars) <= 4 * chars.len(),
    decreases chars.len(),
{
    if chars.len() > 0 {
        lemma_char_width_bounds(chars[0]);
        lemma_byte_len_bounds(chars.drop_first());
    }
}

/// Encoding distributes over concatenation.
pub proof fn lemma_encode_concat(a: Seq<char>, b: Seq<char>)
    ensures
        encode_utf8(a + b) == encode_utf8(a) + encode_utf8(b),
        byte_len(a + b) == byte_len(a) + byte_len(b),
    decreases a.len(),
{
    if a.len() == 0 {
        assert(a + b =~= b);
        assert(encode_utf8(a) + encode_utf8(b) =~= encode_utf8(b));
    } else {
        lemma_encode_concat(a.drop_first(), b);
        assert((a + b).drop_first() =~= a.drop_first() + b);
        assert(encode_utf8(a + b) =~= encode_utf8(a) + encode_utf8(b));
    }
}

/// The items that are left after the first `k`: those of the remaining
/// characters, starting where the first `k` characters end.
pub proof fn lemma_ranged_skip(chars: Seq<char>, base: int, k: int)
    requires
        0 <= k <= chars.len(),
    ensures
        ranged(chars, base).skip(k) == ranged(chars.skip(k), base + byte_len(chars.take(k))),
{
    let left = ranged(chars, base).skip(k);
    let right = ranged(chars.skip(k), base + byte_len(chars.take(k)));
    assert(ranged(chars, base).len() == chars.len());
    assert(left.len() == chars.len() - k);
    assert forall|i: int| 0 <= i < left.len() implies left[i] == right[i] by {
        lemma_encode_concat(chars.take(k), chars.skip(k).take(i));
        lemma_encode_concat(chars.take(k), chars.skip(k).take(i + 1));
        assert(chars.take(k + i) =~= chars.take(k) + chars.skip(k).take(i));
        assert(chars.take(k + i + 1) =~= chars.take(k) + chars.skip(k).take(i + 1));
    }
    assert(left =~= right);
}

/// The first `k` items are the items of the first `k` characters.
pub proof fn lemma_ranged_take(chars: Seq<char>, base: int, k: int)
    requires
        0 <= k <= chars.len(),
    ensures
        ranged(chars, base).take(k) == ranged(chars.take(k), base),
{
    let left = ranged(chars, base).take(k);
    let right = ranged(chars.take(k), base);
    assert(ranged(chars, base).len() == chars.len());
    assert(left.len() == k);
    assert forall|i: int| 0 <= i < left.len() implies left[i] == right[i] by {
        assert(chars.take(k).take(i) =~= chars.take(i));
        assert(chars.take(k).take(i + 1) =~= chars.take(i + 1));
    }
    assert(left =~= right);
}

/// The first item starts at `base` and is as wide as the first character.
pub proof fn lemma_ranged_first(chars: Seq<char>, base: int)
    requires
        chars.len() > 0,
    ensures
        ranged(chars, base)[0].start == base,
        ranged(chars, base)[0].end == base + char_width(chars[0]),
        ranged(chars, base)[0].ch == chars[0],
        ranged(chars, base).drop_first() == ranged(
            chars.drop_first(),
            base + char_width(chars[0]),
        ),
{
    assert(ranged(chars, base).len() == chars.len());
    assert(chars.take(0) =~= Seq::<char>::empty());
    assert(chars.take(1) =~= seq![chars[0]]);
    lemma_byte_len_single(chars[0]);
    lemma_ranged_skip(chars, base, 1);
    assert(chars.skip(1) =~= chars.drop_first());
    assert(ranged(chars, base).skip(1) =~= ranged(chars, base).drop_first());
}

/// The last item ends where the characters end and is as wide as the last
/// character.
pub proof fn lemma_ranged_last(chars: Seq<char>, base: int)
    requires
        chars.len() > 0,
    ensures
        ranged(chars, base).last().start == base + byte_len(chars) - char_width(chars.last()),
        ranged(chars, base).last().end == base + byte_len(chars),
        ranged(chars, base).last().ch == chars.last(),
        ranged(chars, base).drop_last() == ranged(chars.drop_last(), base),
{
    let n = chars.len() as int;
    assert(ranged(chars, base).len() == n);
    assert(chars.take(n) =~= chars);
    assert(chars.take(n - 1) =~= chars.drop_last());
    assert(chars =~= chars.drop_last() + seq![chars.last()]);
    lemma_encode_concat(chars.drop_last(), seq![chars.last()]);
    lemma_byte_len_single(chars.last());
    lemma_ranged_take(chars, base, n - 1);
    assert(ranged(chars, base).take(n - 1) =~= ranged(chars, base).drop_last());
}

/// Shifting the items of a character sequence is the same as moving the
/// offset at which its first byte stands.
pub proof fn lemma_shifted_ranged(chars: Seq<char>, base: int, by: int)
    ensures
        shifted(ranged(chars, base), by) == ranged(chars, base + by),
{
    assert(ranged(chars, base).len() == chars.len());
    assert(shifted(ranged(chars, base), by) =~= ranged(chars, base + by));
}

/// In valid UTF-8 an index is a character boundary exactly when it is the
/// end of the bytes or the byte there is no continuation byte.
pub proof fn lemma_boundary_iff(bytes: Seq<u8>, i: int)
    requires
        valid_utf8(bytes),
        0 <= i <= bytes.len(),
    ensures
        is_char_boundary(bytes, i) <==> (i == bytes.len() || !is_continuation_byte(bytes[i])),
{
    if i == bytes.len() {
        is_char_boundary_start_end_of_seq(bytes);
    } else {
        is_char_boundary_iff_not_is_continuation_byte(bytes, i);
    }
}

/// The bytes between two character boundaries are valid UTF-8 on their own,
/// and so are the bytes before and after them.
pub proof fn lemma_window_valid(bytes: Seq<u8>, lo: int, hi: int)
    requires
        valid_utf8(bytes),
        0 <= lo <= hi <= bytes.len(),
        is_char_boundary(bytes, lo),
        is_char_boundary(bytes, hi),
    ensures
        valid_utf8(bytes.subrange(0, lo)),
        valid_utf8(bytes.subrange(0, hi)),
        valid_utf8(bytes.subrange(lo, hi)),
        valid_utf8(bytes.subrange(hi, bytes.len() as int)),
        is_char_boundary(bytes.subrange(0, hi), lo),
{
    valid_utf8_split(bytes, lo);
    valid_utf8_split(bytes, hi);
    let head = bytes.subrange(0, hi);
    lemma_boundary_iff(bytes, lo);
    lemma_boundary_iff(head, lo);
    valid_utf8_split(head, lo);
    assert(head.subrange(lo, head.len() as int) =~= bytes.subrange(lo, hi));
}

/// Taking the first scalar off a window between two boundaries: it ends
/// within the window, at a boundary, and the window decodes to its
/// character followed by the decoding of what is left.
pub proof fn lemma_front_step(bytes: Seq<u8>, lo: int, hi: int)
    requires
        valid_utf8(bytes),
        0 <= lo < hi <= bytes.len(),
        is_char_boundary(bytes, lo),
        is_char_boundary(bytes, hi),
    ensures
        valid_first_scalar(bytes.subrange(lo, hi)),
        ({
            let window = bytes.subrange(lo, hi);
            let n = length_of_first_scalar(window);
            let c = decode_first_scalar(window) as char;
            &&& 1 <= n <= 4
            &&& lo + n <= hi
            &&& is_char_boundary(bytes, lo + n)
            &&& char_width(c) == n
            &&& decode_utf8(window) == seq![c] + decode_utf8(bytes.subrange(lo + n, hi))
            &&& decode_utf8(window).len() > 0
            &&& decode_utf8(window)[0] == c
            &&& decode_utf8(window).drop_first() == decode_utf8(bytes.subrange(lo + n, hi))
        }),
{
    reveal_with_fuel(valid_utf8, 2);
    lemma_window_valid(bytes, lo, hi);
    let window = bytes.subrange(lo, hi);
    assert(valid_first_scalar(window));
    let n = length_of_first_scalar(window);
    let c = decode_first_scalar(window) as char;
    let rest = pop_first_scalar(window);
    assert(rest =~= bytes.subrange(lo + n, hi));
    decode_utf8_first_scalar(window);
    assert(take_first_scalar(window).len() == n);
    if lo + n < hi {
        assert(valid_first_scalar(rest));
        assert(rest[0] == bytes[lo + n]);
    }
    lemma_boundary_iff(bytes, lo + n);
    lemma_boundary_iff(bytes, hi);
    assert(decode_utf8(window).drop_first() =~= decode_utf8(rest));
}

/// Taking the last scalar off a window between two boundaries, where `p`
/// is the last byte of the window that is no continuation byte: the
/// window's bytes from `p` on are exactly one scalar, and the window decodes
/// to the decoding of what stands before `p` followed by its character.
pub proof fn lemma_back_step(bytes: Seq<u8>, lo: int, p: int, hi: int)
    requires
        valid_utf8(bytes),
        0 <= lo <= p < hi <= bytes.len(),
        is_char_boundary(bytes, lo),
        is_char_boundary(bytes, hi),
        !is_continuation_byte(bytes[p]),
        forall|k: int| p < k < hi ==> is_continuation_byte(#[trigger] bytes[k]),
    ensures
        is_char_boundary(bytes, p),
        valid_first_scalar(bytes.subrange(p, hi)),
        ({
            let window = bytes.subrange(lo, hi);
            let last = bytes.subrange(p, hi);
            let c = decode_first_scalar(last) as char;
            &&& length_of_first_scalar(last) == hi - p
            &&& char_width(c) == hi - p
            &&& decode_utf8(window) == decode_utf8(bytes.subrange(lo, p)) + seq![c]
            &&& decode_utf8(window).len() > 0
            &&& decode_utf8(window).last() == c
            &&& decode_utf8(window).drop_last() == decode_utf8(bytes.subrange(lo, p))
        }),
{
    lemma_boundary_iff(bytes, p);
    lemma_front_step(bytes, p, hi);
    let last = bytes.subrange(p, hi);
    let n = length_of_first_scalar(last);
    let c = decode_first_scalar(last) as char;
    if p + n < hi {
        lemma_boundary_iff(bytes, p + n);
    }
    assert(bytes.subrange(p + n, hi) =~= Seq::<u8>::empty());
    assert(decode_utf8(last) =~= seq![c]);
    lemma_window_valid(bytes, lo, hi);
    let window = bytes.subrange(lo, hi);
    lemma_boundary_iff(window, p - lo);
    decode_utf8_split(window, p - lo);
    assert(window.subrange(0, p - lo) =~= bytes.subrange(lo, p));
    assert(window.subrange(p - lo, window.len() as int) =~= last);
    assert(decode_utf8(window) =~= decode_utf8(bytes.subrange(lo, p)) + seq![c]);
    assert(decode_utf8(window).drop_last() =~= decode_utf8(bytes.subrange(lo, p)));
}

} // verus!
