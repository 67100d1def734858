//! Decoding of one UTF-8 scalar from a byte slice, from the front or from
//! the back of a window of it.
use vstd::prelude::*;
use vstd::utf8::*;

verus! {

/// `char::from_u32` of the standard library: a value that is a Unicode
/// scalar converts to the character with that value, any other value gives
/// `None`.
pub assume_specification[ char::from_u32 ](i: u32) -> (r: Option<char>)
    ensures
        is_scalar(i) ==> r is Some && r->0 as u32 == i,
        !is_scalar(i) ==> r is None,
;

/// Width of the scalar whose leading byte stands at `i`, whatever the
/// window from `i` on that it is read in.
pub(crate) fn width_at(bytes: &[u8], i: usize) -> (w: usize)
    requires
        i < bytes@.len(),
    ensures
        1 <= w <= 4,
        forall|hi: int|
            i < hi <= bytes@.len() ==> w == length_of_first_scalar(
                #[trigger] bytes@.subrange(i as int, hi),
            ),
{
    let b = bytes[i];
    if b < 0x80 {
        1
    } else if 0xC0 <= b && b <= 0xDF {
        2
    } else if 0xE0 <= b && b <= 0xEF {
        3
    } else {
        4
    }
}

/// Decodes the scalar that starts the window `lo..hi` of `bytes`, and gives
/// its character with the number of bytes that it takes.
pub(crate) fn decode_front(bytes: &[u8], lo: usize, hi: usize) -> (r: (char, usize))
    requires
        lo < hi <= bytes@.len(),
        valid_first_scalar(bytes@.subrange(lo as int, hi as int)),
    ensures
        r.0 == decode_first_scalar(bytes@.subrange(lo as int, hi as int)) as char,
        r.1 == length_of_first_scalar(bytes@.subrange(lo as int, hi as int)),
        lo + r.1 <= hi,
{
    let ghost window = bytes@.subrange(lo as int, hi as int);
    let b0 = bytes[lo];
    assert(b0 == window[0]);
    let code: u32;
    let len: usize;
    if b0 < 0x80 {
        code = (b0 & 0x7F) as u32;
        len = 1;
        assert(code <= 0x7F) by (bit_vector)
            requires
                code == (b0 & 0x7F) as u32,
        ;
    } else if 0xC0 <= b0 && b0 <= 0xDF {
        let b1 = bytes[lo + 1];
        assert(b1 == window[1]);
        code = (((b0 & 0x1F) as u32) << 6) | ((b1 & 0x3F) as u32);
        len = 2;
        assert(code <= 0x7FF) by (bit_vector)
            requires
                code == (((b0 & 0x1F) as u32) << 6) | ((b1 & 0x3F) as u32),
        ;
    } else if 0xE0 <= b0 && b0 <= 0xEF {
        let b1 = bytes[lo + 1];
        let b2 = bytes[lo + 2];
        assert(b1 == window[1] && b2 == window[2]);
        code = (((b0 & 0x0F) as u32) << 12) | (((b1 & 0x3F) as u32) << 6) | ((b2 & 0x3F) as u32);
        len = 3;
        assert(code <= 0xFFFF) by (bit_vector)
            requires
                code == (((b0 & 0x0F) as u32) << 12) | (((b1 & 0x3F) as u32) << 6) | ((b2
                    & 0x3F) as u32),
        ;
    } else {
        let b1 = bytes[lo + 1];
        let b2 = bytes[lo + 2];
        let b3 = bytes[lo + 3];
        assert(b1 == window[1] && b2 == window[2] && b3 == window[3]);
        code = (((b0 & 0x07) as u32) << 18) | (((b1 & 0x3F) as u32) << 12) | (((b2
            & 0x3F) as u32) << 6) | ((b3 & 0x3F) as u32);
        len = 4;
    }
    assert(code == decode_first_scalar(window));
    assert(is_scalar(code));
    match char::from_u32(code) {
        Some(c) => {
            proof {
                char_u32_cast(c, code);
            }
            (c, len)
        },
        None => vstd::pervasive::unreached(),
    }
}

/// Finds where the last scalar of the window `lo..hi` of `bytes` starts:
/// the last byte of the window that is no continuation byte.
pub(crate) fn last_start(bytes: &[u8], lo: usize, hi: usize) -> (p: usize)
    requires
        lo < hi <= bytes@.len(),
        !is_continuation_byte(bytes@[lo as int]),
    ensures
        lo <= p < hi,
        !is_continuation_byte(bytes@[p as int]),
        forall|k: int| p < k < hi ==> is_continuation_byte(#[trigger] bytes@[k]),
{
    let mut p: usize = hi - 1;
    while p > lo && 0x80 <= bytes[p] && bytes[p] <= 0xBF
        invariant
            lo <= p < hi <= bytes@.len(),
            !is_continuation_byte(bytes@[lo as int]),
            forall|k: int| p < k < hi ==> is_continuation_byte(#[trigger] bytes@[k]),
        decreases p,
    {
        p = p - 1;
    }
    p
}

} // verus!
