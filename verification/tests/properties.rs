use std::ops::Range;

use char_ranges::{CharRanges, CharRangesExt, CharRangesOffset};

const TEXTS: [&str; 8] = [
    "",
    "a",
    "Hello World",
    "Hello 👋 World 🌏",
    "🗻12∈45🌏",
    "Hello 🗻12∈45🌏 World\n",
    "Øre på ærø",
    "\u{7f}\u{80}\u{7ff}\u{800}\u{d7ff}\u{e000}\u{ffff}\u{10000}\u{10ffff}\0",
];

fn forward(text: &str) -> Vec<(Range<usize>, char)> {
    let mut items = Vec::new();
    let mut chars = text.char_ranges();
    while let Some(item) = chars.next() {
        items.push(item);
    }
    items
}

fn backward(text: &str) -> Vec<(Range<usize>, char)> {
    let mut items = Vec::new();
    let mut chars = text.char_ranges();
    while let Some(item) = chars.next_back() {
        items.push(item);
    }
    items
}

#[test]
fn forward_characters_spell_the_text() {
    for text in TEXTS {
        let spelled: String = forward(text).into_iter().map(|(_, c)| c).collect();
        assert_eq!(spelled, text);
    }
}

#[test]
fn items_agree_with_char_indices() {
    for text in TEXTS {
        let expected: Vec<(Range<usize>, char)> =
            text.char_indices().map(|(i, c)| (i..i + c.len_utf8(), c)).collect();
        assert_eq!(forward(text), expected);
        assert_eq!(text.char_ranges().to_vec(), expected);
    }
}

#[test]
fn widths_at_the_edges_of_each_encoding() {
    let text = "\u{7f}\u{80}\u{7ff}\u{800}\u{d7ff}\u{e000}\u{ffff}\u{10000}\u{10ffff}";
    let mut chars = text.char_ranges();
    assert_eq!(chars.next(), Some((0..1, '\u{7f}')));
    assert_eq!(chars.next(), Some((1..3, '\u{80}')));
    assert_eq!(chars.next(), Some((3..5, '\u{7ff}')));
    assert_eq!(chars.next(), Some((5..8, '\u{800}')));
    assert_eq!(chars.next(), Some((8..11, '\u{d7ff}')));
    assert_eq!(chars.next(), Some((11..14, '\u{e000}')));
    assert_eq!(chars.next(), Some((14..17, '\u{ffff}')));
    assert_eq!(chars.next(), Some((17..21, '\u{10000}')));
    assert_eq!(chars.next(), Some((21..25, '\u{10ffff}')));
    assert_eq!(chars.next(), None);

    let mut chars = text.char_ranges();
    assert_eq!(chars.next_back(), Some((21..25, '\u{10ffff}')));
    assert_eq!(chars.next_back(), Some((17..21, '\u{10000}')));
    assert_eq!(chars.next_back(), Some((14..17, '\u{ffff}')));
    assert_eq!(chars.next_back(), Some((11..14, '\u{e000}')));
    assert_eq!(chars.next_back(), Some((8..11, '\u{d7ff}')));
    assert_eq!(chars.next_back(), Some((5..8, '\u{800}')));
    assert_eq!(chars.next_back(), Some((3..5, '\u{7ff}')));
    assert_eq!(chars.next_back(), Some((1..3, '\u{80}')));
    assert_eq!(chars.next_back(), Some((0..1, '\u{7f}')));
    assert_eq!(chars.next_back(), None);
}

#[test]
fn two_byte_character() {
    let mut chars = "Ø".char_ranges();
    assert_eq!(chars.next(), Some((0..2, 'Ø')));
    assert_eq!(chars.next(), None);
}

#[test]
fn every_item_decodes_to_its_character_alone() {
    for text in TEXTS {
        for (r, c) in backward(text) {
            assert!(r.start < r.end);
            assert_eq!(r.end - r.start, c.len_utf8());
            let mut chars = text[r].chars();
            assert_eq!(chars.next(), Some(c));
            assert_eq!(chars.next(), None);
        }
    }
}

#[test]
fn backward_is_forward_reversed() {
    for text in TEXTS {
        let mut reversed = forward(text);
        reversed.reverse();
        assert_eq!(backward(text), reversed);
    }
}

#[test]
fn remaining_view_lies_between_the_consumed_ranges() {
    for text in TEXTS {
        let mut chars = text.char_ranges();
        let mut front = 0;
        let mut back = text.len();
        let mut turn = 0;
        loop {
            assert_eq!(chars.as_str(), &text[front..back]);
            let step = if turn % 3 == 2 { chars.next_back() } else { chars.next() };
            match step {
                Some((r, _)) if turn % 3 == 2 => back = r.start,
                Some((r, _)) => front = r.end,
                None => break,
            }
            turn += 1;
        }
        assert_eq!(chars.as_str(), "");
        assert_eq!(front, back);
    }
}

#[test]
fn hello_from_the_front() {
    let mut chars = "Hello".char_ranges();
    assert_eq!(chars.next(), Some((0..1, 'H')));
    assert_eq!(chars.next(), Some((1..2, 'e')));
    assert_eq!(chars.next(), Some((2..3, 'l')));
    assert_eq!(chars.next(), Some((3..4, 'l')));
    assert_eq!(chars.next(), Some((4..5, 'o')));
    assert_eq!(chars.next(), None);
    assert_eq!(chars.next(), None);
}

#[test]
fn four_bytes_then_three_bytes() {
    let mut chars = "🗻∈".char_ranges();
    let (first, _) = chars.next().unwrap();
    let (second, _) = chars.next().unwrap();
    assert_eq!(first, 0..4);
    assert_eq!(second, 4..7);
    assert_eq!(chars.next(), None);
}

#[test]
fn one_from_each_end_of_abcde() {
    let mut chars = "ABCDE".char_ranges();
    assert_eq!(chars.as_str(), "ABCDE");
    assert_eq!(chars.next(), Some((0..1, 'A')));
    assert_eq!(chars.next_back(), Some((4..5, 'E')));
    assert_eq!(chars.as_str(), "BCD");
    assert_eq!(chars.next_back(), Some((3..4, 'D')));
    assert_eq!(chars.next(), Some((1..2, 'B')));
    assert_eq!(chars.as_str(), "C");
    assert_eq!(chars.next(), Some((2..3, 'C')));
    assert_eq!(chars.as_str(), "");
    assert_eq!(chars.next(), None);
    assert_eq!(chars.next_back(), None);
}

#[test]
fn nth_skips_and_takes() {
    let mut chars = "🗻12∈45🌏".char_ranges();
    assert_eq!(chars.nth(3), Some((6..9, '∈')));
    assert_eq!(chars.as_str(), "45🌏");
    assert_eq!(chars.nth(1), Some((10..11, '5')));
    assert_eq!(chars.as_str(), "🌏");
    assert_eq!(chars.nth(0), Some((11..15, '🌏')));
    assert_eq!(chars.nth(0), None);
    assert_eq!(chars.as_str(), "");
}

#[test]
fn nth_past_the_end_takes_everything() {
    let mut chars = "ABCDE".char_ranges();
    assert_eq!(chars.nth(5), None);
    assert_eq!(chars.as_str(), "");
    assert_eq!(chars.next(), None);
    assert_eq!(chars.next_back(), None);

    let mut chars = "ABCDE".char_ranges();
    assert_eq!(chars.nth(4), Some((4..5, 'E')));
    assert_eq!(chars.as_str(), "");

    let mut chars = "A🌏".char_ranges();
    assert_eq!(chars.nth(usize::MAX), None);
    assert_eq!(chars.as_str(), "");

    let mut chars = "".char_ranges();
    assert_eq!(chars.nth(0), None);
}

#[test]
fn nth_back_skips_and_takes() {
    let mut chars = "🗻12∈45🌏".char_ranges();
    assert_eq!(chars.nth_back(3), Some((6..9, '∈')));
    assert_eq!(chars.as_str(), "🗻12");
    assert_eq!(chars.nth_back(1), Some((4..5, '1')));
    assert_eq!(chars.as_str(), "🗻");
    assert_eq!(chars.nth_back(0), Some((0..4, '🗻')));
    assert_eq!(chars.nth_back(0), None);
    assert_eq!(chars.as_str(), "");
}

#[test]
fn nth_back_past_the_start_takes_everything() {
    let mut chars = "ABCDE".char_ranges();
    assert_eq!(chars.next(), Some((0..1, 'A')));
    assert_eq!(chars.nth_back(4), None);
    assert_eq!(chars.as_str(), "");
    assert_eq!(chars.next(), None);

    let mut chars = "∈🌏".char_ranges();
    assert_eq!(chars.nth_back(usize::MAX), None);
    assert_eq!(chars.as_str(), "");
}

#[test]
fn nth_from_both_ends_meets_in_the_middle() {
    let mut chars = "Hello 👋 World 🌏".char_ranges();
    assert_eq!(chars.nth(6), Some((6..10, '👋')));
    assert_eq!(chars.nth_back(1), Some((16..17, ' ')));
    assert_eq!(chars.as_str(), " World");
    assert_eq!(chars.count(), 6);
}

#[test]
fn last_takes_from_the_back() {
    assert_eq!("".char_ranges().last(), None);
    assert_eq!("a".char_ranges().last(), Some((0..1, 'a')));
    let mut chars = "Hello 👋".char_ranges();
    assert_eq!(chars.next_back(), Some((6..10, '👋')));
    assert_eq!(chars.clone().last(), Some((5..6, ' ')));
    assert_eq!(chars.as_str(), "Hello ");
}

#[test]
fn count_is_the_number_of_characters_left() {
    for text in TEXTS {
        assert_eq!(text.char_ranges().count(), text.chars().count());
    }
    let mut chars = "Hello 👋 World 🌏".char_ranges();
    assert_eq!(chars.clone().count(), 15);
    chars.next();
    chars.next_back();
    assert_eq!(chars.clone().count(), 13);
    chars.nth(20);
    assert_eq!(chars.count(), 0);
}

#[test]
fn size_hint_comes_from_the_bytes_left() {
    assert_eq!("".char_ranges().size_hint(), (0, Some(0)));
    assert_eq!("a".char_ranges().size_hint(), (1, Some(1)));
    assert_eq!("Hello".char_ranges().size_hint(), (2, Some(5)));
    assert_eq!("🗻∈🌏".char_ranges().size_hint(), (3, Some(11)));
    assert_eq!("🗻🌏".char_ranges().size_hint(), (2, Some(8)));
    let mut chars = "🗻12∈45🌏".char_ranges();
    assert_eq!(chars.size_hint(), (4, Some(15)));
    chars.next();
    assert_eq!(chars.size_hint(), (3, Some(11)));
    chars.next_back();
    assert_eq!(chars.size_hint(), (2, Some(7)));
    for text in TEXTS {
        let (lower, upper) = text.char_ranges().size_hint();
        let n = text.chars().count();
        assert!(lower <= n && n <= upper.unwrap());
        assert_eq!((lower, upper), text.chars().size_hint());
    }
}

#[test]
fn to_vec_leaves_the_iterator_in_place() {
    let mut chars = "A∈C".char_ranges();
    chars.next();
    assert_eq!(chars.to_vec(), vec![(1..4, '∈'), (4..5, 'C')]);
    assert_eq!(chars.as_str(), "∈C");
    assert_eq!(chars.next(), Some((1..4, '∈')));
}

#[test]
fn clone_is_an_independent_cursor() {
    let mut chars = "ABCDE".char_ranges();
    chars.next();
    let mut copy = chars.clone();
    assert_eq!(copy.next(), Some((1..2, 'B')));
    assert_eq!(copy.next_back(), Some((4..5, 'E')));
    assert_eq!(copy.as_str(), "CD");
    assert_eq!(chars.as_str(), "BCDE");
    assert_eq!(chars.next(), Some((1..2, 'B')));
}

#[test]
fn new_is_char_ranges() {
    let text = "🗻12∈45🌏";
    assert_eq!(CharRanges::new(text).to_vec(), text.char_ranges().to_vec());
    assert_eq!(CharRanges::new(text).as_str(), text);
}

#[test]
fn offset_world() {
    let text = "Hello 👋 World 🌏";
    let start = 11;
    let text = &text[start..];
    assert_eq!(text, "World 🌏");

    let mut chars = text.char_ranges_offset(start);
    assert_eq!(chars.offset(), start);
    assert_eq!(chars.as_str(), "World 🌏");

    assert_eq!(chars.next(), Some((11..12, 'W')));
    assert_eq!(chars.next(), Some((12..13, 'o')));
    assert_eq!(chars.next(), Some((13..14, 'r')));

    assert_eq!(chars.next_back(), Some((17..21, '🌏')));
    assert_eq!(chars.as_str(), "ld ");
    assert_eq!(chars.offset(), start);
}

#[test]
fn offset_over_a_slice_matches_the_larger_text() {
    for text in TEXTS {
        let whole = forward(text);
        for (skipped, (r, _)) in whole.iter().enumerate() {
            let start = r.start;
            let tail = &text[start..];
            assert_eq!(tail.char_ranges_offset(start).to_vec(), whole[skipped..].to_vec());
            assert_eq!(tail.char_ranges().offset(start).to_vec(), whole[skipped..].to_vec());
            assert_eq!(CharRangesOffset::new(start, tail).to_vec(), whole[skipped..].to_vec());
            let shifted: Vec<(Range<usize>, char)> = tail
                .char_ranges()
                .to_vec()
                .into_iter()
                .map(|(r, c)| (r.start + start..r.end + start, c))
                .collect();
            assert_eq!(shifted, whole[skipped..].to_vec());
        }
    }
}

#[test]
fn offset_applied_in_the_middle_of_a_traversal() {
    let mut chars = "ABCDE".char_ranges();
    chars.next();
    chars.next_back();
    let mut shifted = chars.offset(100);
    assert_eq!(shifted.offset(), 100);
    assert_eq!(shifted.as_str(), "BCD");
    assert_eq!(shifted.next(), Some((101..102, 'B')));
    assert_eq!(shifted.next_back(), Some((103..104, 'D')));
    assert_eq!(shifted.next(), Some((102..103, 'C')));
    assert_eq!(shifted.next(), None);
    assert_eq!(shifted.next_back(), None);
}

#[test]
fn offset_zero_changes_nothing() {
    for text in TEXTS {
        assert_eq!(text.char_ranges_offset(0).to_vec(), text.char_ranges().to_vec());
    }
}

#[test]
fn offset_skips_counts_and_bounds() {
    let text = "🗻12∈45🌏";
    let mut chars = text.char_ranges_offset(7);
    assert_eq!(chars.size_hint(), (4, Some(15)));
    assert_eq!(chars.clone().count(), 7);
    assert_eq!(chars.clone().last(), Some((18..22, '🌏')));
    assert_eq!(chars.nth(1), Some((11..12, '1')));
    assert_eq!(chars.nth_back(1), Some((17..18, '5')));
    assert_eq!(chars.as_str(), "2∈4");
    assert_eq!(chars.to_vec(), vec![(12..13, '2'), (13..16, '∈'), (16..17, '4')]);
    assert_eq!(chars.clone().count(), 3);
    assert_eq!(chars.size_hint(), (2, Some(5)));
    assert_eq!(chars.nth(3), None);
    assert_eq!(chars.as_str(), "");
    assert_eq!(chars.last(), None);

    let mut chars = text.char_ranges_offset(7);
    assert_eq!(chars.nth_back(7), None);
    assert_eq!(chars.as_str(), "");
    assert_eq!(chars.offset(), 7);
}

#[test]
fn offset_up_to_the_largest_index() {
    let text = "a∈";
    let mut chars = text.char_ranges_offset(usize::MAX - 4);
    assert_eq!(chars.next(), Some((usize::MAX - 4..usize::MAX - 3, 'a')));
    assert_eq!(chars.next(), Some((usize::MAX - 3..usize::MAX, '∈')));
    assert_eq!(chars.next(), None);
}

#[test]
fn skipping_at_the_boundary_agrees_with_char_indices() {
    for text in TEXTS {
        let n = text.chars().count();
        for skip in [n.saturating_sub(1), n, n + 1, n + 7] {
            let mut chars = text.char_ranges();
            let mut reference = text.char_indices();
            let expected = reference.nth(skip).map(|(i, c)| (i..i + c.len_utf8(), c));
            assert_eq!(chars.nth(skip), expected);
            assert_eq!(chars.as_str(), reference.as_str());

            let mut chars = text.char_ranges();
            let mut reference = text.char_indices();
            let expected = reference.nth_back(skip).map(|(i, c)| (i..i + c.len_utf8(), c));
            assert_eq!(chars.nth_back(skip), expected);
            assert_eq!(chars.as_str(), reference.as_str());
        }
    }
}

#[test]
fn skipping_agrees_with_char_indices_everywhere() {
    for text in TEXTS {
        let n = text.chars().count();
        for taken in 0..=n {
            for skip in 0..=n {
                let mut chars = text.char_ranges();
                let mut reference = text.char_indices();
                for _ in 0..taken {
                    chars.next_back();
                    reference.next_back();
                }
                let expected = reference.nth(skip).map(|(i, c)| (i..i + c.len_utf8(), c));
                assert_eq!(chars.nth(skip), expected);
                assert_eq!(chars.as_str(), reference.as_str());
                assert_eq!(chars.size_hint(), reference.size_hint());
                assert_eq!(chars.clone().count(), reference.clone().count());

                let mut chars = text.char_ranges();
                let mut reference = text.char_indices();
                for _ in 0..taken {
                    chars.next();
                    reference.next();
                }
                let expected = reference.nth_back(skip).map(|(i, c)| (i..i + c.len_utf8(), c));
                assert_eq!(chars.nth_back(skip), expected);
                assert_eq!(chars.as_str(), reference.as_str());
                let last = reference.last().map(|(i, c)| (i..i + c.len_utf8(), c));
                assert_eq!(chars.last(), last);
            }
        }
    }
}

#[test]
fn empty_text_takes_any_offset() {
    let mut chars = "".char_ranges_offset(usize::MAX);
    assert_eq!(chars.offset(), usize::MAX);
    assert_eq!(chars.next(), None);
    assert_eq!(chars.next_back(), None);
    assert_eq!(chars.as_str(), "");

    let mut done = "ab".char_ranges();
    done.nth(1);
    let mut chars = done.offset(usize::MAX);
    assert_eq!(chars.nth(0), None);
    assert_eq!(chars.to_vec(), vec![]);
}
