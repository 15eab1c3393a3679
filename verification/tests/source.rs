use lisp_iter::source::{slice, CharByteIter, SENTINEL};

const TEXTS: [&str; 8] = [
    "",
    "a",
    "(a b c)",
    "h\u{e9}llo w\u{f6}rld",
    "\u{4e16}\u{754c} \u{1f600}\u{1f601}",
    "\n\n",
    "\u{0}\u{7f}\u{80}\u{7ff}\u{800}\u{ffff}\u{10000}\u{10ffff}",
    "\u{d7ff}\u{e000}\u{fffd}",
];

fn pairs_of(text: &str) -> Vec<(usize, char)> {
    let mut it = CharByteIter::new(text);
    let mut out = Vec::new();
    while let Some(pair) = it.next() {
        out.push(pair);
    }
    out
}

#[test]
fn source_hands_out_chars_with_their_offsets() {
    for text in TEXTS {
        let mut expected: Vec<(usize, char)> = text.char_indices().collect();
        expected.push((text.len(), '\n'));
        assert_eq!(pairs_of(text), expected, "{:?}", text);
    }
}

#[test]
fn first_offset_is_zero() {
    assert_eq!(CharByteIter::new("xyz").next(), Some((0, 'x')));
    assert_eq!(CharByteIter::new("\u{1f600}").next(), Some((0, '\u{1f600}')));
    assert_eq!(CharByteIter::new("").next(), Some((0, SENTINEL)));
}

#[test]
fn offsets_grow_by_the_width_of_the_char() {
    assert_eq!(
        pairs_of("a\u{e9}\u{4e16}\u{1f600}b"),
        vec![(0, 'a'), (1, '\u{e9}'), (3, '\u{4e16}'), (6, '\u{1f600}'), (10, 'b'), (11, '\n')]
    );
    for text in TEXTS {
        let pairs = pairs_of(text);
        for pair in pairs.windows(2) {
            assert_eq!(pair[1].0, pair[0].0 + pair[0].1.len_utf8());
        }
    }
}

#[test]
fn sentinel_comes_once_and_last() {
    let mut it = CharByteIter::new("a\n");
    assert_eq!(it.next(), Some((0, 'a')));
    assert_eq!(it.next(), Some((1, '\n')));
    assert_eq!(it.next(), Some((2, SENTINEL)));
    assert_eq!(it.next(), None);
    assert_eq!(it.next(), None);
    assert_eq!(SENTINEL, '\n');
}

#[test]
fn peek_shows_the_text_only() {
    for text in TEXTS {
        let mut it = CharByteIter::new(text);
        for c in text.chars() {
            assert_eq!(it.peek(), Some(c));
            assert_eq!(it.peek(), Some(c));
            assert_eq!(it.next().map(|pair| pair.1), Some(c));
        }
        assert_eq!(it.peek(), None);
        assert_eq!(it.next(), Some((text.len(), SENTINEL)));
        assert_eq!(it.peek(), None);
        assert_eq!(it.next(), None);
        assert_eq!(it.peek(), None);
    }
}

#[test]
fn source_keeps_its_text() {
    let mut it = CharByteIter::new("abc");
    assert_eq!(it.get_text(), "abc");
    it.next();
    assert_eq!(it.get_text(), "abc");
}

#[test]
fn slice_is_the_part_between_two_offsets() {
    for text in TEXTS {
        let mut cuts: Vec<usize> = text.char_indices().map(|pair| pair.0).collect();
        cuts.push(text.len());
        for &from in &cuts {
            for &to in &cuts {
                if from <= to {
                    assert_eq!(slice(text, from, to), &text[from..to]);
                }
            }
        }
    }
    assert_eq!(slice("h\u{e9}llo", 1, 3), "\u{e9}");
    assert_eq!(slice("hello", 2, 2), "");
    assert_eq!(slice("hello", 0, 5), "hello");
}
