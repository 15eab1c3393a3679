use lisp_iter::scan::{find_char, find_list_close, find_whitespace, skip_blank};
use lisp_iter::source::CharByteIter;

#[test]
fn skip_blank_stops_at_the_token() {
    let mut it = CharByteIter::new("  ; c ; d\n\t\u{3000}x y");
    assert_eq!(skip_blank(&mut it), Some((14, 'x')));
    assert_eq!(it.peek(), Some(' '));
    assert_eq!(skip_blank(&mut it), Some((16, 'y')));
    assert_eq!(skip_blank(&mut it), None);
    assert_eq!(it.next(), None);
    assert_eq!(skip_blank(&mut it), None);
}

#[test]
fn skip_blank_of_a_blank_text() {
    for text in ["", " ", ";", "; a", " \n ; a\n ;b"] {
        let mut it = CharByteIter::new(text);
        assert_eq!(skip_blank(&mut it), None, "{:?}", text);
        assert_eq!(it.next(), None);
    }
}

#[test]
fn find_whitespace_reads_through_it() {
    let mut it = CharByteIter::new("ab\u{e9}\u{a0}cd");
    assert_eq!(find_whitespace(&mut it), 4);
    assert_eq!(it.peek(), Some('c'));
    assert_eq!(find_whitespace(&mut it), 8);
    assert_eq!(it.next(), None);
}

#[test]
fn find_whitespace_at_whitespace() {
    let mut it = CharByteIter::new(" a");
    assert_eq!(find_whitespace(&mut it), 0);
    assert_eq!(it.peek(), Some('a'));
    let mut it = CharByteIter::new("");
    assert_eq!(find_whitespace(&mut it), 0);
}

#[test]
fn find_char_reads_through_it() {
    let mut it = CharByteIter::new("a\u{1f600}\"b\"");
    assert_eq!(find_char(&mut it, '"'), 5);
    assert_eq!(it.peek(), Some('b'));
    assert_eq!(find_char(&mut it, '"'), 7);
    assert_eq!(it.peek(), None);
    assert_eq!(it.next(), Some((8, '\n')));
}

#[test]
fn find_char_without_it_reads_to_the_end() {
    let mut it = CharByteIter::new("abc");
    assert_eq!(find_char(&mut it, '"'), 3);
    assert_eq!(it.next(), None);
    let mut it = CharByteIter::new("abc");
    assert_eq!(find_char(&mut it, '\n'), 3);
    assert_eq!(it.next(), None);
    let mut it = CharByteIter::new("a\nbc");
    assert_eq!(find_char(&mut it, '\n'), 1);
    assert_eq!(it.peek(), Some('b'));
}

#[test]
fn find_list_close_counts_the_depth() {
    let mut it = CharByteIter::new("a (b (c)) d) e");
    assert_eq!(find_list_close(&mut it), 11);
    assert_eq!(it.peek(), Some(' '));
    let mut it = CharByteIter::new(") e");
    assert_eq!(find_list_close(&mut it), 0);
    assert_eq!(it.peek(), Some(' '));
}

#[test]
fn find_list_close_passes_quotes_and_comments() {
    let mut it = CharByteIter::new("\")\" ;)\n \"(\" )x");
    assert_eq!(find_list_close(&mut it), 12);
    assert_eq!(it.peek(), Some('x'));
    // a quote inside a comment opens no string
    let mut it = CharByteIter::new("; \"\n ) \"");
    assert_eq!(find_list_close(&mut it), 5);
    // a comment inside a string runs to the end of the line, and the string goes on
    let mut it = CharByteIter::new("\"; \" )\n ) \" ) x");
    assert_eq!(find_list_close(&mut it), 12);
    assert_eq!(it.peek(), Some(' '));
}

#[test]
fn find_list_close_of_an_open_list() {
    for text in ["", "a (b", "((", "\" )", "; )", "(a) \"b) ; c\n)"] {
        let mut it = CharByteIter::new(text);
        assert_eq!(find_list_close(&mut it), text.len(), "{:?}", text);
        assert_eq!(it.next(), None);
    }
}
