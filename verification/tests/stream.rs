use lisp_iter::{Atom, LispIter};

/// All the atoms that are left in `it`.
fn rest_of<'a>(it: &mut LispIter<'a>) -> Vec<Atom<'a>> {
    let mut out = Vec::new();
    loop {
        assert!(!it.at_stray_close());
        match it.next() {
            Some(atom) => out.push(atom),
            None => return out,
        }
    }
}

fn atoms_of(text: &str) -> Vec<Atom<'_>> {
    rest_of(&mut LispIter::new(text))
}

/// The children of the one list that `text` holds.
fn children_of(text: &str) -> Vec<Atom<'_>> {
    let atoms = atoms_of(text);
    assert_eq!(atoms.len(), 1);
    match atoms[0] {
        Atom::List(mut inner) => rest_of(&mut inner),
        other => panic!("not a list: {:?}", other),
    }
}

#[test]
fn empty_text_has_no_atom() {
    assert_eq!(atoms_of(""), vec![]);
}

#[test]
fn whitespace_and_comments_have_no_atom() {
    assert_eq!(atoms_of("  \n\t ; a comment ( \" )\n;another\n   ; the last, with no end of line"), vec![]);
    assert_eq!(atoms_of(" \u{a0}\u{3000}\u{2028}\r\n"), vec![]);
    assert_eq!(atoms_of(";"), vec![]);
}

#[test]
fn list_of_three_words() {
    let atoms = atoms_of("(a b c)");
    assert_eq!(atoms.len(), 1);
    match atoms[0] {
        Atom::List(mut inner) => {
            assert_eq!(inner.input(), "a b c");
            assert_eq!(
                rest_of(&mut inner),
                vec![Atom::Identifier("a"), Atom::Identifier("b"), Atom::Identifier("c")]
            );
        }
        other => panic!("not a list: {:?}", other),
    }
}

#[test]
fn numbers_and_a_word() {
    let atoms = atoms_of("42 -7 3.14 -0.5 foo");
    assert_eq!(
        atoms,
        vec![
            Atom::Integer(42),
            Atom::Integer(-7),
            Atom::Float("3.14"),
            Atom::Float("-0.5"),
            Atom::Identifier("foo"),
        ]
    );
    let values: Vec<f64> = atoms
        .iter()
        .filter_map(|atom| match atom {
            Atom::Float(text) => Some(text.parse::<f64>().unwrap()),
            _ => None,
        })
        .collect();
    assert_eq!(values, vec![3.14, -0.5]);
}

#[test]
fn quoted_string_keeps_its_content() {
    assert_eq!(atoms_of("\"hello world\""), vec![Atom::Quote("hello world")]);
    assert_eq!(atoms_of("\"  padded  \""), vec![Atom::Quote("  padded  ")]);
}

#[test]
fn quoted_string_is_not_unescaped() {
    assert_eq!(atoms_of(r#""a\nb\t""#), vec![Atom::Quote(r"a\nb\t")]);
    // a backslash does not hide the quote behind it
    assert_eq!(atoms_of(r#""a\"b""#), vec![Atom::Quote(r"a\"), Atom::Identifier("b\"")]);
}

#[test]
fn keyword_is_a_quote() {
    assert_eq!(atoms_of(":bar baz"), vec![Atom::Quote("bar"), Atom::Identifier("baz")]);
    assert_eq!(atoms_of(":"), vec![Atom::Quote("")]);
    assert_eq!(atoms_of(": x"), vec![Atom::Quote(""), Atom::Identifier("x")]);
    assert_eq!(atoms_of(":a(b)\"c"), vec![Atom::Quote("a(b)\"c")]);
}

#[test]
fn comment_in_list_hides_the_parenthesis() {
    assert_eq!(
        children_of("(a ; comment with ) inside\n b)"),
        vec![Atom::Identifier("a"), Atom::Identifier("b")]
    );
}

#[test]
fn quoted_parentheses_do_not_nest() {
    assert_eq!(
        children_of("(a \"text with ( and ) inside\" b)"),
        vec![Atom::Identifier("a"), Atom::Quote("text with ( and ) inside"), Atom::Identifier("b")]
    );
}

#[test]
fn unterminated_list_runs_to_the_end() {
    assert_eq!(children_of("(a b"), vec![Atom::Identifier("a"), Atom::Identifier("b")]);
    assert_eq!(children_of("("), vec![]);
    assert_eq!(children_of("(a (b"), vec![
        Atom::Identifier("a"),
        Atom::List(LispIter::new("b")),
    ]);
}

#[test]
fn unterminated_quote_runs_to_the_end() {
    assert_eq!(atoms_of("a \"b c"), vec![Atom::Identifier("a"), Atom::Quote("b c")]);
    assert_eq!(atoms_of("\""), vec![Atom::Quote("")]);
}

#[test]
fn nested_lists() {
    let atoms = atoms_of("(a (b (c d)) e) f");
    assert_eq!(atoms.len(), 2);
    assert_eq!(atoms[0], Atom::List(LispIter::new("a (b (c d)) e")));
    assert_eq!(atoms[1], Atom::Identifier("f"));
    let inner = children_of("(a (b (c d)) e)");
    assert_eq!(
        inner,
        vec![Atom::Identifier("a"), Atom::List(LispIter::new("b (c d)")), Atom::Identifier("e")]
    );
    assert_eq!(
        children_of("(b (c d))"),
        vec![Atom::Identifier("b"), Atom::List(LispIter::new("c d"))]
    );
}

#[test]
fn empty_lists() {
    assert_eq!(atoms_of("()"), vec![Atom::List(LispIter::new(""))]);
    assert_eq!(children_of("()"), vec![]);
    assert_eq!(children_of("( ; nothing\n )"), vec![]);
}

#[test]
fn list_and_quote_end_without_whitespace() {
    assert_eq!(
        atoms_of("(a)b\"c\"d"),
        vec![
            Atom::List(LispIter::new("a")),
            Atom::Identifier("b\"c\"d"),
        ]
    );
    assert_eq!(atoms_of("\"a\"b"), vec![Atom::Quote("a"), Atom::Identifier("b")]);
    assert_eq!(atoms_of("(a)(b)"), vec![
        Atom::List(LispIter::new("a")),
        Atom::List(LispIter::new("b")),
    ]);
}

#[test]
fn word_runs_to_whitespace() {
    assert_eq!(atoms_of("a(b) c;d e"), vec![
        Atom::Identifier("a(b)"),
        Atom::Identifier("c;d"),
        Atom::Identifier("e"),
    ]);
    assert_eq!(atoms_of("foo"), vec![Atom::Identifier("foo")]);
    assert_eq!(atoms_of("foo\n"), vec![Atom::Identifier("foo")]);
}

#[test]
fn comment_runs_to_the_end_of_its_line() {
    assert_eq!(atoms_of("a ; b c\nd"), vec![Atom::Identifier("a"), Atom::Identifier("d")]);
    assert_eq!(atoms_of("; b\r\nd"), vec![Atom::Identifier("d")]);
    assert_eq!(atoms_of("a ; b ; c"), vec![Atom::Identifier("a")]);
    // a carriage return alone ends no line
    assert_eq!(atoms_of("; b\rd"), vec![]);
}

#[test]
fn comment_starts_inside_a_quoted_string_of_a_list() {
    assert_eq!(
        children_of("(a \"x;y\" b)\n c)"),
        vec![
            Atom::Identifier("a"),
            Atom::Quote("x;y"),
            Atom::Identifier("b)"),
            Atom::Identifier("c)"),
        ]
    );
}

#[test]
fn number_like_tokens() {
    assert_eq!(atoms_of("-"), vec![Atom::Identifier("-")]);
    assert_eq!(atoms_of("-foo"), vec![Atom::Identifier("-foo")]);
    assert_eq!(atoms_of("--1"), vec![Atom::Identifier("--1")]);
    assert_eq!(atoms_of("1/2"), vec![Atom::Identifier("1/2")]);
    assert_eq!(atoms_of("12abc"), vec![Atom::Identifier("12abc")]);
    assert_eq!(atoms_of("0"), vec![Atom::Integer(0)]);
    assert_eq!(atoms_of("-0"), vec![Atom::Integer(0)]);
    assert_eq!(atoms_of("007"), vec![Atom::Integer(7)]);
    assert_eq!(atoms_of("1e3"), vec![Atom::Float("1e3")]);
    assert_eq!(atoms_of("-1.5E-3"), vec![Atom::Float("-1.5E-3")]);
    assert_eq!(atoms_of("1."), vec![Atom::Float("1.")]);
    assert_eq!(atoms_of("-.5"), vec![Atom::Float("-.5")]);
    assert_eq!(atoms_of("-inf"), vec![Atom::Float("-inf")]);
    assert_eq!(atoms_of("-NaN"), vec![Atom::Float("-NaN")]);
    assert_eq!(atoms_of("-Infinity"), vec![Atom::Float("-Infinity")]);
    assert_eq!(atoms_of("1e"), vec![Atom::Identifier("1e")]);
    assert_eq!(atoms_of("-."), vec![Atom::Identifier("-.")]);
    assert_eq!(atoms_of("1.2.3"), vec![Atom::Identifier("1.2.3")]);
    // words that start with neither a digit nor a minus are no numbers
    assert_eq!(atoms_of("inf"), vec![Atom::Identifier("inf")]);
    assert_eq!(atoms_of("nan"), vec![Atom::Identifier("nan")]);
    assert_eq!(atoms_of("+1"), vec![Atom::Identifier("+1")]);
    assert_eq!(atoms_of(".5"), vec![Atom::Identifier(".5")]);
}

#[test]
fn integers_at_the_limits() {
    assert_eq!(atoms_of("9223372036854775807"), vec![Atom::Integer(i64::MAX)]);
    assert_eq!(atoms_of("-9223372036854775808"), vec![Atom::Integer(i64::MIN)]);
    assert_eq!(atoms_of("9223372036854775808"), vec![Atom::Float("9223372036854775808")]);
    assert_eq!(atoms_of("-9223372036854775809"), vec![Atom::Float("-9223372036854775809")]);
    assert_eq!(
        atoms_of("99999999999999999999999999"),
        vec![Atom::Float("99999999999999999999999999")]
    );
}

#[test]
fn text_beyond_ascii() {
    assert_eq!(
        atoms_of("h\u{e9}llo \u{4e16}\u{754c}\u{a0}\u{1f600}(\u{3bb} x)"),
        vec![
            Atom::Identifier("h\u{e9}llo"),
            Atom::Identifier("\u{4e16}\u{754c}"),
            Atom::Identifier("\u{1f600}(\u{3bb}"),
            Atom::Identifier("x)"),
        ]
    );
    assert_eq!(
        children_of("(\u{3bb}\u{3000}\"\u{e9}\u{1f600}\" :\u{4e16}\u{2003}-\u{b2})"),
        vec![
            Atom::Identifier("\u{3bb}"),
            Atom::Quote("\u{e9}\u{1f600}"),
            Atom::Quote("\u{4e16}"),
            Atom::Identifier("-\u{b2}"),
        ]
    );
    // characters that look like whitespace and are none
    assert_eq!(atoms_of("a\u{200b}b\u{feff}c"), vec![Atom::Identifier("a\u{200b}b\u{feff}c")]);
}

#[test]
fn end_of_text_is_final() {
    let mut it = LispIter::new("a b");
    assert_eq!(it.next(), Some(Atom::Identifier("a")));
    assert_eq!(it.next(), Some(Atom::Identifier("b")));
    for _ in 0..5 {
        assert!(!it.at_stray_close());
        assert_eq!(it.next(), None);
    }
}

#[test]
fn cursor_keeps_its_text() {
    let text = "a (b c) d";
    let mut it = LispIter::new(text);
    assert_eq!(it.input(), text);
    assert_eq!(it.next(), Some(Atom::Identifier("a")));
    assert_eq!(it.input(), text);
    match it.next() {
        Some(Atom::List(inner)) => assert_eq!(inner.input(), "b c"),
        other => panic!("not a list: {:?}", other),
    }
    assert_eq!(it.input(), text);
}

#[test]
fn atoms_are_views_into_the_text() {
    let text = String::from("  foo \"bar\" (baz)");
    let range = text.as_ptr() as usize..text.as_ptr() as usize + text.len();
    for atom in atoms_of(&text) {
        let part = match atom {
            Atom::Identifier(part) | Atom::Quote(part) | Atom::Float(part) => part,
            Atom::List(inner) => inner.input(),
            Atom::Integer(_) => continue,
        };
        let start = part.as_ptr() as usize;
        assert!(range.start <= start && start + part.len() <= range.end);
    }
}

#[test]
fn copy_of_a_cursor_reads_the_same() {
    let mut it = LispIter::new("a (b) \"c\" 4");
    it.next();
    let mut copy = it;
    assert_eq!(rest_of(&mut it), rest_of(&mut copy));
}

#[test]
fn list_is_read_only_when_asked() {
    // the list holds a stray parenthesis, which is met only inside it
    let mut it = LispIter::new("(a\"b )\" c) d");
    let list = it.next();
    assert!(!it.at_stray_close());
    assert_eq!(it.next(), Some(Atom::Identifier("d")));
    match list {
        Some(Atom::List(mut inner)) => {
            assert_eq!(inner.input(), "a\"b )\" c");
            assert!(!inner.at_stray_close());
            assert_eq!(inner.next(), Some(Atom::Identifier("a\"b")));
            assert!(inner.at_stray_close());
        }
        other => panic!("not a list: {:?}", other),
    }
}

#[test]
fn stray_parenthesis_is_told() {
    assert!(LispIter::new(")").at_stray_close());
    assert!(LispIter::new("  ; c\n ) a").at_stray_close());
    assert!(!LispIter::new("a )").at_stray_close());
    assert!(!LispIter::new("; )").at_stray_close());
    assert!(!LispIter::new("").at_stray_close());
    let mut it = LispIter::new("(a) )");
    assert!(!it.at_stray_close());
    it.next();
    assert!(it.at_stray_close());
    // asking reads nothing
    assert!(it.at_stray_close());
}
