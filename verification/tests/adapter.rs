use lisp_iter::{Atom, AtomIter, LispIter};

fn all_of<'a>(mut it: AtomIter<'a>) -> Vec<Atom<'a>> {
    let mut out = Vec::new();
    while let Some(atom) = it.next() {
        out.push(atom);
    }
    out
}

#[test]
fn leaf_is_a_sequence_of_itself() {
    for leaf in [
        Atom::Identifier("a"),
        Atom::Quote("b c"),
        Atom::Integer(-3),
        Atom::Float("2.5"),
    ] {
        let mut it = AtomIter::new(leaf);
        assert_eq!(it.next(), Some(leaf));
        assert_eq!(it.next(), None);
        assert_eq!(all_of(leaf.into_iter()), vec![leaf]);
    }
}

#[test]
fn list_is_a_sequence_of_its_children() {
    let list = Atom::List(LispIter::new("a (b c) \"d\" 5"));
    assert_eq!(
        all_of(AtomIter::new(list)),
        vec![
            Atom::Identifier("a"),
            Atom::List(LispIter::new("b c")),
            Atom::Quote("d"),
            Atom::Integer(5),
        ]
    );
    assert_eq!(all_of(Atom::List(LispIter::new("")).into_iter()), vec![]);
    assert_eq!(all_of(Atom::List(LispIter::new(" ; none\n")).into_iter()), vec![]);
}

#[test]
fn list_from_a_text_is_a_sequence_of_its_children() {
    let mut it = LispIter::new("(1 2 (3)) 4");
    let list = it.next().unwrap();
    assert_eq!(
        all_of(list.into_iter()),
        vec![Atom::Integer(1), Atom::Integer(2), Atom::List(LispIter::new("3"))]
    );
    let four = it.next().unwrap();
    assert_eq!(all_of(four.into_iter()), vec![Atom::Integer(4)]);
}

#[test]
fn children_are_not_unfolded() {
    let list = Atom::List(LispIter::new("(a b)"));
    let children = all_of(list.into_iter());
    assert_eq!(children, vec![Atom::List(LispIter::new("a b"))]);
    assert_eq!(
        all_of(children[0].into_iter()),
        vec![Atom::Identifier("a"), Atom::Identifier("b")]
    );
}

#[test]
fn exhausted_sequence_stays_exhausted() {
    let mut leaf = AtomIter::new(Atom::Integer(1));
    assert_eq!(leaf.next(), Some(Atom::Integer(1)));
    let mut list = AtomIter::new(Atom::List(LispIter::new("a b")));
    assert_eq!(list.next(), Some(Atom::Identifier("a")));
    assert_eq!(list.next(), Some(Atom::Identifier("b")));
    let mut empty = AtomIter::new(Atom::List(LispIter::new("")));
    for _ in 0..5 {
        assert_eq!(leaf.next(), None);
        assert_eq!(list.next(), None);
        assert_eq!(empty.next(), None);
    }
}

#[test]
fn stray_parenthesis_in_a_held_list_is_told() {
    assert!(AtomIter::new(Atom::List(LispIter::new(") a"))).at_stray_close());
    assert!(!AtomIter::new(Atom::List(LispIter::new("a )"))).at_stray_close());
    assert!(!AtomIter::new(Atom::Identifier(")")).at_stray_close());
    let mut it = AtomIter::new(Atom::List(LispIter::new("a )")));
    assert_eq!(it.next(), Some(Atom::Identifier("a")));
    assert!(it.at_stray_close());
    let mut leaf = AtomIter::new(Atom::Quote(")"));
    leaf.next();
    assert!(!leaf.at_stray_close());
}
