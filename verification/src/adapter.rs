//! Any atom as a sequence of atoms: a list as its children, every other atom
//! as itself alone.

use crate::grammar::{next_atom, stray_close, AtomView};
use crate::parser::Atom;
use vstd::prelude::*;

verus! {

/// What an atom that may be missing is as a value.
pub open spec fn view_of(atom: Option<Atom<'_>>) -> Option<AtomView> {
    match atom {
        Some(a) => Some(a@),
        None => None,
    }
}

/// One step of the sequence over `state`, the atom that is held: what is
/// handed out, and what is held afterwards.
///
/// A list hands out its next child and stays, read on to behind the child;
/// with no child left it hands out nothing and stays, read to its end. Any
/// other atom is handed out once and nothing is held after it. Where nothing
/// is held, nothing is handed out.
pub open spec fn unfold(state: Option<AtomView>) -> (Option<AtomView>, Option<AtomView>) {
    match state {
        Some(AtomView::List(unread)) => match next_atom(unread) {
            Some((child, rest)) => (Some(child), Some(AtomView::List(rest))),
            None => (None, Some(AtomView::List(Seq::empty()))),
        },
        Some(leaf) => (Some(leaf), None),
        None => (None, None),
    }
}

/// The sequence of atoms that an atom stands for: the children of a list, or
/// the atom itself where it is no list.
#[derive(Clone, Copy, Debug, PartialEq, Eq)]
pub struct AtomIter<'a> {
    atom: Option<Atom<'a>>,
}

impl<'a> View for AtomIter<'a> {
    type V = Option<AtomView>;

    /// The atom that is held, if any.
    closed spec fn view(&self) -> Option<AtomView> {
        view_of(self.atom)
    }
}

impl<'a> AtomIter<'a> {
    /// The sequence that `atom` stands for.
    pub fn new(atom: Atom<'a>) -> (it: Self)
        ensures
            it@ == Some(atom@),
    {
        Self { atom: Some(atom) }
    }

    /// Tells whether a list is held whose next token is a stray `)`. Nothing
    /// is read.
    pub fn at_stray_close(&self) -> (b: bool)
        ensures
            b == (self@ matches Some(AtomView::List(unread)) && stray_close(unread)),
    {
        match self.atom {
            Some(Atom::List(inner)) => inner.at_stray_close(),
            _ => false,
        }
    }

    /// Hands out the next atom of the sequence, as `unfold` says: the next
    /// child of a list, or the atom itself the first time it is asked for.
    ///
    /// A list whose next token is a stray `)` is not read.
    pub fn next(&mut self) -> (r: Option<Atom<'a>>)
        requires
            old(self)@ matches Some(AtomView::List(unread)) ==> !stray_close(unread),
        ensures
            view_of(r) == unfold(old(self)@).0,
            final(self)@ == unfold(old(self)@).1,
    {
        match self.atom {
            Some(Atom::List(mut inner)) => {
                let r = inner.next();
                self.atom = Some(Atom::List(inner));
                r
            },
            held => {
                self.atom = None;
                held
            },
        }
    }
}

impl<'a> Atom<'a> {
    /// The sequence that this atom stands for.
    pub fn into_iter(self) -> (it: AtomIter<'a>)
        ensures
            it@ == Some(self@),
    {
        AtomIter::new(self)
    }
}

} // verus!
