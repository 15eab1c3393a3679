//! The tokenizer: a cursor over a text that hands out one atom at a time.

use crate::chars::digit;
use crate::grammar::{
    all_readable, extent, lemma_atom_is_smaller, lemma_bounds, lemma_first_char_skip,
    lemma_first_whitespace_skip, lemma_list_close_skip, lemma_token_start_skip, next_atom, past,
    readable, stray_close, AtomView,
};
use crate::number::{float_literal, parse_integer};
use crate::scan::{find_char, find_list_close, find_whitespace, skip_blank};
use crate::source::{chars_before, lemma_cut_next, lemma_cut_order, slice, CharByteIter};
use vstd::pervasive::unreached;
use vstd::prelude::*;

verus! {

/// A cursor over a text in the syntax, which hands out the atoms of the text
/// one by one. It reads no further than the atom it hands out, and what it
/// hands out are views into the text.
#[derive(Clone, Copy, Debug, PartialEq, Eq)]
pub struct LispIter<'s> {
    chars: CharByteIter<'s>,
}

/// One unit of the syntax.
#[derive(Clone, Copy, Debug, PartialEq, Eq)]
pub enum Atom<'a> {
    /// A word: a token that is nothing else, up to the next whitespace.
    Identifier(&'a str),
    /// What stands between two `"`, or behind a `:` up to the next
    /// whitespace. Nothing in it is unescaped.
    Quote(&'a str),
    /// A decimal integer of 64 bits.
    Integer(i64),
    /// The text of a floating-point literal.
    Float(&'a str),
    /// What stands between a `(` and the `)` that closes it, as a cursor over
    /// that text.
    List(LispIter<'a>),
}

impl<'s> View for LispIter<'s> {
    type V = Seq<char>;

    /// What the cursor has not read yet.
    closed spec fn view(&self) -> Seq<char> {
        self.text()@.skip(self.read())
    }
}

impl<'a> View for Atom<'a> {
    type V = AtomView;

    open spec fn view(&self) -> AtomView {
        match self {
            Atom::Identifier(text) => AtomView::Identifier(text@),
            Atom::Quote(text) => AtomView::Quote(text@),
            Atom::Integer(value) => AtomView::Integer(*value),
            Atom::Float(text) => AtomView::Float(text@),
            Atom::List(inner) => AtomView::List(inner@),
        }
    }
}

impl<'s> LispIter<'s> {
    /// The text that the cursor was made for.
    pub closed spec fn text(&self) -> &'s str {
        self.chars.text()
    }

    /// The number of characters of the text that the cursor has read.
    pub closed spec fn read(&self) -> int {
        if 0 <= self.chars.index() <= self.chars.text()@.len() {
            self.chars.index()
        } else {
            self.chars.text()@.len() as int
        }
    }

    /// The cursor has read a beginning of its text, and the rest is unread.
    pub proof fn lemma_unread(&self)
        ensures
            0 <= self.read() <= self.text()@.len(),
            self@ == self.text()@.skip(self.read()),
    {
    }

    /// A cursor at the start of `input`.
    pub fn new(input: &'s str) -> (it: LispIter<'s>)
        ensures
            it.text() == input,
            it.read() == 0,
            it@ == input@,
    {
        let chars = CharByteIter::new(input);
        assert(input@.skip(0) =~= input@);
        LispIter { chars }
    }

    /// The text that the cursor was made for.
    pub fn input(&self) -> (text: &'s str)
        ensures
            text == self.text(),
    {
        self.chars.get_text()
    }

    /// Tells whether the next token starts with a `)` that closes no list.
    /// Nothing is read.
    pub fn at_stray_close(&self) -> (b: bool)
        ensures
            b == stray_close(self@),
    {
        let ghost t = self.text()@;
        let ghost p = self.read();
        proof {
            self.chars.lemma_not_negative();
            lemma_token_start_skip(t, p, 0, false);
            lemma_bounds(t, p, ' ', 0, false, false);
        }
        let mut probe = self.chars;
        match skip_blank(&mut probe) {
            Some((_, c)) => c == ')',
            None => false,
        }
    }

    /// Hands out the next atom of the text and reads on to behind it: the
    /// atom and the rest that `next_atom` gives for what was unread. `None`
    /// where only whitespace and comments were left; the cursor is then at
    /// the end of the text.
    ///
    /// A `)` at the start of a token closes no list. The cursor does not read
    /// such a text: `at_stray_close` tells beforehand.
    pub fn next(&mut self) -> (r: Option<Atom<'s>>)
        requires
            !stray_close(old(self)@),
        ensures
            final(self).text() == old(self).text(),
            old(self).read() <= final(self).read(),
            match next_atom(old(self)@) {
                Some((atom, rest)) => r matches Some(a) && a@ == atom && final(self)@ == rest,
                None => r is None && final(self)@ == Seq::<char>::empty(),
            },
            r matches Some(Atom::List(inner)) ==> inner.read() == 0,
    {
        let text = self.chars.get_text();
        let ghost t = text@;
        let ghost n = t.len() as int;
        let ghost p = self.read();
        let ghost s = self@;
        proof {
            self.chars.lemma_not_negative();
            lemma_token_start_skip(t, p, 0, false);
            lemma_bounds(t, p, ' ', 0, false, false);
        }
        let (start, c) = match skip_blank(&mut self.chars) {
            None => {
                assert(t.skip(n) =~= Seq::<char>::empty());
                return None;
            },
            Some(found) => found,
        };
        let ghost j = chars_before(text, start as int);
        proof {
            lemma_cut_next(text, start as int);
            lemma_bounds(t, j + 1, '"', 0, false, false);
            lemma_bounds(t, j, '"', 0, false, false);
            lemma_first_whitespace_skip(t, p, j - p);
            lemma_first_whitespace_skip(t, p, j + 1 - p);
            lemma_first_char_skip(t, p, j + 1 - p, '"');
            lemma_list_close_skip(t, p, j + 1 - p, 0, false, false);
            assert(s[j - p] == t[j]);
        }
        if c == '(' {
            let end = find_list_close(&mut self.chars);
            proof {
                lemma_cut_order(text, start + 1, end as int);
                let e = chars_before(text, end as int);
                assert(t.subrange(j + 1, e) =~= s.subrange(j + 1 - p, e - p));
                assert(t.skip(past(t, e)) =~= s.skip(past(s, e - p)));
            }
            let inner = slice(text, start + 1, end);
            Some(Atom::List(LispIter::new(inner)))
        } else if c == ')' {
            unreached()
        } else if c == '"' {
            let end = find_char(&mut self.chars, '"');
            proof {
                lemma_cut_order(text, start + 1, end as int);
                let e = chars_before(text, end as int);
                assert(t.subrange(j + 1, e) =~= s.subrange(j + 1 - p, e - p));
                assert(t.skip(past(t, e)) =~= s.skip(past(s, e - p)));
            }
            Some(Atom::Quote(slice(text, start + 1, end)))
        } else if c == ':' {
            let end = find_whitespace(&mut self.chars);
            proof {
                lemma_cut_order(text, start + 1, end as int);
                let e = chars_before(text, end as int);
                assert(t.subrange(j + 1, e) =~= s.subrange(j + 1 - p, e - p));
                assert(t.skip(past(t, e)) =~= s.skip(past(s, e - p)));
            }
            Some(Atom::Quote(slice(text, start + 1, end)))
        } else {
            let end = find_whitespace(&mut self.chars);
            proof {
                lemma_cut_order(text, start as int, end as int);
                let e = chars_before(text, end as int);
                assert(t.subrange(j, e) =~= s.subrange(j - p, e - p));
                assert(t.skip(past(t, e)) =~= s.skip(past(s, e - p)));
            }
            let token = slice(text, start, end);
            if c == '-' || digit(c) {
                match parse_integer(token) {
                    Some(value) => Some(Atom::Integer(value)),
                    None => if float_literal(token) {
                        Some(Atom::Float(token))
                    } else {
                        Some(Atom::Identifier(token))
                    },
                }
            } else {
                Some(Atom::Identifier(token))
            }
        }
    }

    /// Tells whether what is unread can be read to its end, and every list in
    /// it too. Nothing is read.
    pub fn is_readable(&self) -> (b: bool)
        ensures
            b == all_readable(self@),
        decreases self@.len(), 0int,
    {
        let mut cursor = *self;
        loop
            invariant
                all_readable(self@) == all_readable(cursor@),
                cursor@.len() <= self@.len(),
            decreases cursor@.len(),
        {
            if cursor.at_stray_close() {
                return false;
            }
            let ghost before = cursor@;
            match cursor.next() {
                None => {
                    return true;
                },
                Some(atom) => {
                    proof {
                        lemma_atom_is_smaller(before);
                    }
                    if !atom.is_readable() {
                        return false;
                    }
                },
            }
        }
    }
}

impl<'a> Atom<'a> {
    /// Tells whether the atom can be read to its end: it is no list, or a
    /// list in which no token, at any depth, starts with a stray `)`.
    pub fn is_readable(&self) -> (b: bool)
        ensures
            b == readable(self@),
        decreases extent(self@), 1int,
    {
        match self {
            Atom::List(inner) => inner.is_readable(),
            _ => true,
        }
    }
}

} // verus!
