//! What holds of the syntax for every text.

use crate::adapter::unfold;
use crate::chars::is_whitespace;
use crate::render::{debug_items, debug_text};
use crate::grammar::{
    first_char, first_whitespace, lemma_atom_is_smaller, lemma_bounds, next_atom, stray_close, token_start,
    AtomView,
};
use vstd::prelude::*;

verus! {

/// Where `first_char` finds the character, and that it stands nowhere before.
pub proof fn lemma_first_char_found(s: Seq<char>, i: int, c: char)
    requires
        0 <= i <= s.len(),
    ensures
        i <= first_char(s, i, c) <= s.len(),
        first_char(s, i, c) < s.len() ==> s[first_char(s, i, c)] == c,
        forall|k: int| i <= k < first_char(s, i, c) ==> s[k] != c,
    decreases s.len() - i,
{
    if i < s.len() && s[i] != c {
        lemma_first_char_found(s, i + 1, c);
    }
}

/// Where `first_whitespace` finds whitespace, and that none stands before.
pub proof fn lemma_first_whitespace_found(s: Seq<char>, i: int)
    requires
        0 <= i <= s.len(),
    ensures
        i <= first_whitespace(s, i) <= s.len(),
        first_whitespace(s, i) < s.len() ==> is_whitespace(s[first_whitespace(s, i)]),
        forall|k: int| i <= k < first_whitespace(s, i) ==> !is_whitespace(s[k]),
    decreases s.len() - i,
{
    if i < s.len() && !is_whitespace(s[i]) {
        lemma_first_whitespace_found(s, i + 1);
    }
}

/// The character at `k` lies in a comment: a `;` stands at or before it, and
/// the line of that `;` does not end before `k`.
pub open spec fn in_comment(s: Seq<char>, k: int) -> bool {
    exists|j: int| 0 <= j <= k && s[j] == ';' && #[trigger] first_char(s, j, '\n') >= k
}

/// `s` consists of whitespace and comments only.
pub open spec fn only_blank(s: Seq<char>) -> bool {
    forall|k: int| 0 <= k < s.len() ==> is_whitespace(#[trigger] s[k]) || in_comment(s, k)
}

/// A comment that started before `i` runs on at `i`.
spec fn comment_open(s: Seq<char>, i: int) -> bool {
    exists|j: int| 0 <= j < i && s[j] == ';' && #[trigger] first_char(s, j, '\n') >= i
}

proof fn lemma_blank_has_no_token(s: Seq<char>, i: int, commented: bool)
    requires
        0 <= i <= s.len(),
        only_blank(s),
        commented == comment_open(s, i),
    ensures
        token_start(s, i, commented) == s.len(),
    decreases s.len() - i,
{
    if i < s.len() {
        let c = s[i];
        assert(is_whitespace(s[i]) || in_comment(s, i));
        let next = if commented {
            c != '\n'
        } else {
            c == ';'
        };
        if next {
            // a comment runs on behind `i`: the one that was open, or one that starts here
            let j = if commented {
                choose|j: int| 0 <= j < i && s[j] == ';' && #[trigger] first_char(s, j, '\n') >= i
            } else {
                i
            };
            lemma_first_char_found(s, j, '\n');
            assert(first_char(s, j, '\n') >= i + 1);
            assert(comment_open(s, i + 1));
        } else {
            assert forall|j: int| 0 <= j < i + 1 && s[j] == ';' implies !(#[trigger] first_char(
                s,
                j,
                '\n',
            ) >= i + 1) by {
                lemma_first_char_found(s, j, '\n');
                if commented {
                    // the line ends at `i`
                    assert(s[i] == '\n');
                } else {
                    // no comment was open, and none starts at `i`
                    assert(j < i);
                    assert(!(first_char(s, j, '\n') >= i));
                }
            }
            assert(!comment_open(s, i + 1));
        }
        if !commented && !is_whitespace(c) && c != ';' {
            // a character outside whitespace lies in a comment, which was then open
            let j = choose|j: int| 0 <= j <= i && s[j] == ';' && #[trigger] first_char(s, j, '\n') >= i;
            assert(j < i);
            assert(comment_open(s, i));
        }
        lemma_blank_has_no_token(s, i + 1, next);
    }
}

proof fn lemma_no_token_is_blank(s: Seq<char>, i: int, commented: bool)
    requires
        0 <= i <= s.len(),
        commented ==> comment_open(s, i),
        token_start(s, i, commented) == s.len(),
    ensures
        forall|k: int| i <= k < s.len() ==> is_whitespace(#[trigger] s[k]) || in_comment(s, k),
    decreases s.len() - i,
{
    if i < s.len() {
        let c = s[i];
        let next = if commented {
            c != '\n'
        } else {
            c == ';'
        };
        let j = if commented {
            choose|j: int| 0 <= j < i && s[j] == ';' && #[trigger] first_char(s, j, '\n') >= i
        } else {
            i
        };
        if commented || c == ';' {
            lemma_first_char_found(s, j, '\n');
            assert(first_char(s, j, '\n') >= i);
            assert(in_comment(s, i));
            if next {
                assert(first_char(s, j, '\n') >= i + 1);
                assert(comment_open(s, i + 1));
            }
        }
        lemma_no_token_is_blank(s, i + 1, next);
    }
}

/// A text that consists of whitespace and comments only holds no atom, and
/// no stray `)` either: its atoms are none.
pub proof fn lemma_blank_text_has_no_atom(s: Seq<char>)
    requires
        only_blank(s),
    ensures
        next_atom(s) is None,
        !stray_close(s),
        atoms(s) == Seq::<AtomView>::empty(),
{
    assert(!comment_open(s, 0));
    lemma_blank_has_no_token(s, 0, false);
}

/// A text that holds no atom, and no stray `)` in place of one, consists of
/// whitespace and comments only.
pub proof fn lemma_text_without_atom_is_blank(s: Seq<char>)
    requires
        next_atom(s) is None,
        !stray_close(s),
    ensures
        only_blank(s),
{
    lemma_bounds(s, 0, ' ', 0, false, false);
    lemma_no_token_is_blank(s, 0, false);
}

/// All the atoms of `s` in order, as a cursor over `s` hands them out.
pub open spec fn atoms(s: Seq<char>) -> Seq<AtomView>
    decreases s.len(),
{
    match next_atom(s) {
        Some((atom, rest)) => {
            proof {
                lemma_atom_is_smaller(s);
            }
            seq![atom] + atoms(rest)
        },
        None => Seq::empty(),
    }
}

/// The text that an atom is a view of; an integer holds a value and no text.
pub open spec fn text_of(atom: AtomView) -> Option<Seq<char>> {
    match atom {
        AtomView::Identifier(text) => Some(text),
        AtomView::Quote(text) => Some(text),
        AtomView::Float(text) => Some(text),
        AtomView::List(text) => Some(text),
        AtomView::Integer(_) => None,
    }
}

/// An atom is read from the front of the text: what is left behind it is an
/// end of the text and shorter than the text, and the atom's own text lies in
/// the part that was read.
pub proof fn lemma_atom_lies_in_text(s: Seq<char>)
    requires
        next_atom(s) is Some,
    ensures
        ({
            let (atom, rest) = next_atom(s)->0;
            let read = s.len() - rest.len();
            &&& 0 < read <= s.len()
            &&& rest == s.skip(read)
            &&& text_of(atom) matches Some(text) ==> exists|from: int|
                0 <= from && from + text.len() <= read && text == #[trigger] s.subrange(
                    from,
                    from + text.len(),
                )
        }),
{
    let start = token_start(s, 0, false);
    lemma_bounds(s, 0, '"', 0, false, false);
    lemma_bounds(s, start, '"', 0, false, false);
    lemma_bounds(s, start + 1, '"', 0, false, false);
    let (atom, rest) = next_atom(s)->0;
    let read = s.len() - rest.len();
    assert(!is_whitespace(s[start])) by {
        lemma_token_start_is_no_blank(s, 0, false);
    }
    let opened = s[start] == '(' || s[start] == '"' || s[start] == ':';
    let from = if opened {
        start + 1
    } else {
        start
    };
    if text_of(atom) is Some {
        let text = text_of(atom)->0;
        let to = from + text.len();
        assert(0 <= from && to <= read);
        assert(text == s.subrange(from, to));
    }
}

/// Where a token starts stands neither whitespace nor the `;` of a comment.
pub proof fn lemma_token_start_is_no_blank(s: Seq<char>, i: int, commented: bool)
    requires
        0 <= i <= s.len(),
    ensures
        token_start(s, i, commented) < s.len() ==> !is_whitespace(s[token_start(s, i, commented)])
            && s[token_start(s, i, commented)] != ';',
    decreases s.len() - i,
{
    if i < s.len() {
        lemma_token_start_is_no_blank(s, i + 1, true);
        lemma_token_start_is_no_blank(s, i + 1, false);
    }
}

/// A cursor that has handed out `None` is at the end of its text, and there
/// it hands out `None` again.
pub proof fn lemma_end_of_text_has_no_atom()
    ensures
        next_atom(Seq::<char>::empty()) is None,
        atoms(Seq::<char>::empty()) == Seq::<AtomView>::empty(),
{
}

/// What shows the atoms of a text without atoms is the empty text, which reads
/// as what was shown: no atoms.
pub proof fn lemma_text_without_atoms_reads_back(s: Seq<char>)
    requires
        next_atom(s) is None,
    ensures
        debug_items(s, true) == Seq::<char>::empty(),
        atoms(debug_items(s, true)) == atoms(s),
{
}

/// What shows an atom reads as a word, whatever the atom is: it starts with
/// the name of the atom's kind or with a bracket.
pub proof fn lemma_shown_atom_reads_as_word(atom: AtomView)
    ensures
        next_atom(debug_text(atom)) matches Some((first, _)) && first is Identifier,
{
    reveal_strlit("Identifier(");
    reveal_strlit("Quote(");
    reveal_strlit("Integer(");
    reveal_strlit("Float(");
    reveal_strlit("[");
    let shown = debug_text(atom);
    assert(shown.len() > 0);
    assert(shown[0] == 'I' || shown[0] == 'Q' || shown[0] == 'F' || shown[0] == '[');
}

/// Once the sequence over an atom has handed out nothing, it hands out
/// nothing ever after: what it then holds does not change any more.
pub proof fn lemma_exhausted_stays_exhausted(state: Option<AtomView>)
    requires
        unfold(state).0 is None,
    ensures
        unfold(unfold(state).1) == (None::<AtomView>, unfold(state).1),
{
    lemma_end_of_text_has_no_atom();
}

} // verus!
