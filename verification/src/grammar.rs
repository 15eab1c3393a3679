//! The syntax as functions on a text: where a token starts and ends, what
//! atom it is, and what is left of the text after it.

use crate::chars::{is_digit, is_whitespace};
use crate::number::{integer_of, is_float_literal};
use vstd::prelude::*;

verus! {

/// An atom as a value: the text of a word, the content of a quote, the value
/// of an integer, the text of a floating-point literal, or what is still
/// unread of the text inside a list.
pub enum AtomView {
    Identifier(Seq<char>),
    Quote(Seq<char>),
    Integer(i64),
    Float(Seq<char>),
    List(Seq<char>),
}

/// The index of the first whitespace character of `s` at or after `i`, and
/// the length of `s` where there is none.
pub open spec fn first_whitespace(s: Seq<char>, i: int) -> int
    decreases s.len() - i,
{
    if !(0 <= i < s.len()) {
        s.len() as int
    } else if is_whitespace(s[i]) {
        i
    } else {
        first_whitespace(s, i + 1)
    }
}

/// The index of the first `c` in `s` at or after `i`, and the length of `s`
/// where there is none.
pub open spec fn first_char(s: Seq<char>, i: int, c: char) -> int
    decreases s.len() - i,
{
    if !(0 <= i < s.len()) {
        s.len() as int
    } else if s[i] == c {
        i
    } else {
        first_char(s, i + 1, c)
    }
}

/// The index at which the next token of `s` starts, at or after `i`: the
/// first character that is neither whitespace nor part of a comment, which
/// runs from a `;` to the end of its line. `commented` tells whether `i` lies
/// in a comment. Where no token starts, the length of `s`.
pub open spec fn token_start(s: Seq<char>, i: int, commented: bool) -> int
    decreases s.len() - i,
{
    if !(0 <= i < s.len()) {
        s.len() as int
    } else if commented {
        token_start(s, i + 1, s[i] != '\n')
    } else if is_whitespace(s[i]) {
        token_start(s, i + 1, false)
    } else if s[i] == ';' {
        token_start(s, i + 1, true)
    } else {
        i
    }
}

/// The index of the `)` that closes a list, read from `i` on with `depth`
/// lists open inside it: the first `)` outside a comment and a quoted string
/// at depth 0. The length of `s` where the list is not closed.
///
/// A `;` starts a comment wherever it stands, and the end of the line ends
/// it. Outside a comment a `"` starts or ends a quoted string. Outside both, a
/// `(` opens a list and a `)` closes one.
pub open spec fn list_close(s: Seq<char>, i: int, depth: nat, quoted: bool, commented: bool) -> int
    decreases s.len() - i,
{
    if !(0 <= i < s.len()) {
        s.len() as int
    } else {
        let c = s[i];
        let plain = !quoted && !commented;
        if depth == 0 && plain && c == ')' {
            i
        } else if c == ';' {
            list_close(s, i + 1, depth, quoted, true)
        } else if c == '\n' {
            list_close(s, i + 1, depth, quoted, false)
        } else if c == '"' && !commented {
            list_close(s, i + 1, depth, !quoted, commented)
        } else if c == '(' && plain {
            list_close(s, i + 1, depth + 1, quoted, commented)
        } else if c == ')' && plain {
            list_close(s, i + 1, (depth - 1) as nat, quoted, commented)
        } else {
            list_close(s, i + 1, depth, quoted, commented)
        }
    }
}

/// The index behind the delimiter at `end`, which is read with its token;
/// the length of `s` where the token ran to the end.
pub open spec fn past(s: Seq<char>, end: int) -> int {
    if 0 <= end < s.len() {
        end + 1
    } else {
        s.len() as int
    }
}

/// What a token is that starts like a number: an integer where it reads as
/// one of 64 bits, else a floating-point literal where it is one, else a word.
pub open spec fn number_or_word(token: Seq<char>) -> AtomView {
    match integer_of(token) {
        Some(v) => AtomView::Integer(v),
        None => if is_float_literal(token) {
            AtomView::Float(token)
        } else {
            AtomView::Identifier(token)
        },
    }
}

/// The next token of `s` starts with a `)` that closes no list.
pub open spec fn stray_close(s: Seq<char>) -> bool {
    let start = token_start(s, 0, false);
    start < s.len() && s[start] == ')'
}

/// The first atom of `s` with what is left of `s` behind it, and `None` where
/// `s` holds whitespace and comments only. Of a text whose next token is a
/// stray `)` nothing is said: such a text is not read.
///
/// By the character that the token starts with:
/// - `(`: a list, up to the `)` that closes it or to the end of `s`;
/// - `"`: a quote, up to the next `"` or to the end of `s`;
/// - `:`: a quote, up to the next whitespace;
/// - `-` or a digit: up to the next whitespace, a number or a word;
/// - any other: a word, up to the next whitespace.
pub open spec fn next_atom(s: Seq<char>) -> Option<(AtomView, Seq<char>)> {
    let start = token_start(s, 0, false);
    if !(start < s.len()) || s[start] == ')' {
        None
    } else if s[start] == '(' {
        let end = list_close(s, start + 1, 0, false, false);
        Some((AtomView::List(s.subrange(start + 1, end)), s.skip(past(s, end))))
    } else if s[start] == '"' {
        let end = first_char(s, start + 1, '"');
        Some((AtomView::Quote(s.subrange(start + 1, end)), s.skip(past(s, end))))
    } else if s[start] == ':' {
        let end = first_whitespace(s, start + 1);
        Some((AtomView::Quote(s.subrange(start + 1, end)), s.skip(past(s, end))))
    } else {
        let end = first_whitespace(s, start);
        let token = s.subrange(start, end);
        let atom = if s[start] == '-' || is_digit(s[start]) {
            number_or_word(token)
        } else {
            AtomView::Identifier(token)
        };
        Some((atom, s.skip(past(s, end))))
    }
}

/// Whitespace is found in what is left of a text where it is found in the text.
pub proof fn lemma_first_whitespace_skip(s: Seq<char>, k: int, i: int)
    requires
        0 <= k <= s.len(),
        0 <= i,
    ensures
        first_whitespace(s.skip(k), i) + k == first_whitespace(s, k + i),
    decreases s.len() - k - i,
{
    if i < s.len() - k && !is_whitespace(s[k + i]) {
        lemma_first_whitespace_skip(s, k, i + 1);
    }
}

/// A character is found in what is left of a text where it is found in the text.
pub proof fn lemma_first_char_skip(s: Seq<char>, k: int, i: int, c: char)
    requires
        0 <= k <= s.len(),
        0 <= i,
    ensures
        first_char(s.skip(k), i, c) + k == first_char(s, k + i, c),
    decreases s.len() - k - i,
{
    if i < s.len() - k && s[k + i] != c {
        lemma_first_char_skip(s, k, i + 1, c);
    }
}

/// A token starts in what is left of a text where it starts in the text.
pub proof fn lemma_token_start_skip(s: Seq<char>, k: int, i: int, commented: bool)
    requires
        0 <= k <= s.len(),
        0 <= i,
    ensures
        token_start(s.skip(k), i, commented) + k == token_start(s, k + i, commented),
    decreases s.len() - k - i,
{
    if i < s.len() - k {
        let c = s[k + i];
        if commented {
            lemma_token_start_skip(s, k, i + 1, c != '\n');
        } else if is_whitespace(c) {
            lemma_token_start_skip(s, k, i + 1, false);
        } else if c == ';' {
            lemma_token_start_skip(s, k, i + 1, true);
        }
    }
}

/// A list is closed in what is left of a text where it is closed in the text.
pub proof fn lemma_list_close_skip(
    s: Seq<char>,
    k: int,
    i: int,
    depth: nat,
    quoted: bool,
    commented: bool,
)
    requires
        0 <= k <= s.len(),
        0 <= i,
    ensures
        list_close(s.skip(k), i, depth, quoted, commented) + k == list_close(
            s,
            k + i,
            depth,
            quoted,
            commented,
        ),
    decreases s.len() - k - i,
{
    if i < s.len() - k {
        let c = s[k + i];
        let plain = !quoted && !commented;
        if depth == 0 && plain && c == ')' {
        } else if c == ';' {
            lemma_list_close_skip(s, k, i + 1, depth, quoted, true);
        } else if c == '\n' {
            lemma_list_close_skip(s, k, i + 1, depth, quoted, false);
        } else if c == '"' && !commented {
            lemma_list_close_skip(s, k, i + 1, depth, !quoted, commented);
        } else if c == '(' && plain {
            lemma_list_close_skip(s, k, i + 1, depth + 1, quoted, commented);
        } else if c == ')' && plain {
            lemma_list_close_skip(s, k, i + 1, (depth - 1) as nat, quoted, commented);
        } else {
            lemma_list_close_skip(s, k, i + 1, depth, quoted, commented);
        }
    }
}

/// Where the functions of this file look: a token starts inside the text or
/// at its end, and ends at or after its start.
pub proof fn lemma_bounds(s: Seq<char>, i: int, c: char, depth: nat, quoted: bool, commented: bool)
    requires
        0 <= i <= s.len(),
    ensures
        i <= first_whitespace(s, i) <= s.len(),
        i <= first_char(s, i, c) <= s.len(),
        i <= token_start(s, i, commented) <= s.len(),
        i <= list_close(s, i, depth, quoted, commented) <= s.len(),
    decreases s.len() - i,
{
    if i < s.len() {
        lemma_bounds(s, i + 1, c, depth, quoted, commented);
        lemma_bounds(s, i + 1, c, depth, quoted, true);
        lemma_bounds(s, i + 1, c, depth, quoted, false);
        lemma_bounds(s, i + 1, c, depth, !quoted, commented);
        lemma_bounds(s, i + 1, c, depth + 1, quoted, commented);
        lemma_bounds(s, i + 1, c, (depth - 1) as nat, quoted, commented);
    }
}

/// How much text an atom holds that is still to be read: what is unread of a
/// list, and nothing for any other atom.
pub open spec fn extent(atom: AtomView) -> nat {
    match atom {
        AtomView::List(unread) => unread.len(),
        _ => 0,
    }
}

/// An atom holds less text than the text it was read from, and so does what
/// is left behind it.
pub proof fn lemma_atom_is_smaller(s: Seq<char>)
    requires
        next_atom(s) is Some,
    ensures
        ({
            let (atom, rest) = next_atom(s)->0;
            extent(atom) < s.len() && rest.len() < s.len()
        }),
{
    let start = token_start(s, 0, false);
    lemma_bounds(s, 0, '"', 0, false, false);
    lemma_bounds(s, start, '"', 0, false, false);
    lemma_bounds(s, start + 1, '"', 0, false, false);
}

/// A text can be read to its end, and so can every list in it: no token of
/// it, at any depth, starts with a stray `)`.
pub open spec fn all_readable(s: Seq<char>) -> bool
    decreases s.len(), 0int,
{
    &&& !stray_close(s)
    &&& match next_atom(s) {
        Some((atom, rest)) => {
            proof {
                lemma_atom_is_smaller(s);
            }
            readable(atom) && all_readable(rest)
        },
        None => true,
    }
}

/// An atom can be read to its end: it is no list, or a list whose text can.
pub open spec fn readable(atom: AtomView) -> bool
    decreases extent(atom), 1int,
{
    match atom {
        AtomView::List(unread) => all_readable(unread),
        _ => true,
    }
}

} // verus!
