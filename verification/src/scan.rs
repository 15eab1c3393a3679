//! Scanning a character source forward to where a token starts or ends.

use crate::chars::{is_whitespace, whitespace};
use crate::grammar::{first_char, first_whitespace, list_close, token_start};
use crate::source::{chars_before, is_cut, lemma_cut_ends, CharByteIter};
use vstd::prelude::*;
use vstd::string::StringSliceAdditionalSpecFns;

verus! {

/// Reads whitespace and comments up to the character that starts the next
/// token, and hands that character out with its offset. `None` where the
/// text holds no further token; the source is then read to its end.
pub fn skip_blank(chars: &mut CharByteIter<'_>) -> (r: Option<(usize, char)>)
    ensures
        final(chars).text() == old(chars).text(),
        match r {
            Some((off, c)) => {
                let start = token_start(old(chars).text()@, old(chars).index(), false);
                &&& 0 <= start < old(chars).text()@.len()
                &&& c == old(chars).text()@[start]
                &&& !is_whitespace(c)
                &&& c != ';'
                &&& is_cut(old(chars).text(), off as int)
                &&& chars_before(old(chars).text(), off as int) == start
                &&& off < old(chars).text().spec_bytes().len()
                &&& final(chars).index() == start + 1
            },
            None => {
                &&& token_start(old(chars).text()@, old(chars).index(), false) == old(
                    chars,
                ).text()@.len()
                &&& final(chars).index() == old(chars).text()@.len() + 1
            },
        },
{
    let ghost s = chars.text()@;
    let ghost from = chars.index();
    let mut commented = false;
    loop
        invariant
            chars.text() == old(chars).text(),
            s == chars.text()@,
            from == old(chars).index(),
            token_start(s, from, false) == token_start(s, chars.index(), commented),
        decreases s.len() + 1 - chars.index(),
    {
        let ghost k = chars.index();
        match chars.next() {
            None => {
                return None;
            },
            Some((off, c)) => {
                assert(k < s.len() ==> chars.source()[k] == s[k]);
                if commented {
                    commented = c != '\n';
                } else if whitespace(c) {
                } else if c == ';' {
                    commented = true;
                } else {
                    return Some((off, c));
                }
            },
        }
    }
}

/// Reads up to the next whitespace character and through it, and returns the
/// offset at which it stands: that of the end of the text where the text
/// holds none.
pub fn find_whitespace(chars: &mut CharByteIter<'_>) -> (end: usize)
    ensures
        final(chars).text() == old(chars).text(),
        is_cut(old(chars).text(), end as int),
        chars_before(old(chars).text(), end as int) == first_whitespace(
            old(chars).text()@,
            old(chars).index(),
        ),
        final(chars).index() == first_whitespace(old(chars).text()@, old(chars).index()) + 1,
{
    let ghost s = chars.text()@;
    let ghost from = chars.index();
    let text = chars.get_text();
    proof {
        lemma_cut_ends(text);
        chars.lemma_not_negative();
    }
    loop
        invariant
            chars.text() == old(chars).text(),
            text == chars.text(),
            s == chars.text()@,
            from == old(chars).index(),
            0 <= chars.index(),
            first_whitespace(s, from) == first_whitespace(s, chars.index()),
            is_cut(text, text.spec_bytes().len() as int),
            chars_before(text, text.spec_bytes().len() as int) == s.len(),
        decreases s.len() + 1 - chars.index(),
    {
        let ghost k = chars.index();
        match chars.next() {
            None => {
                return text.as_bytes().len();
            },
            Some((off, c)) => {
                assert(k < s.len() ==> chars.source()[k] == s[k]);
                if whitespace(c) {
                    return off;
                }
            },
        }
    }
}

/// Reads up to the next `target` and through it, and returns the offset at
/// which it stands: that of the end of the text where the text holds none.
pub fn find_char(chars: &mut CharByteIter<'_>, target: char) -> (end: usize)
    ensures
        final(chars).text() == old(chars).text(),
        is_cut(old(chars).text(), end as int),
        chars_before(old(chars).text(), end as int) == first_char(
            old(chars).text()@,
            old(chars).index(),
            target,
        ),
        final(chars).index() == first_char(old(chars).text()@, old(chars).index(), target) + 1,
{
    let ghost s = chars.text()@;
    let ghost from = chars.index();
    let text = chars.get_text();
    proof {
        lemma_cut_ends(text);
        chars.lemma_not_negative();
    }
    loop
        invariant
            chars.text() == old(chars).text(),
            text == chars.text(),
            s == chars.text()@,
            from == old(chars).index(),
            0 <= chars.index(),
            chars.index() <= s.len() ==> first_char(s, from, target) == first_char(
                s,
                chars.index(),
                target,
            ),
            chars.index() > s.len() ==> first_char(s, from, target) == s.len(),
            is_cut(text, text.spec_bytes().len() as int),
            chars_before(text, text.spec_bytes().len() as int) == s.len(),
        decreases s.len() + 1 - chars.index(),
    {
        let ghost k = chars.index();
        match chars.next() {
            None => {
                return text.as_bytes().len();
            },
            Some((off, c)) => {
                assert(k < s.len() ==> chars.source()[k] == s[k]);
                if c == target {
                    return off;
                }
            },
        }
    }
}

/// Reads a list whose `(` was read already, up to the `)` that closes it and
/// through it, and returns the offset at which that `)` stands: that of the
/// end of the text where the list is not closed.
pub fn find_list_close(chars: &mut CharByteIter<'_>) -> (end: usize)
    ensures
        final(chars).text() == old(chars).text(),
        is_cut(old(chars).text(), end as int),
        chars_before(old(chars).text(), end as int) == list_close(
            old(chars).text()@,
            old(chars).index(),
            0,
            false,
            false,
        ),
        final(chars).index() == list_close(old(chars).text()@, old(chars).index(), 0, false, false)
            + 1,
{
    let ghost s = chars.text()@;
    let ghost from = chars.index();
    let text = chars.get_text();
    let limit = text.as_bytes().len();
    proof {
        lemma_cut_ends(text);
        chars.lemma_not_negative();
    }
    let mut depth: usize = 0;
    let mut quoted = false;
    let mut commented = false;
    loop
        invariant
            chars.text() == old(chars).text(),
            text == chars.text(),
            s == chars.text()@,
            from == old(chars).index(),
            limit == text.spec_bytes().len(),
            0 <= chars.index(),
            depth <= chars.offset(),
            chars.index() <= s.len() ==> list_close(s, from, 0, false, false) == list_close(
                s,
                chars.index(),
                depth as nat,
                quoted,
                commented,
            ),
            chars.index() > s.len() ==> list_close(s, from, 0, false, false) == s.len(),
            is_cut(text, limit as int),
            chars_before(text, limit as int) == s.len(),
        decreases s.len() + 1 - chars.index(),
    {
        let ghost k = chars.index();
        match chars.next() {
            None => {
                return limit;
            },
            Some((off, c)) => {
                assert(k < s.len() ==> chars.source()[k] == s[k]);
                assert(k == s.len() ==> c == '\n');
                let plain = !quoted && !commented;
                if depth == 0 && plain && c == ')' {
                    return off;
                } else if c == ';' {
                    commented = true;
                } else if c == '\n' {
                    commented = false;
                } else if c == '"' && !commented {
                    quoted = !quoted;
                } else if c == '(' && plain {
                    depth = depth + 1;
                } else if c == ')' && plain {
                    depth = depth - 1;
                }
            },
        }
    }
}

} // verus!
