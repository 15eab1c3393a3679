//! Number literals: which texts are decimal integers of 64 bits, with their
//! value, and which are floating-point literals.

use crate::chars::{digit, is_digit};
use crate::source::CharByteIter;
use vstd::prelude::*;

verus! {

/// The number that a decimal digit stands for.
pub open spec fn digit_value(c: char) -> int {
    c as int - '0' as int
}

/// The number that a text of decimal digits stands for; 0 for the empty text.
pub open spec fn decimal_value(s: Seq<char>) -> int
    decreases s.len(),
{
    if s.len() == 0 {
        0
    } else {
        10 * decimal_value(s.drop_last()) + digit_value(s.last())
    }
}

/// The index at which the digits that start at `i` end.
pub open spec fn digits_end(s: Seq<char>, i: int) -> int
    decreases s.len() - i,
{
    if 0 <= i < s.len() && is_digit(s[i]) {
        digits_end(s, i + 1)
    } else {
        i
    }
}

/// The index behind a sign at `i`, and `i` itself where no sign stands there.
pub open spec fn after_sign(s: Seq<char>, i: int) -> int {
    if 0 <= i < s.len() && (s[i] == '-' || s[i] == '+') {
        i + 1
    } else {
        i
    }
}

/// The integer that `s` denotes: an optional sign, then one digit or more and
/// nothing else. No other text denotes one. This is the syntax that
/// `i64::from_str` of std reads.
pub open spec fn integer_literal(s: Seq<char>) -> Option<int> {
    let start = after_sign(s, 0);
    if start < s.len() && digits_end(s, start) == s.len() {
        let magnitude = decimal_value(s.skip(start));
        Some(
            if s[0] == '-' {
                -magnitude
            } else {
                magnitude
            },
        )
    } else {
        None
    }
}

/// The integer that `s` denotes where it fits into 64 bits with a sign.
pub open spec fn integer_of(s: Seq<char>) -> Option<i64> {
    match integer_literal(s) {
        Some(v) => if i64::MIN <= v <= i64::MAX {
            Some(v as i64)
        } else {
            None
        },
        None => None,
    }
}

/// `c` is the lower-case letter `letter` or its upper-case form.
pub open spec fn same_letter(c: char, letter: char) -> bool {
    c == letter || ('A' <= c <= 'Z' && c as u32 + 32 == letter as u32)
}

/// What follows in `s` from `i` on is `word`, in upper or lower case.
pub open spec fn is_word_from(s: Seq<char>, i: int, word: Seq<char>) -> bool {
    &&& 0 <= i
    &&& s.len() - i == word.len()
    &&& forall|j: int| 0 <= j < word.len() ==> same_letter(#[trigger] s[i + j], word[j])
}

/// What follows in `s` from `i` on is an exponent: `e` or `E`, an optional
/// sign, and one digit or more.
pub open spec fn is_exponent_from(s: Seq<char>, i: int) -> bool {
    &&& 0 <= i < s.len()
    &&& (s[i] == 'e' || s[i] == 'E')
    &&& after_sign(s, i + 1) < s.len()
    &&& digits_end(s, after_sign(s, i + 1)) == s.len()
}

/// What follows in `s` from `i` on is a decimal number: digits, which a point
/// and more digits may follow, with at least one digit before or after the
/// point, and then an optional exponent.
pub open spec fn is_decimal_from(s: Seq<char>, i: int) -> bool {
    let point = digits_end(s, i);
    let pointed = point < s.len() && s[point] == '.';
    let end = if pointed {
        digits_end(s, point + 1)
    } else {
        point
    };
    let digits = if pointed {
        end - i - 1
    } else {
        end - i
    };
    &&& 0 <= i
    &&& digits > 0
    &&& (end == s.len() || is_exponent_from(s, end))
}

/// `s` is a floating-point literal: an optional sign, then a decimal number
/// or one of the words `inf`, `infinity` and `nan` in any case. This is the
/// syntax that `f64::from_str` of std reads.
pub open spec fn is_float_literal(s: Seq<char>) -> bool {
    let start = after_sign(s, 0);
    ||| is_decimal_from(s, start)
    ||| is_word_from(s, start, seq!['i', 'n', 'f'])
    ||| is_word_from(s, start, seq!['n', 'a', 'n'])
    ||| is_word_from(s, start, seq!['i', 'n', 'f', 'i', 'n', 'i', 't', 'y'])
}

/// Digits run up to the first character that is no digit.
pub proof fn lemma_digits_end(s: Seq<char>, i: int, k: int)
    requires
        0 <= i <= k <= s.len(),
        forall|j: int| i <= j < k ==> is_digit(#[trigger] s[j]),
        k == s.len() || !is_digit(s[k]),
    ensures
        digits_end(s, i) == k,
    decreases k - i,
{
    if i < k {
        lemma_digits_end(s, i + 1, k);
    }
}

/// From its start to its end a run of digits holds digits only.
pub proof fn lemma_digits_end_holds(s: Seq<char>, i: int)
    requires
        0 <= i <= s.len(),
    ensures
        i <= digits_end(s, i) <= s.len(),
        forall|j: int| i <= j < digits_end(s, i) ==> is_digit(#[trigger] s[j]),
        digits_end(s, i) < s.len() ==> !is_digit(s[digits_end(s, i)]),
    decreases s.len() - i,
{
    if i < s.len() && is_digit(s[i]) {
        lemma_digits_end_holds(s, i + 1);
    }
}

/// One digit more makes the value ten times as large, plus the digit.
pub proof fn lemma_decimal_value_push(s: Seq<char>, from: int, to: int)
    requires
        0 <= from <= to < s.len(),
    ensures
        decimal_value(s.subrange(from, to + 1)) == 10 * decimal_value(s.subrange(from, to))
            + digit_value(s[to]),
{
    assert(s.subrange(from, to + 1).drop_last() =~= s.subrange(from, to));
}

/// A text of digits is worth no less than any of its beginnings.
pub proof fn lemma_decimal_value_grows(s: Seq<char>, k: int)
    requires
        0 <= k <= s.len(),
        forall|j: int| 0 <= j < s.len() ==> is_digit(#[trigger] s[j]),
    ensures
        0 <= decimal_value(s.take(k)) <= decimal_value(s),
    decreases s.len(),
{
    if k == s.len() {
        assert(s.take(k) =~= s);
        if s.len() > 0 {
            lemma_decimal_value_grows(s.drop_last(), k - 1);
        }
    } else {
        assert(s.drop_last().take(k) =~= s.take(k));
        lemma_decimal_value_grows(s.drop_last(), k);
    }
}

/// Hands out the digits that come next and tells whether there was one.
fn skip_digits(it: &mut CharByteIter<'_>) -> (any: bool)
    requires
        0 <= old(it).index() <= old(it).text()@.len(),
    ensures
        final(it).text() == old(it).text(),
        final(it).index() == digits_end(old(it).text()@, old(it).index()),
        old(it).index() <= final(it).index() <= old(it).text()@.len(),
        any == (old(it).index() < final(it).index()),
{
    let ghost s = it.text()@;
    let ghost start = it.index();
    let mut any = false;
    loop
        invariant
            it.text() == old(it).text(),
            s == it.text()@,
            start == old(it).index(),
            0 <= start <= it.index() <= s.len(),
            forall|j: int| start <= j < it.index() ==> is_digit(#[trigger] s[j]),
            any == (start < it.index()),
        ensures
            it.index() == s.len() || !is_digit(s[it.index()]),
        decreases s.len() - it.index(),
    {
        match it.peek() {
            None => {
                break ;
            },
            Some(c) => {
                if !digit(c) {
                    break ;
                }
                it.next();
                any = true;
            },
        }
    }
    proof {
        lemma_digits_end(s, start, it.index());
    }
    any
}

/// Hands out a sign, where one comes next, and tells whether it was a minus.
fn skip_sign(it: &mut CharByteIter<'_>) -> (minus: bool)
    requires
        0 <= old(it).index() <= old(it).text()@.len(),
    ensures
        final(it).text() == old(it).text(),
        final(it).index() == after_sign(old(it).text()@, old(it).index()),
        final(it).index() <= old(it).text()@.len(),
        minus == (old(it).index() < old(it).text()@.len() && old(it).text()@[old(it).index()]
            == '-'),
{
    match it.peek() {
        Some(c) => {
            if c == '-' || c == '+' {
                it.next();
            }
            c == '-'
        },
        None => false,
    }
}

/// The largest magnitude of an integer of 64 bits: that of the smallest one.
const MAGNITUDE_LIMIT: u64 = 0x8000_0000_0000_0000;

/// Reads `text` as a decimal integer of 64 bits: an optional sign, then one
/// digit or more and nothing else. `None` for every other text, and where
/// the number does not fit.
pub fn parse_integer(text: &str) -> (r: Option<i64>)
    ensures
        r == integer_of(text@),
{
    let ghost s = text@;
    let mut it = CharByteIter::new(text);
    let negative = skip_sign(&mut it);
    let ghost start = it.index();
    let mut magnitude: u64 = 0;
    let mut any = false;
    loop
        invariant
            it.text() == text,
            s == text@,
            start == after_sign(s, 0),
            any == (start < it.index()),
            0 <= start <= it.index() <= s.len(),
            forall|j: int| start <= j < it.index() ==> is_digit(#[trigger] s[j]),
            magnitude == decimal_value(s.subrange(start, it.index())),
            magnitude <= MAGNITUDE_LIMIT,
        ensures
            it.index() == s.len(),
        decreases s.len() - it.index(),
    {
        match it.peek() {
            None => {
                break ;
            },
            Some(c) => {
                if !digit(c) {
                    proof {
                        lemma_digits_end(s, start, it.index());
                    }
                    return None;
                }
                let d: u64 = (c as u32 - '0' as u32) as u64;
                proof {
                    lemma_decimal_value_push(s, start, it.index());
                }
                if magnitude > (MAGNITUDE_LIMIT - d) / 10 {
                    proof {
                        let k = it.index();
                        if digits_end(s, start) == s.len() {
                            lemma_digits_end_holds(s, start);
                            let body = s.skip(start);
                            assert(body.take(k + 1 - start) =~= s.subrange(start, k + 1));
                            lemma_decimal_value_grows(body, k + 1 - start);
                        }
                    }
                    return None;
                }
                magnitude = magnitude * 10 + d;
                it.next();
                any = true;
            },
        }
    }
    proof {
        lemma_digits_end(s, start, s.len() as int);
        assert(s.subrange(start, s.len() as int) =~= s.skip(start));
    }
    if !any {
        return None;
    }
    if negative {
        if magnitude == MAGNITUDE_LIMIT {
            Some(i64::MIN)
        } else {
            Some(-(magnitude as i64))
        }
    } else {
        if magnitude == MAGNITUDE_LIMIT {
            None
        } else {
            Some(magnitude as i64)
        }
    }
}

/// Tells whether what `it` has left of its text is `word`, in upper or lower
/// case.
fn word_follows(it: CharByteIter<'_>, word: &str) -> (b: bool)
    requires
        0 <= it.index() <= it.text()@.len(),
    ensures
        b == is_word_from(it.text()@, it.index(), word@),
{
    let ghost s = it.text()@;
    let ghost start = it.index();
    let mut left = it;
    let mut right = CharByteIter::new(word);
    loop
        invariant
            left.text() == it.text(),
            right.text() == word,
            s == it.text()@,
            start == it.index(),
            0 <= start <= left.index() <= s.len(),
            0 <= right.index() <= word@.len(),
            left.index() - start == right.index(),
            forall|j: int| 0 <= j < right.index() ==> same_letter(#[trigger] s[start + j], word@[j]),
        decreases word@.len() - right.index(),
    {
        match right.peek() {
            None => {
                return left.peek().is_none();
            },
            Some(letter) => {
                match left.peek() {
                    None => {
                        return false;
                    },
                    Some(c) => {
                        let same = c == letter || ('A' <= c && c <= 'Z' && c as u32 + 32
                            == letter as u32);
                        if !same {
                            assert(!same_letter(s[start + right.index()], word@[right.index()]));
                            return false;
                        }
                        left.next();
                        right.next();
                    },
                }
            },
        }
    }
}

/// Tells whether `text` is a floating-point literal: an optional sign, then
/// a decimal number (digits with an optional point among or beside them, and
/// an optional exponent) or one of the words `inf`, `infinity` and `nan` in
/// any case.
pub fn float_literal(text: &str) -> (b: bool)
    ensures
        b == is_float_literal(text@),
{
    let ghost s = text@;
    let mut it = CharByteIter::new(text);
    skip_sign(&mut it);
    proof {
        reveal_strlit("inf");
        reveal_strlit("nan");
        reveal_strlit("infinity");
        assert("inf"@ =~= seq!['i', 'n', 'f']);
        assert("nan"@ =~= seq!['n', 'a', 'n']);
        assert("infinity"@ =~= seq!['i', 'n', 'f', 'i', 'n', 'i', 't', 'y']);
    }
    if word_follows(it, "inf") || word_follows(it, "nan") || word_follows(it, "infinity") {
        return true;
    }
    let whole = skip_digits(&mut it);
    let mut fraction = false;
    match it.peek() {
        Some(c) => {
            if c == '.' {
                it.next();
                fraction = skip_digits(&mut it);
            }
        },
        None => {},
    }
    if !whole && !fraction {
        return false;
    }
    match it.peek() {
        None => true,
        Some(c) => {
            if c == 'e' || c == 'E' {
                it.next();
                skip_sign(&mut it);
                let exponent = skip_digits(&mut it);
                exponent && it.peek().is_none()
            } else {
                false
            }
        },
    }
}

} // verus!
