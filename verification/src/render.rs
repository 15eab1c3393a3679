//! The text that shows an atom: a leaf as its kind with its payload, a list
//! as the texts of its children in brackets.

use crate::chars::is_digit;
use crate::grammar::{
    all_readable, extent, lemma_atom_is_smaller, next_atom, readable, AtomView,
};
use crate::number::{decimal_value, integer_literal, lemma_digits_end};
use crate::parser::{Atom, LispIter};
use vstd::prelude::*;
use vstd::string::StringExecFns;

verus! {

/// The character for a digit's number.
pub open spec fn digit_char(d: int) -> char {
    if d == 0 {
        '0'
    } else if d == 1 {
        '1'
    } else if d == 2 {
        '2'
    } else if d == 3 {
        '3'
    } else if d == 4 {
        '4'
    } else if d == 5 {
        '5'
    } else if d == 6 {
        '6'
    } else if d == 7 {
        '7'
    } else if d == 8 {
        '8'
    } else {
        '9'
    }
}

/// The decimal digits of `n`, with no zero in front of them.
pub open spec fn decimal_text(n: nat) -> Seq<char>
    decreases n,
{
    if n < 10 {
        seq![digit_char(n as int)]
    } else {
        decimal_text(n / 10).push(digit_char((n % 10) as int))
    }
}

/// An integer in decimal, with a `-` in front where it is negative.
pub open spec fn integer_text(v: int) -> Seq<char> {
    if v < 0 {
        seq!['-'] + decimal_text((-v) as nat)
    } else {
        decimal_text(v as nat)
    }
}

/// The text of one digit.
fn digit_str(d: u64) -> (r: &'static str)
    requires
        d < 10,
    ensures
        r@ == seq![digit_char(d as int)],
{
    proof {
        reveal_strlit("0");
        reveal_strlit("1");
        reveal_strlit("2");
        reveal_strlit("3");
        reveal_strlit("4");
        reveal_strlit("5");
        reveal_strlit("6");
        reveal_strlit("7");
        reveal_strlit("8");
        reveal_strlit("9");
    }
    let r = if d == 0 {
        "0"
    } else if d == 1 {
        "1"
    } else if d == 2 {
        "2"
    } else if d == 3 {
        "3"
    } else if d == 4 {
        "4"
    } else if d == 5 {
        "5"
    } else if d == 6 {
        "6"
    } else if d == 7 {
        "7"
    } else if d == 8 {
        "8"
    } else {
        "9"
    };
    assert(r@ =~= seq![digit_char(d as int)]);
    r
}

/// Writes an integer in decimal.
pub fn integer_string(v: i64) -> (r: String)
    ensures
        r@ == integer_text(v as int),
{
    let mut left: u64 = if v >= 0 {
        v as u64
    } else if v == i64::MIN {
        0x8000_0000_0000_0000
    } else {
        (-v) as u64
    };
    let ghost magnitude = left as nat;
    let mut digits = String::from_str(digit_str(left % 10));
    left = left / 10;
    while left > 0
        invariant
            magnitude == if v >= 0 {
                v as int
            } else {
                -(v as int)
            },
            decimal_text(magnitude) == if left == 0 {
                digits@
            } else {
                decimal_text(left as nat) + digits@
            },
        decreases left,
    {
        let ghost before = digits@;
        digits = String::from_str(digit_str(left % 10)).concat(digits.as_str());
        proof {
            let d = seq![digit_char((left % 10) as int)];
            assert(digits@ == d + before);
            if left >= 10 {
                assert(decimal_text(left as nat) + before =~= decimal_text((left / 10) as nat) + (d
                    + before));
            } else {
                assert(decimal_text(left as nat) + before =~= d + before);
            }
        }
        left = left / 10;
    }
    if v < 0 {
        proof {
            reveal_strlit("-");
            assert("-"@ =~= seq!['-']);
        }
        String::from_str("-").concat(digits.as_str())
    } else {
        digits
    }
}

/// The decimal digits of a number are digits, and their value is the number.
pub proof fn lemma_decimal_text(n: nat)
    ensures
        decimal_text(n).len() > 0,
        forall|j: int| 0 <= j < decimal_text(n).len() ==> is_digit(#[trigger] decimal_text(n)[j]),
        decimal_value(decimal_text(n)) == n,
    decreases n,
{
    if n < 10 {
        assert(decimal_text(n).drop_last() =~= Seq::<char>::empty());
        assert(decimal_value(decimal_text(n).drop_last()) == 0);
    } else {
        lemma_decimal_text(n / 10);
        assert(decimal_text(n).drop_last() =~= decimal_text(n / 10));
    }
}

/// An integer that is written in decimal reads as itself.
pub proof fn lemma_integer_text_reads_back(v: int)
    ensures
        integer_literal(integer_text(v)) == Some(v),
{
    let magnitude = (if v < 0 {
        -v
    } else {
        v
    }) as nat;
    let digits = decimal_text(magnitude);
    let text = integer_text(v);
    lemma_decimal_text(magnitude);
    if v < 0 {
        assert(text.skip(1) =~= digits);
        lemma_digits_end(text, 1, text.len() as int);
    } else {
        assert(text.skip(0) =~= digits);
        lemma_digits_end(text, 0, text.len() as int);
    }
}

/// A text as `Debug` of std shows it: between two `"`, with an escape in
/// place of a `"`, a `\` and each character that does not print.
pub uninterp spec fn str_debug(text: Seq<char>) -> Seq<char>;

/// `Debug` of std for `str`, through `format!`: the text that shows `text`.
/// It depends on the characters of `text` alone.
#[verifier::external_body]
fn quoted(text: &str) -> (r: String)
    ensures
        r@ == str_debug(text@),
{
    format!("{:?}", text)
}

/// The text that shows an atom: a leaf as the name of its kind and, in
/// parentheses, its payload (a text as `str_debug` shows it, an integer in
/// decimal, a floating-point literal as it was written); a list as the texts
/// that show its unread children, in brackets, with `, ` between them.
pub open spec fn debug_text(atom: AtomView) -> Seq<char>
    decreases extent(atom), 1int,
{
    match atom {
        AtomView::Identifier(text) => "Identifier("@ + str_debug(text) + ")"@,
        AtomView::Quote(text) => "Quote("@ + str_debug(text) + ")"@,
        AtomView::Integer(value) => "Integer("@ + integer_text(value as int) + ")"@,
        AtomView::Float(text) => "Float("@ + text + ")"@,
        AtomView::List(unread) => "["@ + debug_items(unread, true) + "]"@,
    }
}

/// The texts that show the atoms of `s`, each but the first with `, ` before
/// it. `first` tells whether the first atom of `s` is the first to be shown.
pub open spec fn debug_items(s: Seq<char>, first: bool) -> Seq<char>
    decreases s.len(), 0int,
{
    match next_atom(s) {
        Some((atom, rest)) => {
            proof {
                lemma_atom_is_smaller(s);
            }
            let separator = if first {
                Seq::empty()
            } else {
                ", "@
            };
            separator + debug_text(atom) + debug_items(rest, false)
        },
        None => Seq::empty(),
    }
}

impl<'s> LispIter<'s> {
    /// The texts that show the atoms that are unread, with `, ` between them.
    /// Nothing is read.
    fn items_string(&self) -> (r: String)
        requires
            all_readable(self@),
        ensures
            r@ == debug_items(self@, true),
        decreases self@.len(), 0int,
    {
        let mut cursor = *self;
        let mut out = String::new();
        let mut first = true;
        loop
            invariant
                all_readable(cursor@),
                cursor@.len() <= self@.len(),
                debug_items(self@, true) == out@ + debug_items(cursor@, first),
            ensures
                out@ == debug_items(self@, true),
            decreases cursor@.len(),
        {
            let ghost before = cursor@;
            let ghost shown = out@;
            match cursor.next() {
                None => {
                    assert(out@ + Seq::<char>::empty() =~= out@);
                    break ;
                },
                Some(atom) => {
                    proof {
                        lemma_atom_is_smaller(before);
                    }
                    if !first {
                        out.append(", ");
                    }
                    let item = atom.debug_string();
                    out.append(item.as_str());
                    proof {
                        let separator = if first {
                            Seq::<char>::empty()
                        } else {
                            ", "@
                        };
                        assert(out@ =~= shown + separator + debug_text(atom@));
                        assert(shown + (separator + debug_text(atom@) + debug_items(
                            cursor@,
                            false,
                        )) =~= out@ + debug_items(cursor@, false));
                    }
                    first = false;
                },
            }
        }
        out
    }
}

impl<'a> Atom<'a> {
    /// The text that shows the atom, as `debug_text` says. A list is shown
    /// with the children that are unread, which are read from a copy of its
    /// cursor: the atom stays as it is.
    pub fn debug_string(&self) -> (r: String)
        requires
            readable(self@),
        ensures
            r@ == debug_text(self@),
        decreases extent(self@), 1int,
    {
        match self {
            Atom::Identifier(text) => {
                let mut out = String::from_str("Identifier(");
                out.append(quoted(text).as_str());
                out.append(")");
                out
            },
            Atom::Quote(text) => {
                let mut out = String::from_str("Quote(");
                out.append(quoted(text).as_str());
                out.append(")");
                out
            },
            Atom::Integer(value) => {
                let mut out = String::from_str("Integer(");
                out.append(integer_string(*value).as_str());
                out.append(")");
                out
            },
            Atom::Float(text) => {
                let mut out = String::from_str("Float(");
                out.append(text);
                out.append(")");
                out
            },
            Atom::List(inner) => {
                let mut out = String::from_str("[");
                out.append(inner.items_string().as_str());
                out.append("]");
                out
            },
        }
    }
}

} // verus!
