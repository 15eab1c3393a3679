//! The character source of the tokenizer: the characters of a text, each with
//! the byte offset at which it starts, followed by one newline that the text
//! does not hold.

use crate::chars::utf8_width;
use vstd::prelude::*;
use vstd::string::StringSliceAdditionalSpecFns;
use vstd::utf8::*;

verus! {

/// `off` is a byte offset of `text` at which a character starts, or its end.
pub open spec fn is_cut(text: &str, off: int) -> bool {
    is_char_boundary(text.spec_bytes(), off)
}

/// The number of characters of `text` that start before the byte offset `off`.
pub open spec fn chars_before(text: &str, off: int) -> int {
    decode_utf8(text.spec_bytes().subrange(0, off)).len() as int
}

/// A cut splits the text into the characters before it and those after it.
pub proof fn lemma_cut_split(text: &str, off: int)
    requires
        is_cut(text, off),
    ensures
        0 <= off <= text.spec_bytes().len(),
        0 <= chars_before(text, off) <= text@.len(),
        valid_utf8(text.spec_bytes().subrange(off, text.spec_bytes().len() as int)),
        decode_utf8(text.spec_bytes().subrange(off, text.spec_bytes().len() as int))
            == text@.skip(chars_before(text, off)),
        decode_utf8(text.spec_bytes().subrange(0, off)) == text@.take(chars_before(text, off)),
{
    let bytes = text.spec_bytes();
    encode_utf8_valid_utf8(text@);
    encode_utf8_decode_utf8(text@);
    valid_utf8_split(bytes, off);
    decode_utf8_split(bytes, off);
    let a = decode_utf8(bytes.subrange(0, off));
    let b = decode_utf8(bytes.subrange(off, bytes.len() as int));
    assert(text@ =~= a + b);
    assert(b =~= text@.skip(a.len() as int));
    assert(a =~= text@.take(a.len() as int));
}

/// The start and the end of a text are cuts.
pub proof fn lemma_cut_ends(text: &str)
    ensures
        is_cut(text, 0),
        is_cut(text, text.spec_bytes().len() as int),
        chars_before(text, 0) == 0,
        chars_before(text, text.spec_bytes().len() as int) == text@.len(),
{
    let bytes = text.spec_bytes();
    encode_utf8_valid_utf8(text@);
    encode_utf8_decode_utf8(text@);
    is_char_boundary_start_end_of_seq(bytes);
    assert(bytes.subrange(0, bytes.len() as int) =~= bytes);
    assert(bytes.subrange(0, 0) =~= Seq::<u8>::empty());
}

/// After a cut that is not the end of the text comes one character, and after
/// that character the next cut.
pub proof fn lemma_cut_next(text: &str, off: int)
    requires
        is_cut(text, off),
        off < text.spec_bytes().len(),
    ensures
        ({
            let rest = text.spec_bytes().subrange(off, text.spec_bytes().len() as int);
            let c = text@[chars_before(text, off)];
            &&& 0 <= chars_before(text, off) < text@.len()
            &&& valid_first_scalar(rest)
            &&& decode_first_scalar(rest) == c as u32
            &&& length_of_first_scalar(rest) == utf8_width(c)
            &&& off + utf8_width(c) <= text.spec_bytes().len()
            &&& is_cut(text, off + utf8_width(c))
            &&& chars_before(text, off + utf8_width(c)) == chars_before(text, off) + 1
        }),
{
    let bytes = text.spec_bytes();
    let len = bytes.len() as int;
    let rest = bytes.subrange(off, len);
    lemma_cut_split(text, off);
    encode_utf8_valid_utf8(text@);
    let k = chars_before(text, off);
    let tail = text@.skip(k);
    assert(rest.len() > 0);
    assert(valid_first_scalar(rest));
    // the characters after the cut are not empty, and `rest` encodes them
    assert(decode_utf8(rest).len() > 0);
    assert(k < text@.len());
    decode_utf8_encode_utf8(rest);
    assert(encode_utf8(tail) == rest);
    encode_utf8_first_scalar(tail);
    let c = text@[k];
    assert(tail[0] == c);
    let w = length_of_first_scalar(rest);
    assert(w == utf8_width(c));
    assert(1 <= w <= 4);
    assert(off + w <= len);
    let after = pop_first_scalar(rest);
    assert(after =~= bytes.subrange(off + w, len));
    assert(valid_utf8(after));
    if off + w == len {
        is_char_boundary_start_end_of_seq(bytes);
    } else {
        assert(valid_first_scalar(after));
        assert(after[0] == bytes[off + w]);
        is_char_boundary_iff_is_leading_byte(bytes, off + w);
    }
    lemma_cut_split(text, off + w);
    assert(decode_utf8(rest) =~= seq![decode_first_scalar(rest) as char] + decode_utf8(after));
    assert(decode_utf8(after).len() == decode_utf8(rest).len() - 1);
}

/// The bytes between two cuts are the characters between them.
pub proof fn lemma_cut_between(text: &str, from: int, to: int)
    requires
        is_cut(text, from),
        is_cut(text, to),
        from <= to,
    ensures
        chars_before(text, from) <= chars_before(text, to),
        valid_utf8(text.spec_bytes().subrange(from, to)),
        decode_utf8(text.spec_bytes().subrange(from, to)) == text@.subrange(
            chars_before(text, from),
            chars_before(text, to),
        ),
{
    let bytes = text.spec_bytes();
    let len = bytes.len() as int;
    let rest = bytes.subrange(from, len);
    lemma_cut_split(text, from);
    lemma_cut_split(text, to);
    encode_utf8_valid_utf8(text@);
    if to == len {
        is_char_boundary_start_end_of_seq(rest);
    } else if from < to {
        is_char_boundary_iff_is_leading_byte(bytes, to);
        assert(rest[to - from] == bytes[to]);
        is_char_boundary_iff_is_leading_byte(rest, to - from);
    }
    assert(is_char_boundary(rest, to - from));
    valid_utf8_split(rest, to - from);
    decode_utf8_split(rest, to - from);
    assert(rest.subrange(0, to - from) =~= bytes.subrange(from, to));
    assert(rest.subrange(to - from, rest.len() as int) =~= bytes.subrange(to, len));
    let mid = decode_utf8(bytes.subrange(from, to));
    let i = chars_before(text, from);
    let j = chars_before(text, to);
    assert(text@.skip(i) =~= mid + text@.skip(j));
    assert(mid.len() == j - i);
    assert forall|k: int| 0 <= k < mid.len() implies mid[k] == text@[i + k] by {
        assert((mid + text@.skip(j))[k] == text@.skip(i)[k]);
    }
    assert(mid =~= text@.subrange(i, j));
}

/// Of two cuts the later one has more characters before it.
pub proof fn lemma_cut_order(text: &str, a: int, b: int)
    requires
        is_cut(text, a),
        is_cut(text, b),
    ensures
        a < b <==> chars_before(text, a) < chars_before(text, b),
        a == b <==> chars_before(text, a) == chars_before(text, b),
{
    if a < b {
        lemma_cut_between(text, a, b);
        lemma_cut_split(text, a);
        lemma_cut_split(text, b);
        let mid = text.spec_bytes().subrange(a, b);
        assert(mid.len() > 0);
        assert(decode_utf8(mid).len() > 0);
    } else if b < a {
        lemma_cut_between(text, b, a);
        lemma_cut_split(text, a);
        lemma_cut_split(text, b);
        let mid = text.spec_bytes().subrange(b, a);
        assert(mid.len() > 0);
        assert(decode_utf8(mid).len() > 0);
    }
}

/// The part of `text` between two cuts, as a view into it.
pub fn slice<'a>(text: &'a str, from: usize, to: usize) -> (part: &'a str)
    requires
        is_cut(text, from as int),
        is_cut(text, to as int),
        from <= to,
    ensures
        part@ == text@.subrange(chars_before(text, from as int), chars_before(text, to as int)),
{
    proof {
        lemma_cut_split(text, to as int);
    }
    let (head, _) = text.split_at(to);
    proof {
        let bytes = text.spec_bytes();
        encode_utf8_valid_utf8(text@);
        encode_utf8_valid_utf8(head@);
        assert(head.spec_bytes() =~= bytes.subrange(0, to as int));
        if from == to {
            is_char_boundary_start_end_of_seq(head.spec_bytes());
        } else if 0 < from {
            is_char_boundary_iff_is_leading_byte(bytes, from as int);
            is_char_boundary_iff_is_leading_byte(head.spec_bytes(), from as int);
        }
    }
    let (_, part) = head.split_at(from);
    proof {
        assert(part.spec_bytes() =~= text.spec_bytes().subrange(from as int, to as int));
        encode_utf8_decode_utf8(part@);
        lemma_cut_between(text, from as int, to as int);
    }
    part
}

/// Reads the character that starts at `off`: its code and its width in bytes.
fn decode_at(bytes: &[u8], off: usize) -> (r: (u32, usize))
    requires
        off < bytes@.len(),
        valid_first_scalar(bytes@.subrange(off as int, bytes@.len() as int)),
    ensures
        r.0 == decode_first_scalar(bytes@.subrange(off as int, bytes@.len() as int)),
        r.1 == length_of_first_scalar(bytes@.subrange(off as int, bytes@.len() as int)),
        off + r.1 <= bytes@.len(),
{
    let ghost rest = bytes@.subrange(off as int, bytes@.len() as int);
    let b0: u8 = bytes[off];
    assert(b0 == rest[0]);
    if b0 <= 0x7f {
        ((b0 & 0x7F) as u32, 1)
    } else if 0xc0 <= b0 && b0 <= 0xdf {
        let b1: u8 = bytes[off + 1];
        assert(b1 == rest[1]);
        ((((b0 & 0x1F) as u32) << 6) | ((b1 & 0x3f) as u32), 2)
    } else if 0xe0 <= b0 && b0 <= 0xef {
        let b1: u8 = bytes[off + 1];
        let b2: u8 = bytes[off + 2];
        assert(b1 == rest[1] && b2 == rest[2]);
        ((((b0 & 0x0F) as u32) << 12) | (((b1 & 0x3f) as u32) << 6) | ((b2 & 0x3f) as u32), 3)
    } else {
        let b1: u8 = bytes[off + 1];
        let b2: u8 = bytes[off + 2];
        let b3: u8 = bytes[off + 3];
        assert(b1 == rest[1] && b2 == rest[2] && b3 == rest[3]);
        (
            (((b0 & 0x07) as u32) << 18) | (((b1 & 0x3f) as u32) << 12) | (((b2 & 0x3f) as u32)
                << 6) | ((b3 & 0x3f) as u32),
            4,
        )
    }
}

/// `char::from_u32` of std: the character with the code `i`, where `i` is a
/// Unicode scalar value, and `None` for every other number.
pub assume_specification[ char::from_u32 ](i: u32) -> (r: Option<char>)
    ensures
        r == (if is_scalar(i) {
            Some(i as char)
        } else {
            None::<char>
        }),
;

/// The character that the source hands out after the last one of its text.
pub const SENTINEL: char = '\n';

/// The characters of a text in order, each with the byte offset at which it
/// starts, and after them one `SENTINEL` at the offset where the text ends.
#[derive(Clone, Copy, Debug, PartialEq, Eq)]
pub struct CharByteIter<'a> {
    text: &'a str,
    byte: usize,
    spent: bool,
}

impl<'a> CharByteIter<'a> {
    #[verifier::type_invariant]
    spec fn well_formed(self) -> bool {
        is_cut(self.text, self.byte as int)
    }

    /// The text that the source reads.
    pub closed spec fn text(self) -> &'a str {
        self.text
    }

    /// All that the source hands out from its start on: the characters of the
    /// text, then the sentinel.
    pub open spec fn source(self) -> Seq<char> {
        self.text()@.push(SENTINEL)
    }

    /// The number of characters handed out so far.
    pub closed spec fn index(self) -> int {
        if self.spent {
            self.text@.len() as int + 1
        } else {
            chars_before(self.text, self.byte as int)
        }
    }

    /// The byte offset that goes with the next character.
    pub closed spec fn offset(self) -> int {
        if self.spent {
            self.text.spec_bytes().len() as int + 1
        } else {
            self.byte as int
        }
    }

    /// Neither the number of characters handed out nor the offset is negative.
    pub proof fn lemma_not_negative(self)
        ensures
            0 <= self.index(),
            0 <= self.offset(),
    {
    }

    /// What is still to be handed out.
    pub open spec fn remaining(self) -> Seq<char> {
        self.source().skip(self.index())
    }

    /// A source at the start of `text`.
    pub fn new(text: &'a str) -> (it: Self)
        ensures
            it.text() == text,
            it.index() == 0,
            it.offset() == 0,
    {
        proof {
            lemma_cut_ends(text);
        }
        CharByteIter { text, byte: 0, spent: false }
    }

    /// The text that the source reads.
    pub fn get_text(&self) -> (text: &'a str)
        ensures
            text == self.text(),
    {
        self.text
    }

    /// The next character of the text, where one is left. The sentinel is not
    /// shown, and nothing is handed out.
    pub fn peek(&self) -> (r: Option<char>)
        ensures
            0 <= self.index() <= self.source().len(),
            r == (if self.index() < self.text()@.len() {
                Some(self.text()@[self.index()])
            } else {
                None::<char>
            }),
    {
        proof {
            use_type_invariant(&*self);
            lemma_cut_split(self.text, self.byte as int);
            lemma_cut_ends(self.text);
        }
        if self.spent || self.byte >= self.text.as_bytes().len() {
            None
        } else {
            proof {
                lemma_cut_next(self.text, self.byte as int);
            }
            let mut probe = *self;
            let r = probe.next();
            assert(self.source()[self.index()] == self.text()@[self.index()]);
            match r {
                Some((_, c)) => Some(c),
                None => None,
            }
        }
    }

    /// Hands out the next character with the byte offset at which it starts;
    /// the offset after it is larger by the character's width in UTF-8.
    pub fn next(&mut self) -> (r: Option<(usize, char)>)
        ensures
            final(self).text() == old(self).text(),
            0 <= old(self).index() <= old(self).source().len(),
            match r {
                Some((off, c)) => {
                    &&& old(self).index() < old(self).source().len()
                    &&& c == old(self).source()[old(self).index()]
                    &&& off == old(self).offset()
                    &&& is_cut(old(self).text(), off as int)
                    &&& old(self).index() == chars_before(old(self).text(), off as int)
                    &&& c == old(self).remaining()[0]
                    &&& final(self).remaining() == old(self).remaining().drop_first()
                    &&& final(self).index() == old(self).index() + 1
                    &&& final(self).offset() == off + utf8_width(c)
                    &&& old(self).index() < old(self).text()@.len() ==> off + utf8_width(c)
                        <= old(self).text().spec_bytes().len()
                },
                None => {
                    &&& old(self).index() == old(self).source().len()
                    &&& old(self).remaining() == Seq::<char>::empty()
                    &&& *final(self) == *old(self)
                },
            },
    {
        proof {
            use_type_invariant(&*self);
            lemma_cut_split(self.text, self.byte as int);
            lemma_cut_ends(self.text);
        }
        if self.spent {
            return None;
        }
        let bytes = self.text.as_bytes();
        let off = self.byte;
        if off < bytes.len() {
            proof {
                lemma_cut_next(self.text, off as int);
                char_is_scalar(self.text@[chars_before(self.text, off as int)]);
            }
            let (code, width) = decode_at(bytes, off);
            let c = char::from_u32(code).unwrap();
            proof {
                let k = chars_before(self.text, off as int);
                char_u32_cast(self.text@[k], code);
                assert(self.source()[k] == self.text@[k]);
            }
            self.byte = off + width;
            Some((off, c))
        } else {
            assert(self.source()[self.text@.len() as int] == SENTINEL);
            self.spent = true;
            Some((off, SENTINEL))
        }
    }
}

} // verus!
