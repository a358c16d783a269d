//! How a text divides into lines.

use crate::encoding::{
    lemma_ascii_char_has_byte, lemma_ascii_first_byte, lemma_ascii_last_byte, lemma_encode_ascii,
    lemma_encode_concat, lemma_encode_injective, lemma_encode_nonempty,
};
use vstd::prelude::*;
use vstd::string::*;
use vstd::utf8::*;

verus! {

/// The number of characters of `text` that stand before its first line feed;
/// the whole length where it has none.
pub open spec fn line_end(text: Seq<char>) -> nat
    decreases text.len(),
{
    if text.len() == 0 || text[0] == '\n' {
        0
    } else {
        1 + line_end(text.drop_first())
    }
}

/// `line` without the carriage return that closes it, if one does.
pub open spec fn without_carriage_return(line: Seq<char>) -> Seq<char> {
    if line.len() > 0 && line.last() == '\r' {
        line.drop_last()
    } else {
        line
    }
}

/// The first line of `text`: what stands before the first line feed, less a
/// carriage return directly before it. A text without a line feed is its own
/// first line, and keeps a carriage return that closes it.
pub open spec fn first_line(text: Seq<char>) -> Seq<char> {
    let end = line_end(text);
    if end >= text.len() {
        text
    } else {
        without_carriage_return(text.take(end as int))
    }
}

/// What follows the first line feed of `text`; nothing where it has none.
pub open spec fn after_first_line(text: Seq<char>) -> Seq<char> {
    let end = line_end(text);
    if end >= text.len() {
        Seq::empty()
    } else {
        text.skip(end as int + 1)
    }
}

/// The lines of `text`, in order. A line ends at a line feed, or at a carriage
/// return directly followed by one; neither belongs to the line. What follows
/// the last line feed is a line of its own unless it is empty.
pub open spec fn lines_of(text: Seq<char>) -> Seq<Seq<char>>
    decreases text.len(),
{
    if text.len() == 0 {
        Seq::empty()
    } else {
        seq![first_line(text)] + lines_of(after_first_line(text))
    }
}

/// `line_end(text)` is the one position up to which `text` holds no line
/// feed and at which, unless the text ends there, it holds one.
pub proof fn lemma_line_end_unique(text: Seq<char>, end: int)
    requires
        0 <= end <= text.len(),
        forall|i: int| 0 <= i < end ==> text[i] != '\n',
        end < text.len() ==> text[end] == '\n',
    ensures
        line_end(text) == end,
    decreases text.len(),
{
    if text.len() == 0 || text[0] == '\n' {
    } else {
        let rest = text.drop_first();
        assert forall|i: int| 0 <= i < end - 1 implies rest[i] != '\n' by {
            assert(rest[i] == text[i + 1]);
        }
        lemma_line_end_unique(rest, end - 1);
    }
}

/// Cuts `text` in two before the byte at `mid`, which starts a character or
/// is the end of the text.
fn cut<'a>(text: &'a str, mid: usize) -> (parts: (&'a str, &'a str))
    requires
        is_char_boundary(text.spec_bytes(), mid as int),
        mid <= text.spec_bytes().len(),
    ensures
        parts.0@ + parts.1@ == text@,
        parts.0.spec_bytes() == text.spec_bytes().take(mid as int),
        parts.1.spec_bytes() == text.spec_bytes().skip(mid as int),
{
    let parts = text.split_at(mid);
    proof {
        lemma_encode_concat(parts.0@, parts.1@);
        assert(text.spec_bytes() == parts.0.spec_bytes() + parts.1.spec_bytes());
        lemma_encode_injective(parts.0@ + parts.1@, text@);
    }
    parts
}

/// The position of the first line feed among `bytes`; their number where
/// there is none.
fn find_line_feed(bytes: &[u8]) -> (at: usize)
    ensures
        at <= bytes@.len(),
        forall|i: int| 0 <= i < at ==> bytes@[i] != 0x0a,
        at < bytes@.len() ==> bytes@[at as int] == 0x0a,
{
    let mut at: usize = 0;
    while at < bytes.len() && bytes[at] != 0x0a
        invariant
            at <= bytes@.len(),
            forall|i: int| 0 <= i < at ==> bytes@[i] != 0x0a,
        decreases bytes@.len() - at,
    {
        at += 1;
    }
    at
}

/// `line` without the carriage return that closes it, if one does.
fn trim_carriage_return<'a>(line: &'a str) -> (trimmed: &'a str)
    ensures
        trimmed@ == without_carriage_return(line@),
{
    let bytes = line.as_bytes();
    let len = bytes.len();
    if len > 0 && bytes[len - 1] == 0x0d {
        proof {
            encode_utf8_valid_utf8(line@);
            is_char_boundary_iff_not_is_continuation_byte(bytes@, len - 1);
        }
        let (stem, last) = cut(line, len - 1);
        proof {
            lemma_encode_ascii('\r');
            assert(last.spec_bytes() == seq![0x0du8]);
            lemma_encode_injective(last@, seq!['\r']);
            assert(stem@ == line@.drop_last());
        }
        stem
    } else {
        proof {
            if line@.len() > 0 && line@.last() == '\r' {
                lemma_ascii_last_byte(line@);
            }
        }
        line
    }
}

/// Takes the first line off `text`: returns the line, and what follows the
/// line feed that ends it. Both are slices of `text`.
pub fn split_first_line<'a>(text: &'a str) -> (parts: (&'a str, &'a str))
    ensures
        parts.0@ == first_line(text@),
        parts.1@ == after_first_line(text@),
{
    let bytes = text.as_bytes();
    let end = find_line_feed(bytes);
    proof {
        encode_utf8_valid_utf8(text@);
        if end < bytes@.len() {
            is_char_boundary_iff_not_is_continuation_byte(bytes@, end as int);
        } else {
            is_char_boundary_start_end_of_seq(bytes@);
        }
    }
    let (head, tail) = cut(text, end);
    proof {
        assert forall|i: int| 0 <= i < head@.len() implies head@[i] != '\n' by {
            if head@[i] == '\n' {
                lemma_ascii_char_has_byte(head@, i);
            }
        }
    }
    if end == bytes.len() {
        proof {
            if tail@.len() > 0 {
                lemma_encode_nonempty(tail@);
            }
            assert(head@ == text@);
            lemma_line_end_unique(text@, text@.len() as int);
        }
        (head, tail)
    } else {
        proof {
            assert(tail.spec_bytes()[0] == 0x0a);
            lemma_ascii_first_byte(tail@);
        }
        let (feed, rest) = cut(tail, 1);
        proof {
            lemma_encode_ascii('\n');
            assert(feed.spec_bytes() == seq![0x0au8]);
            lemma_encode_injective(feed@, seq!['\n']);
            assert(text@[head@.len() as int] == '\n');
            lemma_line_end_unique(text@, head@.len() as int);
            assert(head@ == text@.take(head@.len() as int));
            assert(rest@ == text@.skip(head@.len() as int + 1));
        }
        (trim_carriage_return(head), rest)
    }
}

} // verus!
