//! Whether one text occurs inside another.

use crate::encoding::{
    lemma_encode_concat, lemma_encode_injective, lemma_encode_nonempty, lemma_first_byte_leads,
    lemma_valid_prefix_boundary,
};
use vstd::prelude::*;
use vstd::utf8::*;

verus! {

/// `needle` stands in `hay` from position `at` on, item for item.
pub open spec fn occurs_at<T>(needle: Seq<T>, hay: Seq<T>, at: int) -> bool {
    &&& 0 <= at
    &&& at + needle.len() <= hay.len()
    &&& hay.subrange(at, at + needle.len()) =~= needle
}

/// `needle` stands somewhere in `hay` as one unbroken run.
pub open spec fn is_substring<T>(needle: Seq<T>, hay: Seq<T>) -> bool {
    exists|at: int| occurs_at(needle, hay, at)
}

/// The empty text occurs in every text.
pub proof fn lemma_empty_is_substring<T>(needle: Seq<T>, hay: Seq<T>)
    requires
        needle.len() == 0,
    ensures
        is_substring(needle, hay),
{
    assert(occurs_at(needle, hay, 0));
}

/// What stands between two pieces occurs in the whole.
pub proof fn lemma_middle_is_substring<T>(before: Seq<T>, needle: Seq<T>, after: Seq<T>)
    ensures
        occurs_at(needle, before + needle + after, before.len() as int),
        is_substring(needle, before + needle + after),
{
    assert(occurs_at(needle, before + needle + after, before.len() as int));
}

/// A text that holds `needle` at `at` is what stands before it, `needle`, and
/// what stands after it.
pub proof fn lemma_occurrence_splits<T>(needle: Seq<T>, hay: Seq<T>, at: int)
    requires
        occurs_at(needle, hay, at),
    ensures
        hay == hay.take(at) + needle + hay.skip(at + needle.len()),
{
}

/// One text occurs in another exactly when its bytes occur in the other's
/// bytes.
pub proof fn lemma_substring_of_bytes(needle: Seq<char>, hay: Seq<char>)
    ensures
        is_substring(encode_utf8(needle), encode_utf8(hay)) <==> is_substring(needle, hay),
{
    let pattern = encode_utf8(needle);
    let bytes = encode_utf8(hay);
    encode_utf8_valid_utf8(needle);
    encode_utf8_valid_utf8(hay);
    if is_substring(needle, hay) {
        let at = choose|at: int| occurs_at(needle, hay, at);
        let before = hay.take(at);
        let after = hay.skip(at + needle.len());
        lemma_occurrence_splits(needle, hay, at);
        lemma_encode_concat(before + needle, after);
        lemma_encode_concat(before, needle);
        lemma_middle_is_substring(encode_utf8(before), pattern, encode_utf8(after));
    }
    if is_substring(pattern, bytes) {
        if needle.len() == 0 {
            lemma_empty_is_substring(needle, hay);
        } else {
            let at = choose|at: int| occurs_at(pattern, bytes, at);
            lemma_encode_nonempty(needle);
            assert(bytes[at] == bytes.subrange(at, at + pattern.len())[0]);
            lemma_first_byte_leads(pattern);
            is_char_boundary_iff_not_is_continuation_byte(bytes, at);
            valid_utf8_split(bytes, at);
            let head = bytes.subrange(0, at);
            let tail = bytes.subrange(at, bytes.len() as int);
            assert(tail.subrange(0, pattern.len() as int) == pattern);
            lemma_valid_prefix_boundary(tail, pattern);
            valid_utf8_split(tail, pattern.len() as int);
            let rest = tail.subrange(pattern.len() as int, tail.len() as int);
            decode_utf8_encode_utf8(head);
            decode_utf8_encode_utf8(rest);
            let before = decode_utf8(head);
            let after = decode_utf8(rest);
            lemma_encode_concat(before + needle, after);
            lemma_encode_concat(before, needle);
            assert(bytes == head + pattern + rest);
            lemma_encode_injective(hay, before + needle + after);
            lemma_middle_is_substring(before, needle, after);
        }
    }
}

/// Whether `pattern` stands in `hay` from `at` on.
fn matches_at(hay: &[u8], pattern: &[u8], at: usize) -> (found: bool)
    requires
        at + pattern@.len() <= hay@.len() <= usize::MAX,
    ensures
        found == occurs_at(pattern@, hay@, at as int),
{
    let mut i: usize = 0;
    while i < pattern.len()
        invariant
            i <= pattern@.len(),
            at + pattern@.len() <= hay@.len() <= usize::MAX,
            forall|j: int| 0 <= j < i ==> hay@[at + j] == pattern@[j],
        decreases pattern@.len() - i,
    {
        if hay[at + i] != pattern[i] {
            assert(hay@.subrange(at as int, at + pattern@.len())[i as int] != pattern@[i as int]);
            return false;
        }
        i += 1;
    }
    true
}

/// Whether `pattern` stands anywhere in `hay`: tries each position in turn.
fn occurs_in(hay: &[u8], pattern: &[u8]) -> (found: bool)
    ensures
        found == is_substring(pattern@, hay@),
{
    if pattern.len() > hay.len() {
        return false;
    }
    let last: usize = hay.len() - pattern.len();
    let mut at: usize = 0;
    loop
        invariant
            at <= last,
            last == hay@.len() - pattern@.len(),
            hay@.len() <= usize::MAX,
            forall|j: int| 0 <= j < at ==> !occurs_at(pattern@, hay@, j),
        decreases last - at,
    {
        if matches_at(hay, pattern, at) {
            return true;
        }
        if at == last {
            return false;
        }
        at += 1;
    }
}

/// Whether `needle` occurs in `haystack`. The empty text occurs in every
/// text.
pub fn contains(haystack: &str, needle: &str) -> (found: bool)
    ensures
        found == is_substring(needle@, haystack@),
{
    proof {
        lemma_substring_of_bytes(needle@, haystack@);
    }
    occurs_in(haystack.as_bytes(), needle.as_bytes())
}

} // verus!
