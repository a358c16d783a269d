//! Case folding: a text with every character replaced by its uppercase
//! mapping, so that texts which differ only in case become equal.

use vstd::prelude::*;
use vstd::string::*;

verus! {

/// The characters that `char::to_uppercase` yields for `c`: its uppercase
/// mapping in Unicode, which does not depend on context or language and may
/// be longer than one character.
pub uninterp spec fn uppercase_of(c: char) -> Seq<char>;

/// `text` folded: the uppercase mappings of its characters, in order.
pub open spec fn case_folded(text: Seq<char>) -> Seq<char>
    decreases text.len(),
{
    if text.len() == 0 {
        Seq::empty()
    } else {
        case_folded(text.drop_last()) + uppercase_of(text.last())
    }
}

/// Folding goes piece by piece: a concatenation folds to its folded parts, in
/// order.
pub proof fn lemma_fold_concat(a: Seq<char>, b: Seq<char>)
    ensures
        case_folded(a + b) == case_folded(a) + case_folded(b),
    decreases b.len(),
{
    if b.len() == 0 {
        assert(a + b == a);
    } else {
        assert((a + b).drop_last() == a + b.drop_last());
        lemma_fold_concat(a, b.drop_last());
    }
}

/// Appends to `out`, with `String::extend`, what `char::to_uppercase` yields
/// for `c`. Trusted, not proved: the contract gives that mapping its name and
/// claims that `out` keeps what it held and gains exactly the characters of
/// the mapping, in the order in which the iterator yields them.
#[verifier::external_body]
fn push_uppercase(out: &mut String, c: char)
    ensures
        final(out)@ == old(out)@ + uppercase_of(c),
{
    out.extend(c.to_uppercase());
}

/// A folded copy of `text`.
pub fn fold_case(text: &str) -> (folded: String)
    ensures
        folded@ == case_folded(text@),
{
    let mut folded = String::new();
    for c in it: text.chars()
        invariant
            it.seq() == text@,
            folded@ == case_folded(text@.take(it.index())),
    {
        proof {
            assert(text@.take(it.index() + 1).drop_last() == text@.take(it.index()));
        }
        push_uppercase(&mut folded, c);
    }
    proof {
        assert(text@.take(text@.len() as int) == text@);
    }
    folded
}

} // verus!
