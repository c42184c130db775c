//! Lexicographic ordering of case names.
//!
//! Result maps are keyed by benchmark-case name and iterated in a
//! deterministic, lexicographic order.  The order on `Seq<char>` defined here
//! is the one `str` itself uses: position by position, by unicode scalar
//! value, with a proper prefix ordered before its extensions.

use vstd::prelude::*;

verus! {

/// `a` is strictly before `b` in lexicographic order.
pub open spec fn lex_lt(a: Seq<char>, b: Seq<char>) -> bool
    decreases a.len(),
{
    if b.len() == 0 {
        false
    } else if a.len() == 0 {
        true
    } else if a[0] < b[0] {
        true
    } else if b[0] < a[0] {
        false
    } else {
        lex_lt(a.skip(1), b.skip(1))
    }
}

/// The order is irreflexive.
pub proof fn lemma_lex_irrefl(a: Seq<char>)
    ensures
        !lex_lt(a, a),
    decreases a.len(),
{
    if a.len() > 0 {
        lemma_lex_irrefl(a.skip(1));
    }
}

/// Any two sequences are related: below, equal, or above.
pub proof fn lemma_lex_total(a: Seq<char>, b: Seq<char>)
    ensures
        lex_lt(a, b) || a == b || lex_lt(b, a),
    decreases a.len(),
{
    if a.len() == 0 {
        if b.len() == 0 {
            assert(a =~= b);
        }
    } else if b.len() == 0 {
    } else if a[0] < b[0] {
    } else if b[0] < a[0] {
    } else {
        lemma_lex_total(a.skip(1), b.skip(1));
        if a.skip(1) == b.skip(1) {
            assert(a[0] == b[0]);
            assert(a.skip(1).len() == b.skip(1).len());
            assert(a.len() == b.len());
            assert forall|i: int| 0 <= i < a.len() implies a[i] == b[i] by {
                broadcast use vstd::seq::group_seq_axioms;

                if i > 0 {
                    assert(a.skip(1)[i - 1] == a[i]);
                    assert(b.skip(1)[i - 1] == b[i]);
                }
            }
            assert(a =~= b);
        }
    }
}

/// The order is asymmetric: at most one direction holds.
pub proof fn lemma_lex_asym(a: Seq<char>, b: Seq<char>)
    ensures
        !(lex_lt(a, b) && lex_lt(b, a)),
    decreases a.len(),
{
    if a.len() > 0 && b.len() > 0 {
        lemma_lex_asym(a.skip(1), b.skip(1));
    }
}

/// The order is transitive.
pub proof fn lemma_lex_trans(a: Seq<char>, b: Seq<char>, c: Seq<char>)
    requires
        lex_lt(a, b),
        lex_lt(b, c),
    ensures
        lex_lt(a, c),
    decreases a.len(),
{
    if a.len() > 0 && b.len() > 0 && c.len() > 0 {
        if a[0] == b[0] && b[0] == c[0] {
            lemma_lex_trans(a.skip(1), b.skip(1), c.skip(1));
        }
    }
}

/// Relies on `str`'s `Ord` impl: std documents that string slices compare
/// lexicographically by byte, which for UTF-8 agrees with comparing
/// character by character by unicode scalar value, the order `lex_lt` gives.
#[verifier::external_body]
fn str_compare(a: &str, b: &str) -> (o: core::cmp::Ordering)
    ensures
        (o == core::cmp::Ordering::Less) == lex_lt(a@, b@),
        (o == core::cmp::Ordering::Equal) == (a@ == b@),
        (o == core::cmp::Ordering::Greater) == lex_lt(b@, a@),
{
    a.cmp(b)
}

/// True exactly when `a` comes strictly before `b`.
pub fn str_lt(a: &str, b: &str) -> (r: bool)
    ensures
        r == lex_lt(a@, b@),
{
    matches!(str_compare(a, b), core::cmp::Ordering::Less)
}

/// True exactly when the two names are the same sequence of characters.
pub fn str_eq(a: &str, b: &str) -> (r: bool)
    ensures
        r == (a@ == b@),
{
    matches!(str_compare(a, b), core::cmp::Ordering::Equal)
}

} // verus!
