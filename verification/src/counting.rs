//! Counting entries of a sequence that satisfy a predicate, with the small
//! lemmas the reclamation invariants need: a count is bounded by the length,
//! a zero count means no entry matches, and updating one entry moves the
//! count by at most one.

use vstd::prelude::*;

verus! {

/// Number of entries of `s` that satisfy `pred`.
pub open spec fn count_matching<A>(s: Seq<A>, pred: spec_fn(A) -> bool) -> nat
    decreases s.len(),
{
    if s.len() == 0 {
        0
    } else {
        count_matching(s.drop_last(), pred) + if pred(s.last()) {
            1nat
        } else {
            0nat
        }
    }
}

pub proof fn lemma_count_le_len<A>(s: Seq<A>, pred: spec_fn(A) -> bool)
    ensures
        count_matching(s, pred) <= s.len(),
    decreases s.len(),
{
    if s.len() > 0 {
        lemma_count_le_len(s.drop_last(), pred);
    }
}

/// One entry that does not match leaves room below the length.
pub proof fn lemma_count_lt_len<A>(s: Seq<A>, pred: spec_fn(A) -> bool, i: int)
    requires
        0 <= i < s.len(),
        !pred(s[i]),
    ensures
        count_matching(s, pred) < s.len(),
    decreases s.len(),
{
    if i == s.len() - 1 {
        lemma_count_le_len(s.drop_last(), pred);
    } else {
        lemma_count_lt_len(s.drop_last(), pred, i);
    }
}

/// One entry that matches keeps the count positive.
pub proof fn lemma_count_pos<A>(s: Seq<A>, pred: spec_fn(A) -> bool, i: int)
    requires
        0 <= i < s.len(),
        pred(s[i]),
    ensures
        count_matching(s, pred) >= 1,
    decreases s.len(),
{
    if i < s.len() - 1 {
        lemma_count_pos(s.drop_last(), pred, i);
    }
}

/// A zero count rules every entry out.
pub proof fn lemma_count_zero<A>(s: Seq<A>, pred: spec_fn(A) -> bool, i: int)
    requires
        count_matching(s, pred) == 0,
        0 <= i < s.len(),
    ensures
        !pred(s[i]),
    decreases s.len(),
{
    if i < s.len() - 1 {
        lemma_count_zero(s.drop_last(), pred, i);
    }
}

/// Replacing one entry changes the count by the difference of the two ends.
pub proof fn lemma_count_update<A>(s: Seq<A>, pred: spec_fn(A) -> bool, i: int, x: A)
    requires
        0 <= i < s.len(),
    ensures
        count_matching(s.update(i, x), pred) == count_matching(s, pred) - (if pred(s[i]) {
            1int
        } else {
            0int
        }) + (if pred(x) {
            1int
        } else {
            0int
        }),
    decreases s.len(),
{
    let t = s.update(i, x);
    if i == s.len() - 1 {
        assert(t.drop_last() =~= s.drop_last());
        assert(t.last() == x);
    } else {
        lemma_count_update(s.drop_last(), pred, i, x);
        assert(t.drop_last() =~= s.drop_last().update(i, x));
        assert(t.last() == s.last());
    }
}

/// No entry matching means a zero count.
pub proof fn lemma_count_none<A>(s: Seq<A>, pred: spec_fn(A) -> bool)
    requires
        forall|i: int| 0 <= i < s.len() ==> !pred(#[trigger] s[i]),
    ensures
        count_matching(s, pred) == 0,
    decreases s.len(),
{
    if s.len() > 0 {
        lemma_count_none(s.drop_last(), pred);
    }
}

} // verus!
