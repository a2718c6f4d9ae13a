//! Counting the entries of a sequence that satisfy a predicate.

use vstd::prelude::*;

verus! {

/// The number of entries of `s` that satisfy `p`.
pub open spec fn count<A>(s: Seq<A>, p: spec_fn(A) -> bool) -> nat
    decreases s.len(),
{
    if s.len() == 0 {
        0
    } else {
        count(s.drop_last(), p) + (if p(s.last()) {
            1nat
        } else {
            0nat
        })
    }
}

/// One when `b` holds, zero otherwise.
pub open spec fn indicator(b: bool) -> int {
    if b {
        1
    } else {
        0
    }
}

/// Appending an entry counts that entry and nothing else.
pub proof fn lemma_count_push<A>(s: Seq<A>, a: A, p: spec_fn(A) -> bool)
    ensures
        count(s.push(a), p) == count(s, p) + indicator(p(a)),
{
    assert(s.push(a).drop_last() =~= s);
}

/// Replacing an entry changes the count only by the old and the new entry.
pub proof fn lemma_count_update<A>(s: Seq<A>, i: int, a: A, p: spec_fn(A) -> bool)
    requires
        0 <= i < s.len(),
    ensures
        count(s.update(i, a), p) == count(s, p) - indicator(p(s[i])) + indicator(p(a)),
    decreases s.len(),
{
    let t = s.update(i, a);
    if i == s.len() - 1 {
        assert(t.drop_last() =~= s.drop_last());
    } else {
        assert(t.drop_last() =~= s.drop_last().update(i, a));
        lemma_count_update(s.drop_last(), i, a, p);
    }
}

/// The count is zero exactly when no entry satisfies the predicate.
pub proof fn lemma_count_zero<A>(s: Seq<A>, p: spec_fn(A) -> bool)
    ensures
        count(s, p) == 0 <==> forall|i: int| 0 <= i < s.len() ==> !p(#[trigger] s[i]),
    decreases s.len(),
{
    if s.len() > 0 {
        let t = s.drop_last();
        lemma_count_zero(t, p);
        if count(s, p) == 0 {
            assert forall|i: int| 0 <= i < s.len() implies !p(#[trigger] s[i]) by {
                if i < t.len() {
                    assert(s[i] == t[i]);
                }
            }
        }
        if forall|i: int| 0 <= i < s.len() ==> !p(#[trigger] s[i]) {
            assert forall|i: int| 0 <= i < t.len() implies !p(#[trigger] t[i]) by {
                assert(t[i] == s[i]);
            }
        }
    }
}

/// No more entries are counted than there are.
pub proof fn lemma_count_bound<A>(s: Seq<A>, p: spec_fn(A) -> bool)
    ensures
        count(s, p) <= s.len(),
    decreases s.len(),
{
    if s.len() > 0 {
        lemma_count_bound(s.drop_last(), p);
    }
}

/// A stronger predicate counts no more entries.
pub proof fn lemma_count_implied<A>(s: Seq<A>, p: spec_fn(A) -> bool, q: spec_fn(A) -> bool)
    requires
        forall|a: A| #[trigger] p(a) ==> q(a),
    ensures
        count(s, p) <= count(s, q),
    decreases s.len(),
{
    if s.len() > 0 {
        lemma_count_implied(s.drop_last(), p, q);
    }
}

/// The count is the size of the set of positions that satisfy the predicate.
pub proof fn lemma_count_positions<A>(s: Seq<A>, p: spec_fn(A) -> bool)
    ensures
        Set::new(|i: int| 0 <= i < s.len() && p(s[i])).finite(),
        Set::new(|i: int| 0 <= i < s.len() && p(s[i])).len() == count(s, p),
    decreases s.len(),
{
    let all = Set::new(|i: int| 0 <= i < s.len() && p(s[i]));
    if s.len() == 0 {
        assert(all =~= Set::empty());
    } else {
        let t = s.drop_last();
        let last = s.len() - 1;
        let init = Set::new(|i: int| 0 <= i < t.len() && p(t[i]));
        lemma_count_positions(t, p);
        if p(s.last()) {
            assert(all =~= init.insert(last));
        } else {
            assert(all =~= init);
        }
    }
}

} // verus!
