//! Facts about filtered sequences that the tables rely on.

use vstd::prelude::*;

verus! {

/// Every row that a filter keeps is a row of the table and passes the test.
pub proof fn lemma_filter_members<A>(s: Seq<A>, keep: spec_fn(A) -> bool)
    ensures
        forall|k: int|
            0 <= k < s.filter(keep).len() ==> keep(#[trigger] s.filter(keep)[k]) && s.contains(
                s.filter(keep)[k],
            ),
{
    let kept = s.filter(keep);
    assert forall|k: int| 0 <= k < kept.len() implies keep(#[trigger] kept[k]) && s.contains(
        kept[k],
    ) by {
        s.lemma_filter_pred(keep, k);
        assert(kept.contains(kept[k]));
        s.lemma_filter_contains_rev(keep, kept[k]);
    }
}

/// A relation that holds of every two rows of a table, the earlier one
/// first, holds of every two rows that a filter keeps: a filter neither
/// reorders rows nor repeats one.
pub proof fn lemma_filter_keeps_order<A>(
    s: Seq<A>,
    keep: spec_fn(A) -> bool,
    related: spec_fn(A, A) -> bool,
)
    requires
        forall|i: int, j: int| 0 <= i < j < s.len() ==> related(#[trigger] s[i], #[trigger] s[j]),
    ensures
        forall|a: int, b: int|
            0 <= a < b < s.filter(keep).len() ==> related(
                #[trigger] s.filter(keep)[a],
                #[trigger] s.filter(keep)[b],
            ),
    decreases s.len(),
{
    reveal(Seq::filter);
    if s.len() > 0 {
        let front = s.drop_last();
        lemma_filter_keeps_order(front, keep, related);
        lemma_filter_members(front, keep);
        let kept = s.filter(keep);
        assert forall|a: int, b: int| 0 <= a < b < kept.len() implies related(
            #[trigger] kept[a],
            #[trigger] kept[b],
        ) by {
            if b < front.filter(keep).len() {
                assert(kept[a] == front.filter(keep)[a]);
                assert(kept[b] == front.filter(keep)[b]);
            } else {
                assert(kept[a] == front.filter(keep)[a]);
                assert(front.contains(kept[a]));
                let i = choose|i: int| 0 <= i < front.len() && front[i] == kept[a];
                assert(s[i] == kept[a]);
                assert(kept[b] == s[s.len() - 1]);
            }
        }
    }
}

/// Where the rows that pass a test are exactly those from `low` up to
/// `high`, the filter keeps that stretch of the table.
pub proof fn lemma_filter_is_range<A>(s: Seq<A>, keep: spec_fn(A) -> bool, low: int, high: int)
    requires
        0 <= low <= high <= s.len(),
        forall|i: int| 0 <= i < s.len() ==> (keep(#[trigger] s[i]) <==> low <= i < high),
    ensures
        s.filter(keep) == s.subrange(low, high),
    decreases s.len(),
{
    reveal(Seq::filter);
    if s.len() == 0 {
        assert(s.subrange(low, high) =~= s);
    } else {
        let front = s.drop_last();
        let last = s.len() - 1;
        assert(forall|i: int| 0 <= i < front.len() ==> front[i] == s[i]);
        if high == s.len() {
            if low == s.len() {
                lemma_filter_is_range(front, keep, last, last);
                assert(s.subrange(low, high) =~= front.subrange(last, last));
            } else {
                lemma_filter_is_range(front, keep, low, last);
                assert(keep(s[last]));
                assert(s.subrange(low, high) =~= front.subrange(low, last).push(s[last]));
            }
        } else {
            lemma_filter_is_range(front, keep, low, high);
            assert(!keep(s[last]));
            assert(s.subrange(low, high) =~= front.subrange(low, high));
        }
    }
}

/// A prefix one row longer is filtered by filtering the prefix and then
/// testing the row.
pub proof fn lemma_filter_next<A>(s: Seq<A>, keep: spec_fn(A) -> bool, n: int)
    requires
        0 <= n < s.len(),
    ensures
        s.take(n + 1).filter(keep) == if keep(s[n]) {
            s.take(n).filter(keep).push(s[n])
        } else {
            s.take(n).filter(keep)
        },
{
    assert(s.take(n + 1) =~= s.take(n).push(s[n]));
    s.take(n).lemma_filter_push(s[n], keep);
}

} // verus!
