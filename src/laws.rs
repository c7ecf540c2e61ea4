//! General facts about the reconstruction and the merge of totals.

use vstd::prelude::*;
use crate::date::DateWindow;
use crate::revision::{
    Change, Detail, Revision, baseline, change_list, delta_sum, detail_of, details_of,
    first_malformed_change, header_of, last_attributed, last_delta, last_is_change,
    lemma_baseline_range, passes, totals_of,
};
use crate::totals::{merged, total_on};

verus! {

/// Whether a change, read against the revisions `s`, was made by `user` inside `w`.
pub open spec fn by_user_in_window(s: Seq<Revision>, user: Seq<char>, w: DateWindow) -> spec_fn(
    Change,
) -> bool {
    |c: Change| passes(s[c.index as int], user, w)
}

/// The log line of a change, read against the revisions `s`.
pub open spec fn as_detail(s: Seq<Revision>) -> spec_fn(Change) -> Detail {
    |c: Change| detail_of(s[c.index as int], c.delta as int)
}

/// The deltas of all changes, whoever made them and whenever, add up to the final
/// completed work: reconstruction telescopes from the initial baseline of zero.
pub proof fn lemma_deltas_telescope(s: Seq<Revision>)
    ensures
        delta_sum(change_list(s)) == baseline(s),
    decreases s.len(),
{
    if s.len() > 0 {
        let t = s.drop_last();
        lemma_deltas_telescope(t);
        lemma_baseline_range(t);
        let cs = change_list(t);
        if last_is_change(s) {
            let c = change_list(s).last();
            assert(change_list(s) == cs.push(c));
            assert(cs.push(c).drop_last() =~= cs);
            assert(c.delta == last_delta(s));
        }
    }
}

proof fn lemma_filter_prefix(full: Seq<Revision>, n: int, user: Seq<char>, w: DateWindow)
    requires
        0 <= n <= full.len(),
        full.len() <= usize::MAX,
    ensures
        forall|k: int| 0 <= k < change_list(full.take(n)).len() ==>
            (#[trigger] change_list(full.take(n))[k]).index < n,
        details_of(full.take(n), user, w) == change_list(full.take(n)).filter(
            by_user_in_window(full, user, w),
        ).map_values(as_detail(full)),
    decreases n,
{
    let p = full.take(n);
    if n == 0 {
        reveal(Seq::filter);
        assert(change_list(p).filter(by_user_in_window(full, user, w)) =~= Seq::<Change>::empty());
        assert(change_list(p).filter(by_user_in_window(full, user, w)).map_values(as_detail(full))
            =~= Seq::<Detail>::empty());
    } else {
        lemma_filter_prefix(full, n - 1, user, w);
        lemma_baseline_range(full.take(n - 1));
        assert(p.drop_last() =~= full.take(n - 1));
        let cs = change_list(full.take(n - 1));
        let pr = by_user_in_window(full, user, w);
        let f = as_detail(full);
        if last_is_change(p) {
            let c = Change {
                index: (n - 1) as usize,
                rev: p.last().rev,
                work: p.last().completed_work.unwrap(),
                delta: last_delta(p) as i64,
            };
            assert(change_list(p) == cs.push(c));
            reveal(Seq::filter);
            assert(cs.push(c).drop_last() =~= cs);
            assert(p.last() == full[n - 1]);
            if pr(c) {
                assert(cs.push(c).filter(pr) == cs.filter(pr).push(c));
                assert(cs.filter(pr).push(c).map_values(f) =~= cs.filter(pr).map_values(f).push(f(c)));
            } else {
                assert(cs.push(c).filter(pr) == cs.filter(pr));
            }
        }
    }
}

/// Attribution filters the changes after they are diffed: the log lines are exactly the
/// changes over all revisions (each measured against the true previous value, whoever
/// set it and whenever) that were made by `user` inside `w`, in order.
pub proof fn lemma_filter_after_diff(s: Seq<Revision>, user: Seq<char>, w: DateWindow)
    requires
        s.len() <= usize::MAX,
    ensures
        details_of(s, user, w) == change_list(s).filter(by_user_in_window(s, user, w)).map_values(
            as_detail(s),
        ),
{
    lemma_filter_prefix(s, s.len() as int, user, w);
    assert(s.take(s.len() as int) =~= s);
}

/// A position in a sequence with one element taken out at `k`, carried to the position of
/// the same element in the full sequence.
pub open spec fn shifted(o: Option<int>, k: int) -> Option<int> {
    match o {
        Some(j) => Some(if j < k { j } else { j + 1 }),
        None => None,
    }
}

proof fn lemma_first_malformed_bound(s: Seq<Revision>)
    ensures
        first_malformed_change(s) matches Some(j) ==> 0 <= j < s.len(),
    decreases s.len(),
{
    if s.len() > 0 {
        lemma_first_malformed_bound(s.drop_last());
    }
}

proof fn lemma_skip_prefix(
    item: u64,
    s: Seq<Revision>,
    k: int,
    n: int,
    user: Seq<char>,
    w: DateWindow,
)
    requires
        0 <= k < n <= s.len(),
        s[k].completed_work is None,
    ensures
        baseline(s.take(n)) == baseline(s.remove(k).take(n - 1)),
        details_of(s.take(n), user, w) == details_of(s.remove(k).take(n - 1), user, w),
        header_of(item, s.take(n), user, w) == header_of(item, s.remove(k).take(n - 1), user, w),
        totals_of(s.take(n), user, w) == totals_of(s.remove(k).take(n - 1), user, w),
        first_malformed_change(s.take(n)) == shifted(
            first_malformed_change(s.remove(k).take(n - 1)),
            k,
        ),
    decreases n,
{
    let t = s.remove(k);
    let p = s.take(n);
    let q = t.take(n - 1);
    assert(p.drop_last() =~= s.take(n - 1));
    assert(p.last() == s[n - 1]);
    if n == k + 1 {
        assert(q =~= s.take(k));
        assert(!last_is_change(p));
        assert(!last_attributed(p, user, w));
        lemma_first_malformed_bound(q);
    } else {
        lemma_skip_prefix(item, s, k, n - 1, user, w);
        assert(q.drop_last() =~= t.take(n - 2));
        assert(q.last() == p.last());
        assert(last_delta(p) == last_delta(q));
        assert(last_attributed(p, user, w) == last_attributed(q, user, w));
    }
}

/// A revision without a completed-work value changes nothing: taking it out leaves the
/// final value, the log lines, the header and the daily totals as they were, and the
/// first malformed change (which decides whether the log fails) is the same revision,
/// whatever the one taken out holds besides.
pub proof fn lemma_absent_value_ignored(
    item: u64,
    s: Seq<Revision>,
    k: int,
    user: Seq<char>,
    w: DateWindow,
)
    requires
        0 <= k < s.len(),
        s[k].completed_work is None,
    ensures
        baseline(s.remove(k)) == baseline(s),
        details_of(s.remove(k), user, w) == details_of(s, user, w),
        header_of(item, s.remove(k), user, w) == header_of(item, s, user, w),
        totals_of(s.remove(k), user, w) == totals_of(s, user, w),
        first_malformed_change(s) == shifted(first_malformed_change(s.remove(k)), k),
        first_malformed_change(s) is None <==> first_malformed_change(s.remove(k)) is None,
{
    lemma_skip_prefix(item, s, k, s.len() as int, user, w);
    assert(s.take(s.len() as int) =~= s);
    assert(s.remove(k).take(s.len() - 1) =~= s.remove(k));
}

/// Merging daily totals does not depend on the order of the two sides.
pub proof fn lemma_merge_commutative(a: Map<int, int>, b: Map<int, int>)
    ensures
        merged(a, b) == merged(b, a),
{
    assert(merged(a, b) =~= merged(b, a));
}

/// Merging daily totals does not depend on how three of them are grouped.
pub proof fn lemma_merge_associative(a: Map<int, int>, b: Map<int, int>, c: Map<int, int>)
    ensures
        merged(merged(a, b), c) == merged(a, merged(b, c)),
{
    let l = merged(merged(a, b), c);
    let r = merged(a, merged(b, c));
    assert forall|d: int| #[trigger] l.contains_key(d) implies l[d] == r[d] by {
        assert(total_on(merged(a, b), d) == total_on(a, d) + total_on(b, d));
        assert(total_on(merged(b, c), d) == total_on(b, d) + total_on(c, d));
    }
    assert(l =~= r);
}

} // verus!
