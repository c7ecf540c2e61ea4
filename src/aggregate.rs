//! Turning a work item's revision history into its log.

use vstd::prelude::*;
use crate::date::{Date, DateWindow, LogError, date_of_timestamp, TIMESTAMP_LIMIT};
use crate::revision::{
    Change, Detail, Header, Revision, baseline, change_list, details_of, first_malformed_change,
    header_of, last_attributed, last_delta, lemma_baseline_range, lemma_first_malformed_prefix,
    revision_date, totals_of,
};
use crate::totals::{DailyTotals, add_to};

verus! {

/// Bound on how far one change can move the completed work.
pub const WORK_SPAN: i128 = 4294967296;

/// What one work item contributes to the report.
pub struct WorkLog {
    /// Present when at least one change is attributed.
    pub header: Option<Header>,
    /// The attributed changes, in revision order.
    pub details: Vec<Detail>,
    /// The attributed changes, summed per day.
    pub totals: DailyTotals,
}

proof fn lemma_totals_bound(s: Seq<Revision>, user: Seq<char>, w: DateWindow)
    ensures
        forall|d: int| #[trigger] totals_of(s, user, w).contains_key(d) ==>
            -(s.len() * WORK_SPAN) <= totals_of(s, user, w)[d] <= s.len() * WORK_SPAN,
    decreases s.len(),
{
    if s.len() > 0 {
        let t = s.drop_last();
        lemma_totals_bound(t, user, w);
        lemma_baseline_range(t);
        let n = s.len() as int;
        assert(t.len() * WORK_SPAN + WORK_SPAN == n * WORK_SPAN) by (nonlinear_arith)
            requires
                t.len() == n - 1,
        ;
        assert(0 <= t.len() * WORK_SPAN) by (nonlinear_arith);
        let m = totals_of(t, user, w);
        if last_attributed(s, user, w) {
            assert(-WORK_SPAN <= last_delta(s) <= WORK_SPAN);
            assert(totals_of(s, user, w) == add_to(m, revision_date(s.last()).day as int, last_delta(s)));
        } else {
            assert(totals_of(s, user, w) == m);
        }
    }
}

/// Every change of the completed work along `revisions`, in order: each revision that
/// carries a value is compared with the last value before it, over all earlier
/// revisions, and kept where the two differ.
pub fn changes(revisions: &Vec<Revision>) -> (r: Vec<Change>)
    ensures
        r@ == change_list(revisions@),
{
    let ghost s = revisions@;
    let mut out: Vec<Change> = Vec::new();
    let mut last: u32 = 0;
    let mut i: usize = 0;
    while i < revisions.len()
        invariant
            0 <= i <= s.len(),
            s == revisions@,
            last as int == baseline(s.take(i as int)),
            out@ == change_list(s.take(i as int)),
        decreases s.len() - i,
    {
        let ghost p = s.take(i as int + 1);
        assert(p.drop_last() =~= s.take(i as int));
        match revisions[i].completed_work {
            Some(w) => {
                let delta: i64 = w as i64 - last as i64;
                last = w;
                if delta != 0 {
                    out.push(Change { index: i, rev: revisions[i].rev, work: w, delta });
                }
            },
            None => {},
        }
        i += 1;
    }
    assert(s.take(s.len() as int) =~= s);
    out
}

/// The log of work item `item` for `user` over `window`.
///
/// The completed work is diffed along all revisions in order; a change is kept when it
/// moved the value, was made by `user` (same contact handle) and dated inside `window`.
/// Revisions without a value, and those that leave it as it was, are skipped unread.
/// Fails on an inverted window, and, with its position, on the first change that lacks
/// its author or a usable timestamp.
pub fn aggregate(item: u64, revisions: &Vec<Revision>, user: &String, window: &DateWindow) -> (r:
    Result<WorkLog, LogError>)
    ensures
        window.to.day < window.from.day ==> r == Err::<WorkLog, LogError>(LogError::InvalidWindow),
        window.from.day <= window.to.day ==> match first_malformed_change(revisions@) {
            Some(k) => r == Err::<WorkLog, LogError>(LogError::MalformedRevision { index: k as usize }),
            None => r matches Ok(log) && {
                &&& log.header == header_of(item, revisions@, user@, *window)
                &&& log.details@ == details_of(revisions@, user@, *window)
                &&& log.totals.wf()
                &&& log.totals@ == totals_of(revisions@, user@, *window)
            },
        },
{
    if window.to.day < window.from.day {
        return Err(LogError::InvalidWindow);
    }
    let ghost s = revisions@;
    let ghost u = user@;
    let mut header: Option<Header> = None;
    let mut details: Vec<Detail> = Vec::new();
    let mut totals = DailyTotals::new();
    let mut last: u32 = 0;
    let mut i: usize = 0;
    while i < revisions.len()
        invariant
            0 <= i <= s.len(),
            s == revisions@,
            u == user@,
            window.from.day <= window.to.day,
            first_malformed_change(s.take(i as int)) is None,
            last as int == baseline(s.take(i as int)),
            header == header_of(item, s.take(i as int), u, *window),
            details@ == details_of(s.take(i as int), u, *window),
            totals.wf(),
            totals@ == totals_of(s.take(i as int), u, *window),
        decreases s.len() - i,
    {
        let ghost p = s.take(i as int + 1);
        assert(p.drop_last() =~= s.take(i as int));
        assert(p.last() == s[i as int]);
        let r = &revisions[i];
        match r.completed_work {
            Some(w) => {
                let delta: i64 = w as i64 - last as i64;
                last = w;
                if delta != 0 {
                    let usable = match r.changed_at {
                        Some(t) => r.changed_by.is_some() && -TIMESTAMP_LIMIT <= t && t
                            <= TIMESTAMP_LIMIT,
                        None => false,
                    };
                    if !usable {
                        proof {
                            assert(first_malformed_change(p) == Some(i as int));
                            lemma_first_malformed_prefix(s, i as int + 1);
                        }
                        return Err(LogError::MalformedRevision { index: i });
                    }
                    let author = r.changed_by.as_ref().unwrap();
                    let date: Date = date_of_timestamp(r.changed_at.unwrap()).unwrap();
                    if author.email.eq(user) && window.contains(date) {
                        if header.is_none() {
                            let title = match &r.title {
                                Some(t) => Some(t.clone()),
                                None => None,
                            };
                            header = Some(Header { item, title });
                        }
                        details.push(
                            Detail { rev: r.rev, date, author: author.copied(), work: w, delta },
                        );
                        proof {
                            lemma_totals_bound(s.take(i as int), u, *window);
                            assert(i * WORK_SPAN <= 0x1_0000_0000_0000_0000 * WORK_SPAN);
                        }
                        totals.add(date, delta as i128);
                    }
                }
            },
            None => {},
        }
        i += 1;
    }
    assert(s.take(s.len() as int) =~= s);
    Ok(WorkLog { header, details, totals })
}

} // verus!
