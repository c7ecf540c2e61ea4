//! Revisions of a work item, and what their history means.

use vstd::prelude::*;
use crate::date::{Date, DateWindow, day_of_timestamp, timestamp_in_range};
use crate::totals::add_to;

verus! {

/// The author of a change. Two identities are the same user when their contact
/// handles (`email`) are equal.
#[derive(Clone, Debug)]
pub struct Identity {
    pub id: u128,
    pub display_name: String,
    pub email: String,
}

impl Identity {
    /// An identical copy.
    pub fn copied(&self) -> (r: Identity)
        ensures
            r == *self,
    {
        Identity { id: self.id, display_name: self.display_name.clone(), email: self.email.clone() }
    }
}

/// One snapshot of a work item.
#[derive(Clone, Debug)]
pub struct Revision {
    /// Sequence number within the work item.
    pub rev: u32,
    /// When the snapshot was recorded, in seconds since the Unix epoch (UTC).
    pub changed_at: Option<i64>,
    /// Who made the change.
    pub changed_by: Option<Identity>,
    /// The cumulative completed work at this revision, if the field was set.
    pub completed_work: Option<u32>,
    /// The work item's title at this revision.
    pub title: Option<String>,
}

/// A change of the completed work: the revision at position `index` moved it by `delta`
/// to `work`.
#[derive(Clone, Copy, Debug, PartialEq, Eq, Structural)]
pub struct Change {
    pub index: usize,
    pub rev: u32,
    pub work: u32,
    pub delta: i64,
}

/// A change attributed to the target user.
#[derive(Clone, Debug)]
pub struct Detail {
    pub rev: u32,
    pub date: Date,
    pub author: Identity,
    pub work: u32,
    pub delta: i64,
}

/// The first line of a work item's log.
#[derive(Clone, Debug)]
pub struct Header {
    pub item: u64,
    pub title: Option<String>,
}

/// A revision has its author and a timestamp that can be given a date.
pub open spec fn well_formed(r: Revision) -> bool {
    &&& r.changed_by is Some
    &&& r.changed_at matches Some(t) && timestamp_in_range(t as int)
}

/// The completed work after the revisions `s`: the last value present, zero if none is.
pub open spec fn baseline(s: Seq<Revision>) -> int
    decreases s.len(),
{
    if s.len() == 0 {
        0
    } else {
        match s.last().completed_work {
            Some(w) => w as int,
            None => baseline(s.drop_last()),
        }
    }
}

/// The completed work after any revisions is a `u32` value.
pub proof fn lemma_baseline_range(s: Seq<Revision>)
    ensures
        0 <= baseline(s) <= u32::MAX,
    decreases s.len(),
{
    if s.len() > 0 {
        lemma_baseline_range(s.drop_last());
    }
}

/// How much the last revision of `s` moved the completed work, over all revisions before it.
pub open spec fn last_delta(s: Seq<Revision>) -> int {
    s.last().completed_work.unwrap() as int - baseline(s.drop_last())
}

/// The last revision of `s` sets the completed work to a new value.
pub open spec fn last_is_change(s: Seq<Revision>) -> bool {
    &&& s.len() > 0
    &&& s.last().completed_work is Some
    &&& last_delta(s) != 0
}

/// The changes of the completed work along `s`, in order, whoever made them and whenever.
pub open spec fn change_list(s: Seq<Revision>) -> Seq<Change>
    decreases s.len(),
{
    if s.len() == 0 {
        Seq::empty()
    } else if last_is_change(s) {
        change_list(s.drop_last()).push(
            Change {
                index: (s.len() - 1) as usize,
                rev: s.last().rev,
                work: s.last().completed_work.unwrap(),
                delta: last_delta(s) as i64,
            },
        )
    } else {
        change_list(s.drop_last())
    }
}

/// The last revision of `s` changes the completed work but lacks what attributing the
/// change needs: its author, or a timestamp that can be given a date.
pub open spec fn last_is_malformed_change(s: Seq<Revision>) -> bool {
    last_is_change(s) && !well_formed(s.last())
}

/// The position of the first revision along `s` that changes the completed work without
/// its author or a usable timestamp. Revisions that change nothing are never looked at.
pub open spec fn first_malformed_change(s: Seq<Revision>) -> Option<int>
    decreases s.len(),
{
    if s.len() == 0 {
        None
    } else if first_malformed_change(s.drop_last()) is Some {
        first_malformed_change(s.drop_last())
    } else if last_is_malformed_change(s) {
        Some(s.len() - 1)
    } else {
        None
    }
}

/// Once a prefix of `s` holds a malformed change, `s` has that same first one.
pub proof fn lemma_first_malformed_prefix(s: Seq<Revision>, n: int)
    requires
        0 <= n <= s.len(),
        first_malformed_change(s.take(n)) is Some,
    ensures
        first_malformed_change(s) == first_malformed_change(s.take(n)),
    decreases s.len(),
{
    if s.len() == n {
        assert(s.take(n) =~= s);
    } else {
        let t = s.drop_last();
        assert(t.take(n) =~= s.take(n));
        lemma_first_malformed_prefix(t, n);
    }
}

/// The calendar date of a revision.
pub open spec fn revision_date(r: Revision) -> Date {
    Date { day: day_of_timestamp(r.changed_at.unwrap() as int) as i32 }
}

/// The revision was made by `user`, on a date inside `w`.
pub open spec fn passes(r: Revision, user: Seq<char>, w: DateWindow) -> bool {
    r.changed_by.unwrap().email@ == user && w.spec_contains(revision_date(r))
}

/// The last revision of `s` is a change that `user` made inside `w`.
pub open spec fn last_attributed(s: Seq<Revision>, user: Seq<char>, w: DateWindow) -> bool {
    last_is_change(s) && passes(s.last(), user, w)
}

/// The log line of revision `r`, which moved the completed work by `delta`.
pub open spec fn detail_of(r: Revision, delta: int) -> Detail {
    Detail {
        rev: r.rev,
        date: revision_date(r),
        author: r.changed_by.unwrap(),
        work: r.completed_work.unwrap(),
        delta: delta as i64,
    }
}

/// The log lines of the changes along `s` that `user` made inside `w`.
pub open spec fn details_of(s: Seq<Revision>, user: Seq<char>, w: DateWindow) -> Seq<Detail>
    decreases s.len(),
{
    if s.len() == 0 {
        Seq::empty()
    } else if last_attributed(s, user, w) {
        details_of(s.drop_last(), user, w).push(detail_of(s.last(), last_delta(s)))
    } else {
        details_of(s.drop_last(), user, w)
    }
}

/// The header of item `item`: present once a change is attributed, with the title
/// of the first attributed revision.
pub open spec fn header_of(item: u64, s: Seq<Revision>, user: Seq<char>, w: DateWindow) -> Option<Header>
    decreases s.len(),
{
    if s.len() == 0 {
        None
    } else if header_of(item, s.drop_last(), user, w) is Some {
        header_of(item, s.drop_last(), user, w)
    } else if last_attributed(s, user, w) {
        Some(Header { item, title: s.last().title })
    } else {
        None
    }
}

/// The attributed changes along `s`, summed per day.
pub open spec fn totals_of(s: Seq<Revision>, user: Seq<char>, w: DateWindow) -> Map<int, int>
    decreases s.len(),
{
    if s.len() == 0 {
        Map::empty()
    } else if last_attributed(s, user, w) {
        add_to(totals_of(s.drop_last(), user, w), revision_date(s.last()).day as int, last_delta(s))
    } else {
        totals_of(s.drop_last(), user, w)
    }
}

/// The sum of the deltas of `cs`.
pub open spec fn delta_sum(cs: Seq<Change>) -> int
    decreases cs.len(),
{
    if cs.len() == 0 {
        0
    } else {
        delta_sum(cs.drop_last()) + cs.last().delta
    }
}

} // verus!
