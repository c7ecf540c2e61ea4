//! Work totals per calendar day, kept in ascending order of date.

use vstd::prelude::*;
use crate::date::Date;

verus! {

/// Work accumulated on one calendar date.
#[derive(Clone, Copy, Debug, PartialEq, Eq, Structural)]
pub struct DailyTotal {
    pub date: Date,
    pub total: i128,
}

/// Entries in strictly ascending order of date, so each date appears once.
pub open spec fn ascending(s: Seq<DailyTotal>) -> bool {
    forall|i: int, j: int| 0 <= i < j < s.len() ==> s[i].date.day < s[j].date.day
}

/// The mapping from day number to total that a list of entries stands for.
pub open spec fn map_of(s: Seq<DailyTotal>) -> Map<int, int> {
    Map::new(
        |d: int| exists|i: int| 0 <= i < s.len() && s[i].date.day == d,
        |d: int| s[choose|i: int| 0 <= i < s.len() && s[i].date.day == d].total as int,
    )
}

/// `m` with `amount` added to the total of day `d` (a day without an entry starts at zero).
pub open spec fn add_to(m: Map<int, int>, d: int, amount: int) -> Map<int, int> {
    m.insert(d, if m.contains_key(d) { m[d] + amount } else { amount })
}

/// The total of day `d` in `m`, zero where `m` has no entry.
pub open spec fn total_on(m: Map<int, int>, d: int) -> int {
    if m.contains_key(d) { m[d] } else { 0 }
}

/// Day-by-day sum of two mappings: a day present in either is present in the result.
pub open spec fn merged(a: Map<int, int>, b: Map<int, int>) -> Map<int, int> {
    Map::new(|d: int| a.contains_key(d) || b.contains_key(d), |d: int| total_on(a, d) + total_on(b, d))
}

/// Whether every day's sum of `a` and `b` fits in an `i128`.
pub open spec fn merge_fits(a: Map<int, int>, b: Map<int, int>) -> bool {
    forall|d: int| #[trigger] merged(a, b).contains_key(d) ==>
        i128::MIN <= merged(a, b)[d] <= i128::MAX
}

proof fn lemma_map_of_index(s: Seq<DailyTotal>, j: int)
    requires
        ascending(s),
        0 <= j < s.len(),
    ensures
        map_of(s).contains_key(s[j].date.day as int),
        map_of(s)[s[j].date.day as int] == s[j].total as int,
{
    let d = s[j].date.day as int;
    assert(map_of(s).dom().contains(d));
    let k = choose|i: int| 0 <= i < s.len() && s[i].date.day == d;
    assert(k == j);
}

proof fn lemma_map_of_all(s: Seq<DailyTotal>)
    requires
        ascending(s),
    ensures
        forall|j: int| 0 <= j < s.len() ==> #[trigger] map_of(s).contains_key(s[j].date.day as int)
            && map_of(s)[s[j].date.day as int] == s[j].total as int,
{
    assert forall|j: int| 0 <= j < s.len() implies #[trigger] map_of(s).contains_key(s[j].date.day as int)
        && map_of(s)[s[j].date.day as int] == s[j].total as int by {
        lemma_map_of_index(s, j);
    }
}

proof fn lemma_map_of_take(s: Seq<DailyTotal>, i: int)
    requires
        ascending(s),
        0 <= i < s.len(),
    ensures
        !map_of(s.take(i)).contains_key(s[i].date.day as int),
        map_of(s.take(i + 1)) == map_of(s.take(i)).insert(s[i].date.day as int, s[i].total as int),
{
    let a = s.take(i);
    let b = s.take(i + 1);
    assert(ascending(a));
    assert(ascending(b));
    lemma_map_of_all(a);
    lemma_map_of_all(b);
    let d = s[i].date.day as int;
    if map_of(a).contains_key(d) {
        let j = choose|j: int| 0 <= j < a.len() && a[j].date.day == d;
        assert(s[j].date.day < s[i].date.day);
    }
    let m = map_of(a).insert(d, s[i].total as int);
    assert forall|k: int| #[trigger] map_of(b).contains_key(k) == m.contains_key(k) by {
        if map_of(a).contains_key(k) {
            let j = choose|j: int| 0 <= j < a.len() && a[j].date.day == k;
            assert(b[j].date.day == k);
        }
        if map_of(b).contains_key(k) && k != d {
            let j = choose|j: int| 0 <= j < b.len() && b[j].date.day == k;
            assert(a[j].date.day == k);
        }
        assert(b[i].date.day == d);
    }
    assert forall|k: int| #[trigger] map_of(b).contains_key(k) implies map_of(b)[k] == m[k] by {
        let j = choose|j: int| 0 <= j < b.len() && b[j].date.day == k;
        if j < i {
            assert(a[j].date.day == k);
        }
    }
    assert(map_of(b) =~= m);
}

proof fn lemma_map_of_range(s: Seq<DailyTotal>)
    ensures
        forall|d: int| #[trigger] map_of(s).contains_key(d) ==> i128::MIN <= map_of(s)[d] <= i128::MAX,
{
}

/// Totals per calendar day.
pub struct DailyTotals {
    entries: Vec<DailyTotal>,
}

impl View for DailyTotals {
    type V = Map<int, int>;

    closed spec fn view(&self) -> Map<int, int> {
        map_of(self.entries@)
    }
}

impl DailyTotals {
    /// The entries are in strictly ascending order of date.
    pub closed spec fn wf(&self) -> bool {
        ascending(self.entries@)
    }

    /// The totals in ascending order of date, one entry per day.
    pub closed spec fn spec_entries(&self) -> Seq<DailyTotal> {
        self.entries@
    }

    /// No day has a total yet.
    pub fn new() -> (r: DailyTotals)
        ensures
            r.wf(),
            r@ == Map::<int, int>::empty(),
    {
        let r = DailyTotals { entries: Vec::new() };
        assert(r@ =~= Map::<int, int>::empty());
        r
    }

    /// The entries, in ascending order of date; together they are exactly the mapping.
    pub fn entries(&self) -> (r: &Vec<DailyTotal>)
        requires
            self.wf(),
        ensures
            r@ == self.spec_entries(),
            ascending(r@),
            forall|j: int| 0 <= j < r@.len() ==> #[trigger] self@.contains_key(r@[j].date.day as int)
                && self@[r@[j].date.day as int] == r@[j].total as int,
            forall|d: int| #[trigger] self@.contains_key(d) ==> exists|j: int|
                0 <= j < r@.len() && r@[j].date.day == d,
            r@.len() == self@.dom().len(),
    {
        proof {
            lemma_map_of_all(self.entries@);
            self.lemma_len();
        }
        &self.entries
    }

    proof fn lemma_len(&self)
        requires
            self.wf(),
        ensures
            self.entries@.len() == self@.dom().len(),
            self@.dom().finite(),
        decreases self.entries@.len(),
    {
        let s = self.entries@;
        let keys = s.map_values(|e: DailyTotal| e.date.day as int);
        assert(self@.dom() =~= keys.to_set()) by {
            assert forall|d: int| self@.dom().contains(d) implies keys.to_set().contains(d) by {
                let i = choose|i: int| 0 <= i < s.len() && s[i].date.day == d;
                assert(keys[i] == d);
            }
            assert forall|d: int| keys.to_set().contains(d) implies self@.dom().contains(d) by {
                let i = choose|i: int| 0 <= i < keys.len() && keys[i] == d;
                assert(s[i].date.day == d);
            }
        }
        assert(keys.no_duplicates()) by {
            assert forall|i: int, j: int| 0 <= i < keys.len() && 0 <= j < keys.len() && i != j
                implies keys[i] != keys[j] by {
                if i < j {
                    assert(s[i].date.day < s[j].date.day);
                } else {
                    assert(s[j].date.day < s[i].date.day);
                }
            }
        }
        keys.unique_seq_to_set();
    }

    /// The total of a date, if it has one.
    pub fn get(&self, date: Date) -> (r: Option<i128>)
        requires
            self.wf(),
        ensures
            r matches Some(t) ==> self@.contains_key(date.day as int) && t == self@[date.day as int],
            r is None ==> !self@.contains_key(date.day as int),
    {
        proof {
            lemma_map_of_all(self.entries@);
        }
        let mut i: usize = 0;
        while i < self.entries.len()
            invariant
                self.wf(),
                0 <= i <= self.entries@.len(),
                forall|j: int| 0 <= j < i ==> self.entries@[j].date.day != date.day,
            decreases self.entries@.len() - i,
        {
            if self.entries[i].date.day == date.day {
                return Some(self.entries[i].total);
            }
            i += 1;
        }
        None
    }

    /// Adds `amount` to the total of `date`, starting it at `amount` if the date has none.
    pub fn add(&mut self, date: Date, amount: i128)
        requires
            old(self).wf(),
            old(self)@.contains_key(date.day as int) ==> i128::MIN <= old(self)@[date.day as int]
                + amount <= i128::MAX,
        ensures
            final(self).wf(),
            final(self)@ == add_to(old(self)@, date.day as int, amount as int),
    {
        let ghost s = self.entries@;
        let ghost d = date.day as int;
        proof {
            lemma_map_of_all(s);
        }
        let mut i: usize = 0;
        while i < self.entries.len() && self.entries[i].date.day < date.day
            invariant
                self.entries@ == s,
                ascending(s),
                0 <= i <= s.len(),
                forall|j: int| 0 <= j < i ==> s[j].date.day < date.day,
            decreases s.len() - i,
        {
            i += 1;
        }
        if i < self.entries.len() && self.entries[i].date.day == date.day {
            let e = self.entries[i];
            proof {
                lemma_map_of_index(s, i as int);
            }
            self.entries.set(i, DailyTotal { date, total: e.total + amount });
            let ghost t = self.entries@;
            assert(ascending(t));
            proof {
                lemma_map_of_all(t);
            }
            assert(self@ =~= add_to(map_of(s), d, amount as int)) by {
                assert forall|k: int| #[trigger] map_of(t).contains_key(k) == add_to(map_of(s), d, amount as int).contains_key(k) by {
                    if map_of(s).contains_key(k) {
                        let j = choose|j: int| 0 <= j < s.len() && s[j].date.day == k;
                        assert(t[j].date.day == k);
                    }
                    if map_of(t).contains_key(k) {
                        let j = choose|j: int| 0 <= j < t.len() && t[j].date.day == k;
                        assert(s[j].date.day == k);
                    }
                }
                assert forall|k: int| #[trigger] map_of(t).contains_key(k) implies map_of(t)[k] == add_to(map_of(s), d, amount as int)[k] by {
                    let j = choose|j: int| 0 <= j < t.len() && t[j].date.day == k;
                    assert(s[j].date.day == k);
                }
            }
        } else {
            proof {
                assert forall|j: int| i <= j < s.len() implies s[j].date.day > date.day by {
                    assert(s[i as int].date.day <= s[j].date.day);
                }
            }
            self.entries.insert(i, DailyTotal { date, total: amount });
            let ghost t = self.entries@;
            assert(forall|j: int| 0 <= j < i ==> t[j] == s[j]);
            assert(forall|j: int| i < j < t.len() ==> t[j] == s[j - 1]);
            assert(ascending(t));
            proof {
                lemma_map_of_all(t);
            }
            assert(!map_of(s).contains_key(d));
            assert(self@ =~= add_to(map_of(s), d, amount as int)) by {
                assert forall|k: int| #[trigger] map_of(t).contains_key(k) == add_to(map_of(s), d, amount as int).contains_key(k) by {
                    if map_of(s).contains_key(k) {
                        let j = choose|j: int| 0 <= j < s.len() && s[j].date.day == k;
                        if j < i {
                            assert(t[j].date.day == k);
                        } else {
                            assert(t[j + 1].date.day == k);
                        }
                    }
                    if map_of(t).contains_key(k) && k != d {
                        let j = choose|j: int| 0 <= j < t.len() && t[j].date.day == k;
                        if j < i {
                            assert(s[j].date.day == k);
                        } else {
                            assert(s[j - 1].date.day == k);
                        }
                    }
                    assert(t[i as int].date.day == d);
                }
                assert forall|k: int| #[trigger] map_of(t).contains_key(k) implies map_of(t)[k] == add_to(map_of(s), d, amount as int)[k] by {
                    let j = choose|j: int| 0 <= j < t.len() && t[j].date.day == k;
                    if j < i {
                        assert(s[j].date.day == k);
                    } else if j > i {
                        assert(s[j - 1].date.day == k);
                    }
                }
            }
        }
    }
    /// Adds every total of `other` to this one, day by day.
    pub fn merge(&mut self, other: &DailyTotals)
        requires
            old(self).wf(),
            other.wf(),
            merge_fits(old(self)@, other@),
        ensures
            final(self).wf(),
            final(self)@ == merged(old(self)@, other@),
    {
        let ghost a = self@;
        let ghost s = other.entries@;
        proof {
            assert(map_of(s.take(0)) =~= Map::<int, int>::empty());
            assert(merged(a, Map::<int, int>::empty()) =~= a);
        }
        let mut i: usize = 0;
        while i < other.entries.len()
            invariant
                self.wf(),
                other.wf(),
                s == other.entries@,
                0 <= i <= s.len(),
                merge_fits(a, map_of(s)),
                self@ == merged(a, map_of(s.take(i as int))),
            decreases s.len() - i,
        {
            let e = other.entries[i];
            let ghost d = e.date.day as int;
            proof {
                lemma_map_of_take(s, i as int);
                lemma_map_of_index(s, i as int);
                assert(merged(a, map_of(s)).contains_key(d));
            }
            self.add(e.date, e.total);
            proof {
                let m0 = map_of(s.take(i as int));
                let m1 = map_of(s.take(i as int + 1));
                assert(merged(a, m1) =~= add_to(merged(a, m0), d, e.total as int));
            }
            i += 1;
        }
        assert(s.take(s.len() as int) =~= s);
    }

    /// Adds every total of `other` to this one where no day's sum would leave `i128`,
    /// and reports whether it did; otherwise leaves this one as it was.
    pub fn try_merge(&mut self, other: &DailyTotals) -> (r: bool)
        requires
            old(self).wf(),
            other.wf(),
        ensures
            final(self).wf(),
            r == merge_fits(old(self)@, other@),
            r ==> final(self)@ == merged(old(self)@, other@),
            !r ==> final(self)@ == old(self)@,
    {
        let ghost a = self@;
        let ghost b = other@;
        proof {
            lemma_map_of_all(other.entries@);
            lemma_map_of_range(self.entries@);
            lemma_map_of_range(other.entries@);
        }
        let mut i: usize = 0;
        while i < other.entries.len()
            invariant
                self.wf(),
                other.wf(),
                a == self@,
                b == other@,
                0 <= i <= other.entries@.len(),
                forall|j: int| 0 <= j < other.entries@.len() ==> #[trigger] b.contains_key(other.entries@[j].date.day as int)
                    && b[other.entries@[j].date.day as int] == other.entries@[j].total as int,
                forall|j: int| 0 <= j < i ==> #[trigger] merged(a, b).contains_key(other.entries@[j].date.day as int)
                    && i128::MIN <= merged(a, b)[other.entries@[j].date.day as int] <= i128::MAX,
            decreases other.entries@.len() - i,
        {
            let e = other.entries[i];
            let ghost d = e.date.day as int;
            assert(b.contains_key(other.entries@[i as int].date.day as int));
            assert(merged(a, b).contains_key(d));
            match self.get(e.date) {
                Some(t) => {
                    if t.checked_add(e.total).is_none() {
                        assert(merged(a, b)[d] == t + e.total);
                        return false;
                    }
                    assert(merged(a, b)[d] == t + e.total);
                },
                None => {
                    assert(merged(a, b)[d] == e.total);
                },
            }
            i += 1;
        }
        assert(merge_fits(a, b)) by {
            assert forall|d: int| #[trigger] merged(a, b).contains_key(d) implies
                i128::MIN <= merged(a, b)[d] <= i128::MAX by {
                if b.contains_key(d) {
                    let j = choose|j: int| 0 <= j < other.entries@.len() && other.entries@[j].date.day == d;
                    assert(b.contains_key(other.entries@[j].date.day as int));
                }
            }
        }
        self.merge(other);
        true
    }
}

} // verus!
