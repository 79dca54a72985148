use vstd::prelude::*;
use crate::model::{FinItem, copy_item};

verus! {

/// Whether an entry falls in month `m` of year `y`.
pub open spec fn in_period(e: FinItem, y: int, m: int) -> bool {
    e.date.year == y && e.date.month == m
}

/// The entries of month `m` of year `y`, in the order they have in `s`.
pub open spec fn period_items(s: Seq<FinItem>, y: int, m: int) -> Seq<FinItem>
    decreases s.len(),
{
    if s.len() == 0 {
        Seq::empty()
    } else {
        let rest = period_items(s.drop_last(), y, m);
        if in_period(s.last(), y, m) {
            rest.push(s.last())
        } else {
            rest
        }
    }
}

/// How many times `x` occurs in `s`.
pub open spec fn occurrences(s: Seq<FinItem>, x: FinItem) -> nat
    decreases s.len(),
{
    if s.len() == 0 {
        0
    } else {
        occurrences(s.drop_last(), x) + if s.last() == x { 1nat } else { 0nat }
    }
}

/// Every earlier element is smaller than every later one.
pub open spec fn ascending_years(s: Seq<i32>) -> bool {
    forall|i: int, j: int| 0 <= i < j < s.len() ==> s[i] < s[j]
}

/// Some entry is dated in year `y`.
pub open spec fn has_year(s: Seq<FinItem>, y: i32) -> bool {
    exists|i: int| 0 <= i < s.len() && s[i].date.year == y
}

/// Partition: each entry lands in the period of its own date, and in no other,
/// as often as it occurs in the whole collection.
pub proof fn lemma_period_partition(s: Seq<FinItem>, x: FinItem, y: int, m: int)
    ensures
        occurrences(period_items(s, y, m), x) == if in_period(x, y, m) {
            occurrences(s, x)
        } else {
            0
        },
    decreases s.len(),
{
    if s.len() > 0 {
        lemma_period_partition(s.drop_last(), x, y, m);
        let rest = period_items(s.drop_last(), y, m);
        if in_period(s.last(), y, m) {
            assert(rest.push(s.last()).drop_last() =~= rest);
        }
    }
}

/// The year and month an entry falls in.
pub open spec fn period_key(e: FinItem) -> (int, int) {
    (e.date.year as int, e.date.month as int)
}

/// The sum of the sizes of the listed periods.
pub open spec fn period_sizes(s: Seq<FinItem>, ps: Seq<(int, int)>) -> int
    decreases ps.len(),
{
    if ps.len() == 0 {
        0
    } else {
        period_sizes(s, ps.drop_last()) + period_items(s, ps.last().0, ps.last().1).len()
    }
}

/// How many of the listed periods are `k`.
pub open spec fn period_matches(ps: Seq<(int, int)>, k: (int, int)) -> int
    decreases ps.len(),
{
    if ps.len() == 0 {
        0
    } else {
        period_matches(ps.drop_last(), k) + if ps.last() == k { 1int } else { 0int }
    }
}

proof fn lemma_period_sizes_step(s: Seq<FinItem>, ps: Seq<(int, int)>)
    requires
        s.len() > 0,
    ensures
        period_sizes(s, ps) == period_sizes(s.drop_last(), ps) + period_matches(ps, period_key(s.last())),
    decreases ps.len(),
{
    if ps.len() > 0 {
        lemma_period_sizes_step(s, ps.drop_last());
    }
}

proof fn lemma_period_sizes_empty(s: Seq<FinItem>, ps: Seq<(int, int)>)
    requires
        s.len() == 0,
    ensures
        period_sizes(s, ps) == 0,
    decreases ps.len(),
{
    if ps.len() > 0 {
        lemma_period_sizes_empty(s, ps.drop_last());
    }
}

proof fn lemma_period_matches(ps: Seq<(int, int)>, k: (int, int))
    requires
        ps.no_duplicates(),
    ensures
        period_matches(ps, k) == if ps.contains(k) { 1int } else { 0int },
    decreases ps.len(),
{
    if ps.len() > 0 {
        let init = ps.drop_last();
        assert(init.no_duplicates()) by {
            assert forall|i: int, j: int| 0 <= i < init.len() && 0 <= j < init.len() && i != j implies init[i] != init[j] by {
                assert(init[i] == ps[i] && init[j] == ps[j]);
            }
        }
        lemma_period_matches(init, k);
        if ps.last() == k {
            assert(!init.contains(k)) by {
                if init.contains(k) {
                    let t = choose|t: int| 0 <= t < init.len() && init[t] == k;
                    assert(ps[t] == ps[ps.len() - 1]);
                }
            }
            assert(ps.contains(k)) by {
                assert(ps[ps.len() - 1] == k);
            }
        } else {
            assert(ps.contains(k) == init.contains(k)) by {
                if ps.contains(k) {
                    let t = choose|t: int| 0 <= t < ps.len() && ps[t] == k;
                    assert(init[t] == k);
                }
                if init.contains(k) {
                    let t = choose|t: int| 0 <= t < init.len() && init[t] == k;
                    assert(ps[t] == k);
                }
            }
        }
    }
}

/// Partition, counted: over any list of distinct periods that includes the
/// period of every entry, the sizes of the periods add up to the number of
/// entries.
pub proof fn lemma_period_sizes_add_up(s: Seq<FinItem>, ps: Seq<(int, int)>)
    requires
        ps.no_duplicates(),
        forall|i: int| 0 <= i < s.len() ==> ps.contains(#[trigger] period_key(s[i])),
    ensures
        period_sizes(s, ps) == s.len(),
    decreases s.len(),
{
    if s.len() == 0 {
        lemma_period_sizes_empty(s, ps);
    } else {
        let init = s.drop_last();
        assert forall|i: int| 0 <= i < init.len() implies ps.contains(#[trigger] period_key(init[i])) by {
            assert(init[i] == s[i]);
        }
        lemma_period_sizes_add_up(init, ps);
        lemma_period_sizes_step(s, ps);
        assert(ps.contains(period_key(s[s.len() - 1])));
        lemma_period_matches(ps, period_key(s.last()));
    }
}

/// The entries dated in month `month` of `year`, in the order they have in `items`.
pub fn entries_in_period(items: &Vec<FinItem>, year: i32, month: u32) -> (r: Vec<FinItem>)
    ensures
        r@ == period_items(items@, year as int, month as int),
{
    let mut r: Vec<FinItem> = Vec::new();
    let mut i: usize = 0;
    while i < items.len()
        invariant
            i <= items.len(),
            r@ == period_items(items@.subrange(0, i as int), year as int, month as int),
        decreases items.len() - i,
    {
        let ghost pre = items@.subrange(0, i as int);
        assert(items@.subrange(0, i + 1).drop_last() =~= pre);
        let e = &items[i];
        if e.date.year == year && e.date.month == month {
            r.push(copy_item(e));
        }
        i = i + 1;
    }
    assert(items@.subrange(0, items.len() as int) =~= items@);
    r
}

/// The positions of the entries dated in month `m` of year `y`, ascending.
pub open spec fn period_positions(s: Seq<FinItem>, y: int, m: int) -> Seq<usize>
    decreases s.len(),
{
    if s.len() == 0 {
        Seq::empty()
    } else {
        let rest = period_positions(s.drop_last(), y, m);
        if in_period(s.last(), y, m) {
            rest.push((s.len() - 1) as usize)
        } else {
            rest
        }
    }
}

/// Where in `items` the entries of month `month` of `year` stand, so that a
/// caller can edit or remove them in place.
pub fn positions_in_period(items: &Vec<FinItem>, year: i32, month: u32) -> (r: Vec<usize>)
    ensures
        r@ == period_positions(items@, year as int, month as int),
{
    let mut r: Vec<usize> = Vec::new();
    let mut i: usize = 0;
    while i < items.len()
        invariant
            i <= items.len(),
            r@ == period_positions(items@.subrange(0, i as int), year as int, month as int),
        decreases items.len() - i,
    {
        assert(items@.subrange(0, i + 1).drop_last() =~= items@.subrange(0, i as int));
        if items[i].date.year == year && items[i].date.month == month {
            r.push(i);
        }
        i = i + 1;
    }
    assert(items@.subrange(0, items.len() as int) =~= items@);
    r
}

/// Adds `y` to an ascending list of years, unless it is already there.
fn insert_year(years: &mut Vec<i32>, y: i32)
    requires
        ascending_years(old(years)@),
    ensures
        ascending_years(final(years)@),
        forall|x: i32| final(years)@.contains(x) <==> (old(years)@.contains(x) || x == y),
{
    let ghost old_years = years@;
    let mut p: usize = 0;
    while p < years.len()
        invariant
            years@ == old_years,
            p <= years.len(),
            forall|i: int| 0 <= i < p ==> old_years[i] < y,
        ensures
            years@ == old_years,
            p <= years.len(),
            forall|i: int| 0 <= i < p ==> old_years[i] < y,
            p == years.len() || old_years[p as int] >= y,
        decreases years.len() - p,
    {
        if years[p] >= y {
            break;
        }
        p = p + 1;
    }
    if p < years.len() && years[p] == y {
        return;
    }
    years.insert(p, y);
    let ghost ny = years@;
    assert(ny =~= old_years.insert(p as int, y));
    assert forall|x: i32| ny.contains(x) <==> (old_years.contains(x) || x == y) by {
        if ny.contains(x) {
            let t = choose|t: int| 0 <= t < ny.len() && ny[t] == x;
            if t < p {
                assert(old_years[t] == x);
            } else if t > p {
                assert(old_years[t - 1] == x);
            }
        }
        if old_years.contains(x) {
            let t = choose|t: int| 0 <= t < old_years.len() && old_years[t] == x;
            if t < p {
                assert(ny[t] == x);
            } else {
                assert(ny[t + 1] == x);
            }
        }
        if x == y {
            assert(ny[p as int] == x);
        }
    }
}

/// The distinct years of the entries' dates, ascending.
pub fn years_present(items: &Vec<FinItem>) -> (r: Vec<i32>)
    ensures
        ascending_years(r@),
        forall|y: i32| r@.contains(y) <==> has_year(items@, y),
{
    let mut r: Vec<i32> = Vec::new();
    let mut i: usize = 0;
    while i < items.len()
        invariant
            i <= items.len(),
            ascending_years(r@),
            forall|y: i32| r@.contains(y) <==> has_year(items@.subrange(0, i as int), y),
        decreases items.len() - i,
    {
        let ghost pre = items@.subrange(0, i as int);
        let ghost next = items@.subrange(0, i + 1);
        insert_year(&mut r, items[i].date.year);
        assert forall|y: i32| has_year(next, y) <==> (has_year(pre, y) || y == items@[i as int].date.year) by {
            if has_year(next, y) {
                let t = choose|t: int| 0 <= t < next.len() && next[t].date.year == y;
                if t < i {
                    assert(pre[t] == next[t]);
                }
            }
            if has_year(pre, y) {
                let t = choose|t: int| 0 <= t < pre.len() && pre[t].date.year == y;
                assert(next[t] == pre[t]);
            }
            if y == items@[i as int].date.year {
                assert(next[i as int] == items@[i as int]);
            }
        }
        i = i + 1;
    }
    assert(items@.subrange(0, items.len() as int) =~= items@);
    r
}

/// The year to show: `current` when some entry has it, else the latest year
/// present, else `today` when there are no entries at all.
pub fn select_year(years: &Vec<i32>, current: i32, today: i32) -> (r: i32)
    ensures
        years@.contains(current) ==> r == current,
        !years@.contains(current) && years.len() > 0 ==> years@.contains(r) && forall|i: int|
            0 <= i < years.len() ==> years[i] <= r,
        years.len() == 0 ==> r == today,
{
    if years.len() == 0 {
        return today;
    }
    let mut best: i32 = years[0];
    let mut i: usize = 0;
    while i < years.len()
        invariant
            0 < years.len(),
            i <= years.len(),
            years@.contains(best),
            forall|j: int| 0 <= j < i ==> years[j] <= best,
            forall|j: int| 0 <= j < i ==> years[j] != current,
        decreases years.len() - i,
    {
        if years[i] == current {
            return current;
        }
        if years[i] > best {
            best = years[i];
        }
        i = i + 1;
    }
    best
}

/// A month of a year: the cursor the ledger is browsed by.
#[derive(Clone, Copy, Debug, PartialEq, Eq, Structural)]
pub struct Period {
    pub year: i32,
    pub month: u32,
}

impl Period {
    pub open spec fn wf(&self) -> bool {
        1 <= self.month <= 12
    }
}

/// The period after `c`: the next month, or January of the next year when that
/// year is present; December of a year whose successor is absent stays put.
pub open spec fn advanced(c: Period, years: Seq<i32>) -> Period {
    if c.month < 12 {
        Period { year: c.year, month: (c.month + 1) as u32 }
    } else if c.year < i32::MAX && years.contains((c.year + 1) as i32) {
        Period { year: (c.year + 1) as i32, month: 1 }
    } else {
        c
    }
}

/// The period before `c`, mirroring [`advanced`].
pub open spec fn retreated(c: Period, years: Seq<i32>) -> Period {
    if c.month > 1 {
        Period { year: c.year, month: (c.month - 1) as u32 }
    } else if c.year > i32::MIN && years.contains((c.year - 1) as i32) {
        Period { year: (c.year - 1) as i32, month: 12 }
    } else {
        c
    }
}

pub open spec fn advanced_times(c: Period, years: Seq<i32>, n: nat) -> Period
    decreases n,
{
    if n == 0 {
        c
    } else {
        advanced_times(advanced(c, years), years, (n - 1) as nat)
    }
}

pub open spec fn retreated_times(c: Period, years: Seq<i32>, n: nat) -> Period
    decreases n,
{
    if n == 0 {
        c
    } else {
        retreated_times(retreated(c, years), years, (n - 1) as nat)
    }
}

/// From December of the latest year present, advancing any number of times
/// leaves the cursor where it is.
pub proof fn lemma_advance_stops_at_latest(c: Period, years: Seq<i32>, n: nat)
    requires
        c.month == 12,
        years.contains(c.year),
        forall|i: int| 0 <= i < years.len() ==> years[i] <= c.year,
    ensures
        advanced_times(c, years, n) == c,
    decreases n,
{
    if n > 0 {
        assert(advanced(c, years) == c);
        lemma_advance_stops_at_latest(c, years, (n - 1) as nat);
    }
}

/// From January of the earliest year present, retreating any number of times
/// leaves the cursor where it is.
pub proof fn lemma_retreat_stops_at_earliest(c: Period, years: Seq<i32>, n: nat)
    requires
        c.month == 1,
        years.contains(c.year),
        forall|i: int| 0 <= i < years.len() ==> c.year <= years[i],
    ensures
        retreated_times(c, years, n) == c,
    decreases n,
{
    if n > 0 {
        assert(retreated(c, years) == c);
        lemma_retreat_stops_at_earliest(c, years, (n - 1) as nat);
    }
}

fn contains_year(years: &Vec<i32>, y: i32) -> (r: bool)
    ensures
        r == years@.contains(y),
{
    let mut i: usize = 0;
    while i < years.len()
        invariant
            i <= years.len(),
            forall|j: int| 0 <= j < i ==> years[j] != y,
        decreases years.len() - i,
    {
        if years[i] == y {
            return true;
        }
        i = i + 1;
    }
    false
}

impl Period {
    /// Moves to the next month; from December only into a year that is present.
    pub fn advance(&mut self, years: &Vec<i32>)
        requires
            old(self).wf(),
        ensures
            *final(self) == advanced(*old(self), years@),
            final(self).wf(),
    {
        if self.month < 12 {
            self.month = self.month + 1;
        } else if self.year < i32::MAX && contains_year(years, self.year + 1) {
            self.year = self.year + 1;
            self.month = 1;
        }
    }

    /// Moves to the previous month; from January only into a year that is present.
    pub fn retreat(&mut self, years: &Vec<i32>)
        requires
            old(self).wf(),
        ensures
            *final(self) == retreated(*old(self), years@),
            final(self).wf(),
    {
        if self.month > 1 {
            self.month = self.month - 1;
        } else if self.year > i32::MIN && contains_year(years, self.year - 1) {
            self.year = self.year - 1;
            self.month = 12;
        }
    }
}

} // verus!
