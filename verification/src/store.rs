//! The metric record store: a table of readings ordered by recording
//! instant, with insert, point lookup, time-range and per-metric series
//! queries, and bulk deletion by identifier or by a time cutoff.
//!
//! The rows are kept sorted by recording instant (ties keep insertion
//! order) with unique identifiers below the insertion counter; every
//! operation preserves that well-formedness and is specified against the
//! row sequence.

use vstd::prelude::*;

use crate::instant::{instant_le, instant_lt, instant_lt_exec, Instant};
use crate::models::{
    metric_field, metric_field_of, DataEntry, MetricName, MetricValue, PlantMetricEntity,
    PlantMetricInsert, SortOrder,
};
use crate::shaper::shape_spec;

verus! {

/// A storage failure surfaced to the caller as an opaque error: here, the
/// identifier space is exhausted.
#[derive(Clone, Copy, Debug, PartialEq, Eq, Structural)]
pub struct StorageError;

/// Rows non-decreasing in their recording instant.
pub open spec fn time_sorted(rows: Seq<PlantMetricEntity>) -> bool {
    forall|i: int, j: int|
        0 <= i <= j < rows.len() ==> instant_le(
            (#[trigger] rows[i]).recorded_at,
            (#[trigger] rows[j]).recorded_at,
        )
}

/// No two rows share an identifier.
pub open spec fn ids_unique(rows: Seq<PlantMetricEntity>) -> bool {
    forall|i: int, j: int|
        0 <= i < j < rows.len() ==> (#[trigger] rows[i]).id != (#[trigger] rows[j]).id
}

/// Every identifier was assigned by the counter: positive and below it.
pub open spec fn ids_below(rows: Seq<PlantMetricEntity>, next_id: int) -> bool {
    forall|i: int| 0 <= i < rows.len() ==> 1 <= (#[trigger] rows[i]).id < next_id
}

/// Every row's instant is a well-formed calendar second.
pub open spec fn times_wf(rows: Seq<PlantMetricEntity>) -> bool {
    forall|i: int| 0 <= i < rows.len() ==> (#[trigger] rows[i]).recorded_at.wf()
}

/// The first row from the front with the given identifier, scanning from
/// index `i`.
pub open spec fn find_by_id_from(
    rows: Seq<PlantMetricEntity>,
    id: i32,
    i: int,
) -> Option<PlantMetricEntity>
    decreases rows.len() - i,
{
    if i < 0 || i >= rows.len() {
        None
    } else if rows[i].id == id {
        Some(rows[i])
    } else {
        find_by_id_from(rows, id, i + 1)
    }
}

/// The first row with the given identifier.
pub open spec fn find_by_id(rows: Seq<PlantMetricEntity>, id: i32) -> Option<PlantMetricEntity> {
    find_by_id_from(rows, id, 0)
}

/// The first row recorded exactly at the given instant, scanning from
/// index `i`.
pub open spec fn find_at_time_from(
    rows: Seq<PlantMetricEntity>,
    t: Instant,
    i: int,
) -> Option<PlantMetricEntity>
    decreases rows.len() - i,
{
    if i < 0 || i >= rows.len() {
        None
    } else if rows[i].recorded_at == t {
        Some(rows[i])
    } else {
        find_at_time_from(rows, t, i + 1)
    }
}

/// The first row recorded exactly at the given instant.
pub open spec fn find_at_time(rows: Seq<PlantMetricEntity>, t: Instant) -> Option<
    PlantMetricEntity,
> {
    find_at_time_from(rows, t, 0)
}

/// The rows recorded at or before the cutoff, in row order.
pub open spec fn at_or_before(rows: Seq<PlantMetricEntity>, t: Instant) -> Seq<
    PlantMetricEntity,
> {
    rows.filter(|rec: PlantMetricEntity| instant_le(rec.recorded_at, t))
}

/// The rows recorded strictly after the cutoff, in row order.
pub open spec fn strictly_after(rows: Seq<PlantMetricEntity>, t: Instant) -> Seq<
    PlantMetricEntity,
> {
    rows.filter(|rec: PlantMetricEntity| instant_lt(t, rec.recorded_at))
}

/// Each row's instant paired with the named metric's column, in row order.
pub open spec fn metric_pairs(rows: Seq<PlantMetricEntity>, m: MetricName) -> Seq<
    (Instant, Option<MetricValue>),
> {
    rows.map_values(|rec: PlantMetricEntity| (rec.recorded_at, metric_field(rec, m)))
}

/// The ascending series of the named metric: the instant and value of each
/// row whose column is present, in row order.
pub open spec fn metric_series(rows: Seq<PlantMetricEntity>, m: MetricName) -> Seq<
    DataEntry<MetricValue>,
> {
    shape_spec(metric_pairs(rows, m))
}

/// The series of the named metric in the requested order; the rows stand
/// in ascending time order, so descending is the ascending series
/// reversed.
pub open spec fn metric_series_ord(
    rows: Seq<PlantMetricEntity>,
    m: MetricName,
    order: SortOrder,
) -> Seq<DataEntry<MetricValue>> {
    match order {
        SortOrder::Ascending => metric_series(rows, m),
        SortOrder::Descending => metric_series(rows, m).reverse(),
    }
}

/// When exactly one row carries the identifier, the scan finds that row.
pub proof fn lemma_find_by_id_unique_hit(rows: Seq<PlantMetricEntity>, id: i32, k: int, i: int)
    requires
        0 <= i <= k < rows.len(),
        rows[k].id == id,
        forall|j: int| 0 <= j < rows.len() && j != k ==> (#[trigger] rows[j]).id != id,
    ensures
        find_by_id_from(rows, id, i) == Some(rows[k]),
    decreases k - i,
{
    if i < k {
        lemma_find_by_id_unique_hit(rows, id, k, i + 1);
    }
}

/// Splitting the rows where the cutoff falls makes the two time filters
/// plain prefix and suffix: the split index needs every earlier row at or
/// before the cutoff and every later row strictly after it.
pub proof fn lemma_split_at_cutoff(rows: Seq<PlantMetricEntity>, t: Instant, k: int)
    requires
        0 <= k <= rows.len(),
        forall|j: int| 0 <= j < k ==> instant_le((#[trigger] rows[j]).recorded_at, t),
        forall|j: int| k <= j < rows.len() ==> instant_lt(t, (#[trigger] rows[j]).recorded_at),
    ensures
        at_or_before(rows, t) == rows.subrange(0, k),
        strictly_after(rows, t) == rows.subrange(k, rows.len() as int),
    decreases rows.len(),
{
    reveal(Seq::filter);
    if rows.len() == 0 {
        assert(at_or_before(rows, t) =~= rows.subrange(0, 0));
        assert(strictly_after(rows, t) =~= rows.subrange(0, 0));
    } else {
        let dl = rows.drop_last();
        let last = rows.last();
        if k == rows.len() {
            assert(forall|j: int|
                0 <= j < k - 1 ==> instant_le((#[trigger] dl[j]).recorded_at, t));
            lemma_split_at_cutoff(dl, t, k - 1);
            assert(at_or_before(rows, t) =~= rows.subrange(0, k));
            assert(strictly_after(rows, t) =~= rows.subrange(k, rows.len() as int));
        } else {
            assert(forall|j: int| 0 <= j < k ==> instant_le((#[trigger] dl[j]).recorded_at, t));
            assert(forall|j: int|
                k <= j < dl.len() ==> instant_lt(t, (#[trigger] dl[j]).recorded_at));
            lemma_split_at_cutoff(dl, t, k);
            assert(at_or_before(rows, t) =~= rows.subrange(0, k));
            assert(strictly_after(rows, t) =~= rows.subrange(k, rows.len() as int));
        }
    }
}

/// In a time-sorted table the cutoff falls at some index: rows at or
/// before it first, rows strictly after it from there on.
pub proof fn lemma_sorted_has_split(rows: Seq<PlantMetricEntity>, t: Instant) -> (k: int)
    requires
        time_sorted(rows),
    ensures
        0 <= k <= rows.len(),
        forall|j: int| 0 <= j < k ==> instant_le((#[trigger] rows[j]).recorded_at, t),
        forall|j: int| k <= j < rows.len() ==> instant_lt(t, (#[trigger] rows[j]).recorded_at),
    decreases rows.len(),
{
    if rows.len() == 0 {
        0
    } else {
        let last = rows.last();
        if instant_lt(t, last.recorded_at) {
            let dl = rows.drop_last();
            assert(time_sorted(dl)) by {
                assert forall|i: int, j: int| 0 <= i <= j < dl.len() implies instant_le(
                    (#[trigger] dl[i]).recorded_at,
                    (#[trigger] dl[j]).recorded_at,
                ) by {
                    assert(dl[i] == rows[i] && dl[j] == rows[j]);
                }
            }
            let k = lemma_sorted_has_split(dl, t);
            assert forall|j: int| 0 <= j < k implies instant_le(
                (#[trigger] rows[j]).recorded_at,
                t,
            ) by {
                assert(rows[j] == dl[j]);
            }
            assert forall|j: int| k <= j < rows.len() implies instant_lt(
                t,
                (#[trigger] rows[j]).recorded_at,
            ) by {
                if j < rows.len() - 1 {
                    assert(rows[j] == dl[j]);
                }
            }
            k
        } else {
            let k = rows.len() as int;
            assert forall|j: int| 0 <= j < k implies instant_le(
                (#[trigger] rows[j]).recorded_at,
                t,
            ) by {
                assert(instant_le(rows[j].recorded_at, last.recorded_at));
            }
            k
        }
    }
}

/// Among rows kept as strictly after the cutoff, nothing at or before the
/// cutoff can be found, whatever the table held.
pub proof fn lemma_nothing_left_at_or_before(rows: Seq<PlantMetricEntity>, t: Instant)
    ensures
        at_or_before(strictly_after(rows, t), t) == Seq::<PlantMetricEntity>::empty(),
    decreases rows.len(),
{
    reveal(Seq::filter);
    if rows.len() == 0 {
        assert(strictly_after(rows, t) =~= Seq::<PlantMetricEntity>::empty());
        assert(at_or_before(strictly_after(rows, t), t) =~= Seq::<PlantMetricEntity>::empty());
    } else {
        let dl = rows.drop_last();
        let last = rows.last();
        lemma_nothing_left_at_or_before(dl, t);
        let sa = strictly_after(rows, t);
        let sad = strictly_after(dl, t);
        if instant_lt(t, last.recorded_at) {
            assert(sa == sad.push(last));
            assert(sad.push(last).drop_last() =~= sad);
            assert(!instant_le(last.recorded_at, t));
            assert(at_or_before(sa, t) == at_or_before(sad, t));
        } else {
            assert(sa == sad);
        }
    }
}

/// Delete atomicity: splitting a time-sorted table at a cutoff loses no
/// row — the rows at or before the cutoff followed by the rows strictly
/// after it are the whole table — and among the kept rows nothing at or
/// before the cutoff remains.
pub proof fn lemma_delete_atomicity(rows: Seq<PlantMetricEntity>, t: Instant)
    requires
        time_sorted(rows),
    ensures
        at_or_before(rows, t) + strictly_after(rows, t) == rows,
        at_or_before(strictly_after(rows, t), t) == Seq::<PlantMetricEntity>::empty(),
{
    let k = lemma_sorted_has_split(rows, t);
    lemma_split_at_cutoff(rows, t, k);
    assert(at_or_before(rows, t) + strictly_after(rows, t) =~= rows);
    lemma_nothing_left_at_or_before(rows, t);
}

/// The metric record store. The rows are ordered by recording instant and
/// `next_id` is the identifier the next insert will assign.
pub struct MetricStore {
    pub rows: Vec<PlantMetricEntity>,
    pub next_id: i32,
}

impl MetricStore {
    /// Well-formedness: rows sorted by instant, identifiers unique and
    /// below the counter, instants well-formed.
    pub open spec fn wf(self) -> bool {
        self.next_id >= 1 && time_sorted(self.rows@) && ids_unique(self.rows@) && ids_below(
            self.rows@,
            self.next_id as int,
        ) && times_wf(self.rows@)
    }

    /// An empty store whose first insert will assign identifier 1.
    pub fn new() -> (r: MetricStore)
        ensures
            r.wf(),
            r.rows@ == Seq::<PlantMetricEntity>::empty(),
            r.next_id == 1,
    {
        MetricStore { rows: Vec::new(), next_id: 1 }
    }

    /// An empty store resuming at an identifier watermark, as a durable
    /// store does after reloading its insertion counter.
    pub fn with_next_id(next_id: i32) -> (r: MetricStore)
        requires
            next_id >= 1,
        ensures
            r.wf(),
            r.rows@ == Seq::<PlantMetricEntity>::empty(),
            r.next_id == next_id,
    {
        MetricStore { rows: Vec::new(), next_id }
    }

    /// First index whose row is recorded strictly after `t`; every row
    /// before it is at or before `t`. With the rows sorted this splits the
    /// table at the cutoff.
    fn find_pos_after(&self, t: &Instant) -> (k: usize)
        requires
            time_sorted(self.rows@),
        ensures
            k <= self.rows@.len(),
            forall|j: int| 0 <= j < k ==> instant_le((#[trigger] self.rows@[j]).recorded_at, *t),
            forall|j: int|
                k <= j < self.rows@.len() ==> instant_lt(*t, (#[trigger] self.rows@[j]).recorded_at),
    {
        let mut i: usize = 0;
        loop
            invariant
                i <= self.rows@.len(),
                time_sorted(self.rows@),
                forall|j: int| 0 <= j < i ==> instant_le((#[trigger] self.rows@[j]).recorded_at, *t),
            decreases self.rows@.len() - i,
        {
            if i == self.rows.len() {
                return i;
            }
            if instant_lt_exec(t, &self.rows[i].recorded_at) {
                return i;
            }
            i += 1;
        }
    }

    /// Inserts one reading. The store assigns the identifier and stamps
    /// the record with `now`, the server clock at insert time; the new row
    /// takes its place in time order, after any row sharing its instant.
    /// Fails only when the identifier space is exhausted, and then changes
    /// nothing.
    pub fn insert(&mut self, m: &PlantMetricInsert, now: Instant) -> (r: Result<
        PlantMetricEntity,
        StorageError,
    >)
        requires
            old(self).wf(),
            now.wf(),
        ensures
            final(self).wf(),
            match r {
                Ok(rec) => {
                    &&& rec.id == old(self).next_id
                    &&& rec.recorded_at == now
                    &&& rec.temperature == Some(m.temperature)
                    &&& rec.humidity == Some(m.humidity)
                    &&& rec.light == Some(m.light)
                    &&& rec.soil_moisture == Some(m.soil_moisture)
                    &&& final(self).next_id == old(self).next_id + 1
                    &&& exists|k: int|
                        0 <= k <= old(self).rows@.len() && final(self).rows@ == old(
                            self,
                        ).rows@.insert(k, rec)
                    &&& find_by_id(final(self).rows@, rec.id) == Some(rec)
                },
                Err(_) => old(self).next_id == i32::MAX && *final(self) == *old(self),
            },
    {
        if self.next_id == i32::MAX {
            return Err(StorageError);
        }
        let rec = PlantMetricEntity {
            id: self.next_id,
            recorded_at: now,
            temperature: Some(m.temperature),
            humidity: Some(m.humidity),
            light: Some(m.light),
            soil_moisture: Some(m.soil_moisture),
        };
        let ghost old_rows = self.rows@;
        let k = self.find_pos_after(&now);
        self.rows.insert(k, rec);
        self.next_id = self.next_id + 1;
        proof {
            old_rows.insert_ensures(k as int, rec);
            let new_rows = self.rows@;
            assert(time_sorted(new_rows)) by {
                assert forall|i: int, j: int| 0 <= i <= j < new_rows.len() implies instant_le(
                    (#[trigger] new_rows[i]).recorded_at,
                    (#[trigger] new_rows[j]).recorded_at,
                ) by {
                    if i < k && j > k {
                        assert(instant_le(old_rows[i].recorded_at, old_rows[j - 1].recorded_at));
                    }
                }
            }
            assert(ids_unique(new_rows)) by {
                assert forall|i: int, j: int|
                    0 <= i < j < new_rows.len() implies (#[trigger] new_rows[i]).id != (
                #[trigger] new_rows[j]).id by {}
            }
            assert(find_by_id(new_rows, rec.id) == Some(rec)) by {
                lemma_find_by_id_unique_hit(new_rows, rec.id, k as int, 0);
            }
        }
        Ok(rec)
    }

    /// Point lookup by identifier: the row with that identifier, or
    /// nothing. Absence is a valid empty result, never an error.
    pub fn get_by_id(&self, id: i32) -> (r: Option<PlantMetricEntity>)
        ensures
            r == find_by_id(self.rows@, id),
    {
        let mut i: usize = 0;
        while i < self.rows.len()
            invariant
                i <= self.rows@.len(),
                find_by_id(self.rows@, id) == find_by_id_from(self.rows@, id, i as int),
            decreases self.rows@.len() - i,
        {
            if self.rows[i].id == id {
                return Some(self.rows[i]);
            }
            i += 1;
        }
        None
    }

    /// Exact-match point lookup on the recording instant: the first row
    /// found, since several rows may share an instant; nothing when no row
    /// matches.
    pub fn get_at_time(&self, t: &Instant) -> (r: Option<PlantMetricEntity>)
        ensures
            r == find_at_time(self.rows@, *t),
    {
        let mut i: usize = 0;
        while i < self.rows.len()
            invariant
                i <= self.rows@.len(),
                find_at_time(self.rows@, *t) == find_at_time_from(self.rows@, *t, i as int),
            decreases self.rows@.len() - i,
        {
            if crate::instant::instant_eq_exec(&self.rows[i].recorded_at, t) {
                return Some(self.rows[i]);
            }
            i += 1;
        }
        None
    }

    /// All rows recorded at or before the cutoff, in row order (ascending,
    /// since the table is time-sorted).
    pub fn get_before_or_at_time(&self, t: &Instant) -> (r: Vec<PlantMetricEntity>)
        requires
            time_sorted(self.rows@),
        ensures
            r@ == at_or_before(self.rows@, *t),
    {
        let k = self.find_pos_after(t);
        let mut out: Vec<PlantMetricEntity> = Vec::new();
        let mut i: usize = 0;
        while i < k
            invariant
                i <= k <= self.rows@.len(),
                out@ == self.rows@.subrange(0, i as int),
            decreases k - i,
        {
            out.push(self.rows[i]);
            proof {
                assert(out@ =~= self.rows@.subrange(0, i + 1 as int));
            }
            i += 1;
        }
        proof {
            lemma_split_at_cutoff(self.rows@, *t, k as int);
        }
        out
    }

    /// Atomically removes and returns all rows recorded at or before the
    /// cutoff: the returned rows are exactly the removed ones, and only
    /// rows recorded strictly after the cutoff remain.
    pub fn delete_before_or_at_time(&mut self, t: &Instant) -> (r: Vec<PlantMetricEntity>)
        requires
            old(self).wf(),
        ensures
            final(self).wf(),
            final(self).next_id == old(self).next_id,
            r@ == at_or_before(old(self).rows@, *t),
            final(self).rows@ == strictly_after(old(self).rows@, *t),
    {
        let ghost old_rows = self.rows@;
        let k = self.find_pos_after(t);
        let mut removed: Vec<PlantMetricEntity> = Vec::new();
        let mut i: usize = 0;
        while i < k
            invariant
                i <= k <= self.rows@.len(),
                self.rows@ == old_rows,
                removed@ == old_rows.subrange(0, i as int),
            decreases k - i,
        {
            removed.push(self.rows[i]);
            proof {
                assert(removed@ =~= old_rows.subrange(0, i + 1 as int));
            }
            i += 1;
        }
        let tail = self.rows.split_off(k);
        self.rows = tail;
        proof {
            lemma_split_at_cutoff(old_rows, *t, k as int);
            let kept = self.rows@;
            assert(time_sorted(kept)) by {
                assert forall|a: int, b: int| 0 <= a <= b < kept.len() implies instant_le(
                    (#[trigger] kept[a]).recorded_at,
                    (#[trigger] kept[b]).recorded_at,
                ) by {
                    assert(kept[a] == old_rows[k + a] && kept[b] == old_rows[k + b]);
                }
            }
            assert(ids_unique(kept)) by {
                assert forall|a: int, b: int| 0 <= a < b < kept.len() implies (
                #[trigger] kept[a]).id != (#[trigger] kept[b]).id by {
                    assert(kept[a] == old_rows[k + a] && kept[b] == old_rows[k + b]);
                }
            }
            assert(ids_below(kept, self.next_id as int)) by {
                assert forall|a: int| 0 <= a < kept.len() implies 1 <= (#[trigger] kept[a]).id
                    < self.next_id as int by {
                    assert(kept[a] == old_rows[k + a]);
                }
            }
            assert(times_wf(kept)) by {
                assert forall|a: int| 0 <= a < kept.len() implies (
                #[trigger] kept[a]).recorded_at.wf() by {
                    assert(kept[a] == old_rows[k + a]);
                }
            }
        }
        removed
    }

    /// Removes the row with the given identifier; true iff exactly one row
    /// was removed, false when none matched. The identifier-uniqueness
    /// invariant rules out removing more than one.
    pub fn delete_by_id(&mut self, id: i32) -> (r: bool)
        requires
            old(self).wf(),
        ensures
            final(self).wf(),
            final(self).next_id == old(self).next_id,
            r == (find_by_id(old(self).rows@, id) is Some),
            !r ==> *final(self) == *old(self),
            r ==> exists|i: int|
                0 <= i < old(self).rows@.len() && (#[trigger] old(self).rows@[i]).id == id
                    && final(self).rows@ == old(self).rows@.remove(i),
    {
        let ghost old_rows = self.rows@;
        let mut i: usize = 0;
        while i < self.rows.len()
            invariant
                i <= self.rows@.len(),
                self.rows@ == old_rows,
                *self == *old(self),
                old(self).wf(),
                find_by_id(old_rows, id) == find_by_id_from(old_rows, id, i as int),
            decreases self.rows@.len() - i,
        {
            if self.rows[i].id == id {
                self.rows.remove(i);
                proof {
                    let kept = self.rows@;
                    assert(kept =~= old_rows.subrange(0, i as int) + old_rows.subrange(
                        i as int + 1,
                        old_rows.len() as int,
                    ));
                    assert(time_sorted(kept)) by {
                        assert forall|a: int, b: int| 0 <= a <= b < kept.len() implies instant_le(
                            (#[trigger] kept[a]).recorded_at,
                            (#[trigger] kept[b]).recorded_at,
                        ) by {
                            if a < i as int {
                                assert(kept[a] == old_rows[a]);
                            } else {
                                assert(kept[a] == old_rows[a + 1]);
                            }
                            if b < i as int {
                                assert(kept[b] == old_rows[b]);
                            } else {
                                assert(kept[b] == old_rows[b + 1]);
                            }
                        }
                    }
                    assert(ids_unique(kept)) by {
                        assert forall|a: int, b: int| 0 <= a < b < kept.len() implies (
                        #[trigger] kept[a]).id != (#[trigger] kept[b]).id by {
                            if a < i as int {
                                assert(kept[a] == old_rows[a]);
                            } else {
                                assert(kept[a] == old_rows[a + 1]);
                            }
                            if b < i as int {
                                assert(kept[b] == old_rows[b]);
                            } else {
                                assert(kept[b] == old_rows[b + 1]);
                            }
                        }
                    }
                    assert(ids_below(kept, self.next_id as int) && times_wf(kept)) by {
                        assert forall|a: int| 0 <= a < kept.len() implies 1 <= (
                        #[trigger] kept[a]).id < self.next_id as int && kept[a].recorded_at.wf() by {
                            if a < i as int {
                                assert(kept[a] == old_rows[a]);
                            } else {
                                assert(kept[a] == old_rows[a + 1]);
                            }
                        }
                    }
                }
                return true;
            }
            i += 1;
        }
        false
    }

    /// The entries of the named metric's series over the rows from `from`
    /// on: instant and value of each row whose column is present, in row
    /// order.
    fn collect_series(&self, m: MetricName, from: usize) -> (r: Vec<DataEntry<MetricValue>>)
        requires
            from <= self.rows@.len(),
        ensures
            r@ == metric_series(self.rows@.skip(from as int), m),
    {
        let mut out: Vec<DataEntry<MetricValue>> = Vec::new();
        let mut i: usize = from;
        while i < self.rows.len()
            invariant
                from <= i <= self.rows@.len(),
                out@ == metric_series(self.rows@.subrange(from as int, i as int), m),
            decreases self.rows@.len() - i,
        {
            let rec = self.rows[i];
            match metric_field_of(&rec, m) {
                Some(v) => out.push(DataEntry { time: rec.recorded_at, data: v }),
                None => (),
            }
            proof {
                let prev = metric_pairs(self.rows@.subrange(from as int, i as int), m);
                let cur = metric_pairs(self.rows@.subrange(from as int, i + 1 as int), m);
                assert(cur.drop_last() =~= prev);
                assert(cur.last() == (rec.recorded_at, metric_field(rec, m)));
            }
            i += 1;
        }
        proof {
            assert(self.rows@.subrange(from as int, self.rows@.len() as int) =~= self.rows@.skip(
                from as int,
            ));
        }
        out
    }

    /// The full series of the named metric: every row whose column for
    /// that metric is present, sorted by recording instant in the
    /// requested order.
    pub fn get_all_non_null(&self, m: MetricName, order: SortOrder) -> (r: Vec<
        DataEntry<MetricValue>,
    >)
        ensures
            r@ == metric_series_ord(self.rows@, m, order),
    {
        let asc = self.collect_series(m, 0);
        proof {
            assert(self.rows@.skip(0) =~= self.rows@);
        }
        match order {
            SortOrder::Ascending => asc,
            SortOrder::Descending => crate::shaper::reverse_vec(&asc),
        }
    }

    /// The series of the named metric restricted to rows recorded strictly
    /// after the cursor, sorted in the requested order.
    pub fn get_all_non_null_after(&self, m: MetricName, t: &Instant, order: SortOrder) -> (r: Vec<
        DataEntry<MetricValue>,
    >)
        requires
            time_sorted(self.rows@),
        ensures
            r@ == metric_series_ord(strictly_after(self.rows@, *t), m, order),
    {
        let k = self.find_pos_after(t);
        let asc = self.collect_series(m, k);
        proof {
            lemma_split_at_cutoff(self.rows@, *t, k as int);
            assert(self.rows@.skip(k as int) =~= self.rows@.subrange(
                k as int,
                self.rows@.len() as int,
            ));
        }
        match order {
            SortOrder::Ascending => asc,
            SortOrder::Descending => crate::shaper::reverse_vec(&asc),
        }
    }

    /// The raw selection behind a bundle: each row's instant paired with
    /// the named metric's nullable column, in ascending time order. The
    /// shaper drops the absent values.
    pub fn get_metric_rows(&self, m: MetricName) -> (r: Vec<(Instant, Option<MetricValue>)>)
        ensures
            r@ == metric_pairs(self.rows@, m),
    {
        let mut out: Vec<(Instant, Option<MetricValue>)> = Vec::new();
        let mut i: usize = 0;
        while i < self.rows.len()
            invariant
                i <= self.rows@.len(),
                out@.len() == i,
                forall|k: int|
                    0 <= k < i ==> out@[k] == ((#[trigger] self.rows@[k]).recorded_at, metric_field(
                        self.rows@[k],
                        m,
                    )),
            decreases self.rows@.len() - i,
        {
            let rec = self.rows[i];
            out.push((rec.recorded_at, metric_field_of(&rec, m)));
            i += 1;
        }
        proof {
            assert(out@ =~= metric_pairs(self.rows@, m));
        }
        out
    }
}

} // verus!
