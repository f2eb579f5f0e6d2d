//! The query façade: the operations the service layer consumes, over a
//! store handle passed in explicitly. Time strings cross this boundary in
//! RFC 3339 form only; a malformed one is rejected here, uniformly for
//! read and delete paths, before any store operation runs.

use vstd::prelude::*;

use crate::codec::{get_datetime_string, parse_datetime_string, parse_spec, render_spec,
    TimeFormatError};
use crate::instant::{instant_le, instant_lt, Instant};
use crate::models::{
    DataEntry, MetricName, MetricSelection, MetricValue, PlantMetricEntity,
    PlantMetricInsert, SortOrder, TimeseriesData,
};
use crate::shaper::{
    entries_time_sorted, lemma_shape_one_after, lemma_shape_one_sorted, pairs_time_sorted,
    reverse_vec, shape_one,
};
use crate::store::{
    at_or_before, find_at_time, find_by_id, lemma_sorted_has_split, lemma_split_at_cutoff,
    metric_pairs, metric_series, metric_series_ord, strictly_after, time_sorted, MetricStore,
    StorageError,
};

verus! {

/// A time-sorted table yields a time-sorted series.
pub proof fn lemma_series_sorted(rows: Seq<PlantMetricEntity>, m: MetricName)
    requires
        time_sorted(rows),
    ensures
        entries_time_sorted(metric_series(rows, m)),
{
    let pairs = metric_pairs(rows, m);
    assert(pairs_time_sorted(pairs)) by {
        assert forall|i: int, j: int| 0 <= i <= j < pairs.len() implies instant_le(
            (#[trigger] pairs[i]).0,
            (#[trigger] pairs[j]).0,
        ) by {
            assert(pairs[i].0 == rows[i].recorded_at);
            assert(pairs[j].0 == rows[j].recorded_at);
        }
    }
    lemma_shape_one_sorted(pairs);
}

/// What remains strictly after a cutoff of a time-sorted table is itself
/// time-sorted, and every entry of its series is strictly after the
/// cutoff.
pub proof fn lemma_series_after_cursor(rows: Seq<PlantMetricEntity>, m: MetricName, t: Instant)
    requires
        time_sorted(rows),
    ensures
        time_sorted(strictly_after(rows, t)),
        forall|i: int|
            0 <= i < metric_series(strictly_after(rows, t), m).len() ==> instant_lt(
                t,
                (#[trigger] metric_series(strictly_after(rows, t), m)[i]).time,
            ),
{
    let k = lemma_sorted_has_split(rows, t);
    lemma_split_at_cutoff(rows, t, k);
    let base = strictly_after(rows, t);
    assert forall|j: int| 0 <= j < base.len() implies instant_lt(
        t,
        (#[trigger] base[j]).recorded_at,
    ) by {
        assert(base[j] == rows[k + j]);
    }
    assert(time_sorted(base)) by {
        assert forall|i: int, j: int| 0 <= i <= j < base.len() implies instant_le(
            (#[trigger] base[i]).recorded_at,
            (#[trigger] base[j]).recorded_at,
        ) by {
            assert(base[i] == rows[k + i]);
            assert(base[j] == rows[k + j]);
        }
    }
    let pairs = metric_pairs(base, m);
    assert forall|j: int| 0 <= j < pairs.len() implies instant_lt(t, (#[trigger] pairs[j]).0) by {
        assert(pairs[j].0 == base[j].recorded_at);
    }
    lemma_shape_one_after(pairs, t);
}

/// Inserts one reading, stamped with `now`, the server clock at insert
/// time; the identifier is assigned by the store. Reading the returned
/// identifier back yields the returned record: it carries exactly the
/// input's four measurements and the instant `now`. Fails only when the
/// identifier space is exhausted, and then changes nothing.
pub fn create_metric(store: &mut MetricStore, input: &PlantMetricInsert, now: Instant) -> (r:
    Result<PlantMetricEntity, StorageError>)
    requires
        old(store).wf(),
        now.wf(),
    ensures
        final(store).wf(),
        match r {
            Ok(rec) => {
                &&& find_by_id(final(store).rows@, rec.id) == Some(rec)
                &&& rec.id == old(store).next_id
                &&& rec.recorded_at == now
                &&& rec.temperature == Some(input.temperature)
                &&& rec.humidity == Some(input.humidity)
                &&& rec.light == Some(input.light)
                &&& rec.soil_moisture == Some(input.soil_moisture)
                &&& final(store).next_id == old(store).next_id + 1
                &&& exists|k: int|
                    0 <= k <= old(store).rows@.len() && final(store).rows@ == old(
                        store,
                    ).rows@.insert(k, rec)
            },
            Err(_) => old(store).next_id == i32::MAX && *final(store) == *old(store),
        },
{
    store.insert(input, now)
}

/// Point lookup by identifier; absence is a valid empty result.
pub fn read_by_id(store: &MetricStore, id: i32) -> (r: Option<PlantMetricEntity>)
    ensures
        r == find_by_id(store.rows@, id),
{
    store.get_by_id(id)
}

/// Point lookup at an exact instant, given as an RFC 3339 string. A
/// malformed time string is a client error, distinct from "no matching
/// row"; on a well-formed one the first matching row is returned, if any.
pub fn read_at_time(store: &MetricStore, time: &str) -> (r: Result<
    Option<PlantMetricEntity>,
    TimeFormatError,
>)
    ensures
        r is Ok <==> parse_spec(time@) is Some,
        r matches Ok(opt) ==> opt == find_at_time(store.rows@, parse_spec(time@).unwrap()),
{
    let t = match parse_datetime_string(time) {
        Ok(t) => t,
        Err(e) => {
            return Err(e);
        },
    };
    Ok(store.get_at_time(&t))
}

/// All records at or before the given RFC 3339 instant, in ascending time
/// order. A malformed time string is a client error.
pub fn read_before_time(store: &MetricStore, time: &str) -> (r: Result<
    Vec<PlantMetricEntity>,
    TimeFormatError,
>)
    requires
        store.wf(),
    ensures
        r is Ok <==> parse_spec(time@) is Some,
        r matches Ok(v) ==> v@ == at_or_before(store.rows@, parse_spec(time@).unwrap()),
{
    let t = match parse_datetime_string(time) {
        Ok(t) => t,
        Err(e) => {
            return Err(e);
        },
    };
    Ok(store.get_before_or_at_time(&t))
}

/// Removes the record with the given identifier; true iff exactly one row
/// was removed.
pub fn delete_by_id(store: &mut MetricStore, id: i32) -> (r: bool)
    requires
        old(store).wf(),
    ensures
        final(store).wf(),
        final(store).next_id == old(store).next_id,
        r == (find_by_id(old(store).rows@, id) is Some),
        !r ==> *final(store) == *old(store),
        r ==> exists|i: int|
            0 <= i < old(store).rows@.len() && (#[trigger] old(store).rows@[i]).id == id
                && final(store).rows@ == old(store).rows@.remove(i),
{
    store.delete_by_id(id)
}

/// Atomically removes every record at or before the given RFC 3339
/// instant and returns the removed records' instants, rendered, in
/// ascending time order. A malformed time string is a client error and
/// changes nothing.
pub fn delete_before_time(store: &mut MetricStore, time: &str) -> (r: Result<
    Vec<String>,
    TimeFormatError,
>)
    requires
        old(store).wf(),
    ensures
        final(store).wf(),
        r is Ok <==> parse_spec(time@) is Some,
        r is Err ==> *final(store) == *old(store),
        r matches Ok(ts) ==> {
            let t = parse_spec(time@).unwrap();
            &&& final(store).rows@ == strictly_after(old(store).rows@, t)
            &&& final(store).next_id == old(store).next_id
            &&& ts@.len() == at_or_before(old(store).rows@, t).len()
            &&& forall|i: int|
                0 <= i < ts@.len() ==> (#[trigger] ts@[i])@ == render_spec(
                    at_or_before(old(store).rows@, t)[i].recorded_at,
                )
        },
{
    let t = match parse_datetime_string(time) {
        Ok(t) => t,
        Err(e) => {
            return Err(e);
        },
    };
    let ghost old_rows = store.rows@;
    let removed = store.delete_before_or_at_time(&t);
    proof {
        let k = lemma_sorted_has_split(old_rows, t);
        lemma_split_at_cutoff(old_rows, t, k);
        assert forall|j: int| 0 <= j < removed@.len() implies (
        #[trigger] removed@[j]).recorded_at.wf() by {
            assert(removed@[j] == old_rows[j]);
        }
    }
    let mut ts: Vec<String> = Vec::new();
    let mut i: usize = 0;
    while i < removed.len()
        invariant
            i <= removed@.len(),
            ts@.len() == i,
            forall|j: int| 0 <= j < removed@.len() ==> (#[trigger] removed@[j]).recorded_at.wf(),
            forall|j: int|
                0 <= j < i ==> (#[trigger] ts@[j])@ == render_spec(removed@[j].recorded_at),
        decreases removed@.len() - i,
    {
        let s = get_datetime_string(&removed[i].recorded_at);
        ts.push(s);
        i += 1;
    }
    Ok(ts)
}

/// The series of one metric: every reading of that metric, sorted by
/// recording instant in the requested order; with an `after` cursor, only
/// readings recorded strictly after it. Ascending output is non-decreasing
/// and descending output non-increasing in time; a malformed cursor is a
/// client error.
pub fn read_series(store: &MetricStore, m: MetricName, order: SortOrder, after: Option<&str>) -> (r:
    Result<Vec<DataEntry<MetricValue>>, TimeFormatError>)
    requires
        store.wf(),
    ensures
        match after {
            None => r is Ok,
            Some(s) => r is Ok <==> parse_spec(s@) is Some,
        },
        r matches Ok(es) ==> match after {
            None => es@ == metric_series_ord(store.rows@, m, order),
            Some(s) => es@ == metric_series_ord(
                strictly_after(store.rows@, parse_spec(s@).unwrap()),
                m,
                order,
            ),
        },
        r matches Ok(es) ==> (order == SortOrder::Ascending ==> forall|i: int, j: int|
            0 <= i <= j < es@.len() ==> instant_le(
                (#[trigger] es@[i]).time,
                (#[trigger] es@[j]).time,
            )),
        r matches Ok(es) ==> (order == SortOrder::Descending ==> forall|i: int, j: int|
            0 <= i <= j < es@.len() ==> instant_le(
                (#[trigger] es@[j]).time,
                (#[trigger] es@[i]).time,
            )),
        r matches Ok(es) ==> (after matches Some(s) ==> forall|i: int|
            0 <= i < es@.len() ==> instant_lt(parse_spec(s@).unwrap(), (#[trigger] es@[i]).time)),
{
    let es = match after {
        Some(s) => {
            let t = match parse_datetime_string(s) {
                Ok(t) => t,
                Err(e) => {
                    return Err(e);
                },
            };
            proof {
                lemma_series_after_cursor(store.rows@, m, t);
                lemma_series_sorted(strictly_after(store.rows@, t), m);
            }
            store.get_all_non_null_after(m, &t, order)
        },
        None => {
            proof {
                lemma_series_sorted(store.rows@, m);
            }
            store.get_all_non_null(m, order)
        },
    };
    Ok(es)
}

/// A bundle of per-metric series over the whole table, each sorted in the
/// requested order. A metric that was not requested is absent from the
/// bundle — it never appears in the wire form — while a requested metric
/// with no readings is present as an empty series.
pub fn read_bundle(store: &MetricStore, sel: &MetricSelection, order: SortOrder) -> (r:
    TimeseriesData)
    requires
        store.wf(),
    ensures
        (r.temperature is Some) == sel.temperature,
        (r.humidity is Some) == sel.humidity,
        (r.light is Some) == sel.light,
        (r.soil_moisture is Some) == sel.soil_moisture,
        sel.temperature ==> r.temperature.unwrap()@ == metric_series_ord(
            store.rows@,
            MetricName::Temperature,
            order,
        ),
        sel.humidity ==> r.humidity.unwrap()@ == metric_series_ord(
            store.rows@,
            MetricName::Humidity,
            order,
        ),
        sel.light ==> r.light.unwrap()@ == metric_series_ord(
            store.rows@,
            MetricName::Light,
            order,
        ),
        sel.soil_moisture ==> r.soil_moisture.unwrap()@ == metric_series_ord(
            store.rows@,
            MetricName::SoilMoisture,
            order,
        ),
{
    let temperature = if sel.temperature {
        Some(bundle_series(store, MetricName::Temperature, order))
    } else {
        None
    };
    let humidity = if sel.humidity {
        Some(bundle_series(store, MetricName::Humidity, order))
    } else {
        None
    };
    let light = if sel.light {
        Some(bundle_series(store, MetricName::Light, order))
    } else {
        None
    };
    let soil_moisture = if sel.soil_moisture {
        Some(bundle_series(store, MetricName::SoilMoisture, order))
    } else {
        None
    };
    TimeseriesData { temperature, humidity, light, soil_moisture }
}

/// One metric's contribution to a bundle: the raw nullable selection,
/// shaped by dropping absent values, then ordered as requested.
fn bundle_series(store: &MetricStore, m: MetricName, order: SortOrder) -> (r: Vec<
    DataEntry<MetricValue>,
>)
    ensures
        r@ == metric_series_ord(store.rows@, m, order),
{
    let rows = store.get_metric_rows(m);
    let shaped = shape_one(&rows);
    match order {
        SortOrder::Ascending => shaped,
        SortOrder::Descending => reverse_vec(&shaped),
    }
}

} // verus!
