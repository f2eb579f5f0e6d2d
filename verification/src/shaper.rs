//! The series shaper: turns raw per-metric nullable rows into a clean
//! series, dropping every row whose value is absent and keeping the input
//! order, and renders series entries for the wire.

use vstd::prelude::*;

use crate::codec::{get_datetime_string, render_spec};
use crate::instant::{instant_le, instant_lt, Instant};
use crate::models::{DataEntry, SerializedDataEntry};

verus! {

/// What shaping yields: the entries of the rows whose value is present, in
/// the rows' own order.
pub open spec fn shape_spec<T>(rows: Seq<(Instant, Option<T>)>) -> Seq<DataEntry<T>>
    decreases rows.len(),
{
    if rows.len() == 0 {
        Seq::empty()
    } else {
        let rest = shape_spec(rows.drop_last());
        match rows.last().1 {
            Some(v) => rest.push(DataEntry { time: rows.last().0, data: v }),
            None => rest,
        }
    }
}

/// Drops every row whose value is absent; the surviving entries keep the
/// input order. Callers control ascending or descending at query time, not
/// here.
pub fn shape_one<T: Copy>(rows: &Vec<(Instant, Option<T>)>) -> (r: Vec<DataEntry<T>>)
    ensures
        r@ == shape_spec(rows@),
{
    let mut out: Vec<DataEntry<T>> = Vec::new();
    let mut i: usize = 0;
    while i < rows.len()
        invariant
            i <= rows.len(),
            out@ == shape_spec(rows@.take(i as int)),
        decreases rows.len() - i,
    {
        let (time, value) = rows[i];
        match value {
            Some(v) => out.push(DataEntry { time, data: v }),
            None => (),
        }
        proof {
            assert(rows@.take(i + 1 as int).drop_last() =~= rows@.take(i as int));
            assert(rows@.take(i + 1 as int).last() == rows@[i as int]);
        }
        i += 1;
    }
    proof {
        assert(rows@.take(rows@.len() as int) =~= rows@);
    }
    out
}

/// Null-filtering law: shaping never emits an entry for a row whose value
/// is absent — every emitted entry is some input row's instant paired with
/// that row's present value.
pub proof fn lemma_shape_one_only_present<T>(rows: Seq<(Instant, Option<T>)>, e: DataEntry<T>)
    requires
        shape_spec(rows).contains(e),
    ensures
        exists|i: int| 0 <= i < rows.len() && rows[i] == (e.time, Some(e.data)),
    decreases rows.len(),
{
    if rows.len() == 0 {
    } else {
        let rest = shape_spec(rows.drop_last());
        match rows.last().1 {
            Some(v) => {
                let entry = DataEntry { time: rows.last().0, data: v };
                if e == entry {
                    assert(rows[rows.len() - 1] == (e.time, Some(e.data)));
                } else {
                    let k = choose|k: int|
                        0 <= k < rest.push(entry).len() && rest.push(entry)[k] == e;
                    assert(rest[k] == e);
                    lemma_shape_one_only_present(rows.drop_last(), e);
                    let i = choose|i: int|
                        0 <= i < rows.drop_last().len() && rows.drop_last()[i] == (
                        e.time,
                        Some(e.data),
                        );
                    assert(rows[i] == (e.time, Some(e.data)));
                }
            },
            None => {
                lemma_shape_one_only_present(rows.drop_last(), e);
                let i = choose|i: int|
                    0 <= i < rows.drop_last().len() && rows.drop_last()[i] == (e.time, Some(e.data));
                assert(rows[i] == (e.time, Some(e.data)));
            },
        }
    }
}

/// Rows non-decreasing in their instant.
pub open spec fn pairs_time_sorted<T>(rows: Seq<(Instant, Option<T>)>) -> bool {
    forall|i: int, j: int|
        0 <= i <= j < rows.len() ==> instant_le(#[trigger] rows[i].0, #[trigger] rows[j].0)
}

/// Entries non-decreasing in their instant.
pub open spec fn entries_time_sorted<T>(es: Seq<DataEntry<T>>) -> bool {
    forall|i: int, j: int|
        0 <= i <= j < es.len() ==> instant_le(#[trigger] es[i].time, #[trigger] es[j].time)
}

/// Shaping keeps the rows' time order.
pub proof fn lemma_shape_one_sorted<T>(rows: Seq<(Instant, Option<T>)>)
    requires
        pairs_time_sorted(rows),
    ensures
        entries_time_sorted(shape_spec(rows)),
    decreases rows.len(),
{
    if rows.len() == 0 {
    } else {
        let dl = rows.drop_last();
        assert(pairs_time_sorted(dl)) by {
            assert forall|i: int, j: int| 0 <= i <= j < dl.len() implies instant_le(
                #[trigger] dl[i].0,
                #[trigger] dl[j].0,
            ) by {
                assert(dl[i] == rows[i]);
                assert(dl[j] == rows[j]);
            }
        }
        lemma_shape_one_sorted(dl);
        let rest = shape_spec(dl);
        match rows.last().1 {
            Some(v) => {
                let entry = DataEntry { time: rows.last().0, data: v };
                let es = rest.push(entry);
                assert forall|i: int, j: int| 0 <= i <= j < es.len() implies instant_le(
                    #[trigger] es[i].time,
                    #[trigger] es[j].time,
                ) by {
                    if j < es.len() - 1 {
                        assert(instant_le(rest[i].time, rest[j].time));
                    } else if i < es.len() - 1 {
                        lemma_shape_one_only_present(dl, rest[i]);
                        let k = choose|k: int|
                            0 <= k < dl.len() && dl[k] == (rest[i].time, Some(rest[i].data));
                        assert(dl[k] == rows[k]);
                        assert(instant_le(rows[k].0, rows[rows.len() - 1].0));
                    }
                }
            },
            None => (),
        }
    }
}

/// Every shaped entry's instant satisfies what every row's instant does:
/// in particular, a strict after-cursor filter on the rows carries over to
/// the entries.
pub proof fn lemma_shape_one_after<T>(rows: Seq<(Instant, Option<T>)>, cut: Instant)
    requires
        forall|i: int| 0 <= i < rows.len() ==> instant_lt(cut, #[trigger] rows[i].0),
    ensures
        forall|k: int|
            0 <= k < shape_spec(rows).len() ==> instant_lt(cut, #[trigger] shape_spec(rows)[k].time),
{
    let es = shape_spec(rows);
    assert forall|k: int| 0 <= k < es.len() implies instant_lt(cut, #[trigger] es[k].time) by {
        assert(es.contains(es[k]));
        lemma_shape_one_only_present(rows, es[k]);
        let i = choose|i: int| 0 <= i < rows.len() && rows[i] == (es[k].time, Some(es[k].data));
        assert(instant_lt(cut, rows[i].0));
    }
}

/// A copy of the vector with its elements in reverse order.
pub(crate) fn reverse_vec<T: Copy>(v: &Vec<T>) -> (r: Vec<T>)
    ensures
        r@ == v@.reverse(),
{
    let mut out: Vec<T> = Vec::new();
    let mut j: usize = v.len();
    while j > 0
        invariant
            j <= v@.len(),
            out@.len() == v@.len() - j,
            forall|idx: int| 0 <= idx < out@.len() ==> out@[idx] == v@[v@.len() - 1 - idx],
        decreases j,
    {
        out.push(v[j - 1]);
        j -= 1;
    }
    proof {
        assert(out@ =~= v@.reverse());
    }
    out
}

/// Renders each entry's instant for the wire, keeping value and order.
/// This is the shaping half of series serialization; the wire layer only
/// copies the result out field by field.
pub fn to_serialized_entries<T: Copy>(v: &Vec<DataEntry<T>>) -> (r: Vec<SerializedDataEntry<T>>)
    requires
        forall|i: int| 0 <= i < v@.len() ==> (#[trigger] v@[i]).time.wf(),
    ensures
        r@.len() == v@.len(),
        forall|i: int|
            0 <= i < v@.len() ==> (#[trigger] r@[i]).time@ == render_spec(v@[i].time) && r@[i].data
                == v@[i].data,
{
    let mut out: Vec<SerializedDataEntry<T>> = Vec::new();
    let mut i: usize = 0;
    while i < v.len()
        invariant
            i <= v.len(),
            out@.len() == i,
            forall|k: int| 0 <= k < v@.len() ==> (#[trigger] v@[k]).time.wf(),
            forall|k: int|
                0 <= k < i ==> (#[trigger] out@[k]).time@ == render_spec(v@[k].time)
                    && out@[k].data == v@[k].data,
        decreases v.len() - i,
    {
        let e = v[i];
        let time = get_datetime_string(&e.time);
        out.push(SerializedDataEntry { time, data: e.data });
        i += 1;
    }
    out
}

} // verus!
