//! The reduction itself: from a snapshot, a sort key and a filter to the rows
//! on display.

use vstd::prelude::*;
use crate::coalesce::{
    absorb,
    absorb_row,
    bears,
    distinct_names,
    lemma_absorb_keeps_names,
    lemma_absorb_rows,
};
use crate::ranking::{
    is_ranked,
    lemma_slot_bounds,
    lemma_sorted_is_permutation,
    lemma_sorted_is_ranked,
    place,
    slot,
    sort_processes,
    sorted_by,
};
use crate::record::{ProcessInfo, ProcessInfoView, RawProcessRecord, RawProcessRecordView, SortKey};
use crate::snapshot::{Snapshot, SnapshotView};
use crate::text::{fold, lowercase, name_matches, occurs};
use crate::usage::{cpu_share, cpu_usage, memory_share, memory_usage};

verus! {

/// Whether a record can be shown at all: the placeholder with pid 0 and a
/// process whose name could not be decoded never are.
pub open spec fn admitted(record: RawProcessRecordView) -> bool {
    record.pid != 0 && record.name is Some
}

/// Whether a record is shown under `filter`.
pub open spec fn listed(record: RawProcessRecordView, filter: Seq<char>) -> bool {
    admitted(record) && name_matches(record.name->0, filter)
}

/// The row that an admitted record gives.
pub open spec fn row_of_record(
    record: RawProcessRecordView,
    total_memory_bytes: u64,
    logical_cpu_count: u32,
) -> ProcessInfoView
    recommends
        admitted(record),
{
    ProcessInfoView {
        pid: record.pid,
        name: record.name->0,
        cpu_usage: cpu_share(record.cpu_usage_raw, logical_cpu_count),
        memory_usage: Some(memory_share(record.memory_bytes, total_memory_bytes)),
    }
}

/// The records that are shown under `filter`, in their order.
pub open spec fn passing(records: Seq<RawProcessRecordView>, filter: Seq<char>) -> Seq<
    RawProcessRecordView,
> {
    records.filter(|record: RawProcessRecordView| listed(record, filter))
}

/// One row per name: the records are taken in one after the other.
pub open spec fn coalesced(
    records: Seq<RawProcessRecordView>,
    total_memory_bytes: u64,
    logical_cpu_count: u32,
) -> Seq<ProcessInfoView>
    decreases records.len(),
{
    if records.len() == 0 {
        Seq::empty()
    } else {
        absorb(
            coalesced(records.drop_last(), total_memory_bytes, logical_cpu_count),
            row_of_record(records.last(), total_memory_bytes, logical_cpu_count),
            records.last().parent,
        )
    }
}

/// The rows on display: the records that pass the filter, by ascending pid,
/// collapsed to one row per name and put in order by the chosen figure.
pub open spec fn reduced(snapshot: SnapshotView, key: SortKey, filter: Seq<char>) -> Seq<
    ProcessInfoView,
> {
    sorted_by(
        coalesced(
            passing(snapshot.records, filter),
            snapshot.total_memory_bytes,
            snapshot.logical_cpu_count,
        ),
        key,
    )
}

/// Whether `row` is the row of one of the records that are shown under
/// `filter`.
pub open spec fn shows_listed_record(
    row: ProcessInfoView,
    snapshot: SnapshotView,
    filter: Seq<char>,
) -> bool {
    exists|k: int|
        0 <= k < snapshot.records.len() && listed(#[trigger] snapshot.records[k], filter) && row
            == row_of_record(
            snapshot.records[k],
            snapshot.total_memory_bytes,
            snapshot.logical_cpu_count,
        )
}

/// Whether `row` is the row of one of `records`.
pub open spec fn is_row_of_one(
    row: ProcessInfoView,
    records: Seq<RawProcessRecordView>,
    total_memory_bytes: u64,
    logical_cpu_count: u32,
) -> bool {
    exists|k: int|
        0 <= k < records.len() && row == row_of_record(
            #[trigger] records[k],
            total_memory_bytes,
            logical_cpu_count,
        )
}

/// Coalescing gives rows of distinct names, each the row of one of the
/// records, one for every name among the records, and so no more rows than
/// records.
pub proof fn lemma_coalesced(
    records: Seq<RawProcessRecordView>,
    total_memory_bytes: u64,
    logical_cpu_count: u32,
)
    ensures
        distinct_names(coalesced(records, total_memory_bytes, logical_cpu_count)),
        forall|i: int|
            0 <= i < coalesced(records, total_memory_bytes, logical_cpu_count).len()
                ==> is_row_of_one(
                #[trigger] coalesced(records, total_memory_bytes, logical_cpu_count)[i],
                records,
                total_memory_bytes,
                logical_cpu_count,
            ),
        forall|k: int|
            0 <= k < records.len() ==> bears(
                coalesced(records, total_memory_bytes, logical_cpu_count),
                (#[trigger] records[k]).name->0,
            ),
        coalesced(records, total_memory_bytes, logical_cpu_count).len() <= records.len(),
    decreases records.len(),
{
    if records.len() != 0 {
        let front = records.drop_last();
        let before = coalesced(front, total_memory_bytes, logical_cpu_count);
        let row = row_of_record(records.last(), total_memory_bytes, logical_cpu_count);
        let after = coalesced(records, total_memory_bytes, logical_cpu_count);
        lemma_coalesced(front, total_memory_bytes, logical_cpu_count);
        lemma_absorb_keeps_names(before, row, records.last().parent);
        lemma_absorb_rows(before, row, records.last().parent);
        assert forall|i: int| 0 <= i < after.len() implies is_row_of_one(
            #[trigger] after[i],
            records,
            total_memory_bytes,
            logical_cpu_count,
        ) by {
            if after[i] == row {
                assert(records[records.len() - 1] == records.last());
            } else {
                assert(before.contains(after[i]));
                let j = choose|j: int| 0 <= j < before.len() && before[j] == after[i];
                assert(is_row_of_one(before[j], front, total_memory_bytes, logical_cpu_count));
                let k = choose|k: int|
                    0 <= k < front.len() && before[j] == row_of_record(
                        #[trigger] front[k],
                        total_memory_bytes,
                        logical_cpu_count,
                    );
                assert(front[k] == records[k]);
            }
        }
        assert forall|k: int| 0 <= k < records.len() implies bears(
            after,
            (#[trigger] records[k]).name->0,
        ) by {
            if k < front.len() {
                assert(front[k] == records[k]);
                assert(bears(before, front[k].name->0));
            }
        }
    }
}

/// The records that pass are records of the snapshot that are listed.
pub proof fn lemma_passing(records: Seq<RawProcessRecordView>, filter: Seq<char>)
    ensures
        forall|i: int|
            0 <= i < passing(records, filter).len() ==> listed(
                #[trigger] passing(records, filter)[i],
                filter,
            ) && records.contains(passing(records, filter)[i]),
        forall|k: int|
            0 <= k < records.len() && listed(#[trigger] records[k], filter) ==> passing(
                records,
                filter,
            ).contains(records[k]),
        passing(records, filter).len() <= records.len(),
{
    let shown = |record: RawProcessRecordView| listed(record, filter);
    let kept = passing(records, filter);
    records.lemma_filter_len(shown);
    assert forall|i: int| 0 <= i < kept.len() implies listed(#[trigger] kept[i], filter)
        && records.contains(kept[i]) by {
        records.lemma_filter_pred(shown, i);
        assert(kept.contains(kept[i]));
        records.lemma_filter_contains_rev(shown, kept[i]);
    }
    assert forall|k: int| 0 <= k < records.len() && listed(#[trigger] records[k], filter) implies kept.contains(
        records[k],
    ) by {
        records.lemma_filter_contains(shown, k);
    }
}

/// Ordering rows of distinct names leaves the names distinct.
pub proof fn lemma_sorted_keeps_distinct_names(rows: Seq<ProcessInfoView>, key: SortKey)
    requires
        distinct_names(rows),
    ensures
        distinct_names(sorted_by(rows, key)),
    decreases rows.len(),
{
    broadcast use vstd::seq_lib::group_to_multiset_ensures;

    if rows.len() != 0 {
        let front = rows.drop_last();
        let ordered = sorted_by(front, key);
        assert(distinct_names(front)) by {
            assert forall|i: int, j: int| 0 <= i < j < front.len() implies (#[trigger] front[i]).name
                != (#[trigger] front[j]).name by {
                assert(front[i] == rows[i] && front[j] == rows[j]);
            }
        }
        lemma_sorted_keeps_distinct_names(front, key);
        lemma_sorted_is_permutation(front, key);
        lemma_slot_bounds(ordered, rows.last(), key);
        let at = slot(ordered, rows.last(), key);
        let after = place(ordered, rows.last(), key);
        assert forall|i: int| 0 <= i < ordered.len() implies (#[trigger] ordered[i]).name
            != rows.last().name by {
            assert(ordered.contains(ordered[i]));
            assert(ordered.to_multiset().count(ordered[i]) > 0);
            assert(front.contains(ordered[i]));
            let k = choose|k: int| 0 <= k < front.len() && front[k] == ordered[i];
            assert(front[k] == rows[k]);
            assert(rows[k].name != rows[rows.len() - 1].name);
        }
        assert forall|i: int, j: int| 0 <= i < j < after.len() implies (#[trigger] after[i]).name
            != (#[trigger] after[j]).name by {
            let from_i = if i < at { i } else { i - 1 };
            let from_j = if j < at { j } else { j - 1 };
            if i != at {
                assert(after[i] == ordered[from_i]);
            }
            if j != at {
                assert(after[j] == ordered[from_j]);
            }
        }
    }
}

/// What holds of every reduction: no row is that of pid 0; every row is the
/// row of a record of the snapshot that passes the filter, so its name
/// matches the filter; every name among the records that pass is borne by a
/// row, and no two rows bear the same name; and the rows stand in order, the
/// larger figure first and the figures that are not numbers last.
pub proof fn lemma_reduced(snapshot: SnapshotView, key: SortKey, filter: Seq<char>)
    ensures
        forall|i: int|
            0 <= i < reduced(snapshot, key, filter).len() ==> {
                &&& (#[trigger] reduced(snapshot, key, filter)[i]).pid != 0
                &&& name_matches(reduced(snapshot, key, filter)[i].name, filter)
                &&& shows_listed_record(reduced(snapshot, key, filter)[i], snapshot, filter)
            },
        forall|k: int|
            0 <= k < snapshot.records.len() && listed(#[trigger] snapshot.records[k], filter)
                ==> bears(reduced(snapshot, key, filter), snapshot.records[k].name->0),
        distinct_names(reduced(snapshot, key, filter)),
        is_ranked(reduced(snapshot, key, filter), key),
        reduced(snapshot, key, filter).len() <= snapshot.records.len(),
{
    broadcast use vstd::seq_lib::group_to_multiset_ensures;

    let total = snapshot.total_memory_bytes;
    let cpus = snapshot.logical_cpu_count;
    let kept = passing(snapshot.records, filter);
    let rows = coalesced(kept, total, cpus);
    let out = reduced(snapshot, key, filter);
    lemma_passing(snapshot.records, filter);
    lemma_coalesced(kept, total, cpus);
    lemma_sorted_is_ranked(rows, key);
    lemma_sorted_is_permutation(rows, key);
    lemma_sorted_keeps_distinct_names(rows, key);
    assert forall|i: int| 0 <= i < out.len() implies {
        &&& (#[trigger] out[i]).pid != 0
        &&& name_matches(out[i].name, filter)
        &&& shows_listed_record(out[i], snapshot, filter)
    } by {
        assert(out.contains(out[i]));
        assert(out.to_multiset().count(out[i]) > 0);
        assert(rows.contains(out[i]));
        let j = choose|j: int| 0 <= j < rows.len() && rows[j] == out[i];
        assert(is_row_of_one(rows[j], kept, total, cpus));
        let k = choose|k: int|
            0 <= k < kept.len() && rows[j] == row_of_record(#[trigger] kept[k], total, cpus);
        assert(listed(kept[k], filter));
        assert(snapshot.records.contains(kept[k]));
        let m = choose|m: int| 0 <= m < snapshot.records.len() && snapshot.records[m] == kept[k];
        assert(listed(snapshot.records[m], filter));
    }
    assert forall|k: int|
        0 <= k < snapshot.records.len() && listed(
            #[trigger] snapshot.records[k],
            filter,
        ) implies bears(out, snapshot.records[k].name->0) by {
        let name = snapshot.records[k].name->0;
        assert(kept.contains(snapshot.records[k]));
        let m = choose|m: int| 0 <= m < kept.len() && kept[m] == snapshot.records[k];
        assert(bears(rows, kept[m].name->0));
        let j = choose|j: int| 0 <= j < rows.len() && (#[trigger] rows[j]).name == name;
        assert(rows.contains(rows[j]));
        assert(rows.to_multiset().count(rows[j]) > 0);
        assert(out.contains(rows[j]));
        let i = choose|i: int| 0 <= i < out.len() && out[i] == rows[j];
        assert(out[i].name == name);
    }
}

/// The empty filter is no filter: the rows are those of all the records that
/// can be shown at all, and as many.
pub proof fn lemma_empty_filter_shows_all(snapshot: SnapshotView, key: SortKey, filter: Seq<char>)
    requires
        filter.len() == 0,
    ensures
        passing(snapshot.records, filter) == snapshot.records.filter(
            |record: RawProcessRecordView| admitted(record),
        ),
        reduced(snapshot, key, filter) == sorted_by(
            coalesced(
                snapshot.records.filter(|record: RawProcessRecordView| admitted(record)),
                snapshot.total_memory_bytes,
                snapshot.logical_cpu_count,
            ),
            key,
        ),
        reduced(snapshot, key, filter).len() == coalesced(
            snapshot.records.filter(|record: RawProcessRecordView| admitted(record)),
            snapshot.total_memory_bytes,
            snapshot.logical_cpu_count,
        ).len(),
{
    let shown = |record: RawProcessRecordView| listed(record, filter);
    let all = |record: RawProcessRecordView| admitted(record);
    assert(shown =~= all) by {
        assert forall|record: RawProcessRecordView| #[trigger] shown(record) == all(record) by {}
    }
    lemma_sorted_is_ranked(
        coalesced(
            snapshot.records.filter(all),
            snapshot.total_memory_bytes,
            snapshot.logical_cpu_count,
        ),
        key,
    );
}

/// A snapshot that has not changed reduces to the same rows however often it
/// is reduced with the same key and filter.
pub proof fn lemma_reduce_is_repeatable(
    snapshot: SnapshotView,
    key: SortKey,
    filter: Seq<char>,
    first: Seq<ProcessInfoView>,
    second: Seq<ProcessInfoView>,
)
    requires
        first == reduced(snapshot, key, filter),
        second == reduced(snapshot, key, filter),
    ensures
        first == second,
{
}

/// The row of a record, or `None` for a record that is never shown.
pub fn row_of(record: &RawProcessRecord, total_memory_bytes: u64, logical_cpu_count: u32) -> (row:
    Option<ProcessInfo>)
    ensures
        row is Some <==> admitted(record@),
        row is Some ==> row->0@ == row_of_record(record@, total_memory_bytes, logical_cpu_count),
{
    if record.pid == 0 {
        return None;
    }
    match &record.name {
        None => None,
        Some(name) => Some(
            ProcessInfo {
                pid: record.pid,
                name: name.clone(),
                cpu_usage: cpu_usage(record.cpu_usage_raw, logical_cpu_count),
                memory_usage: Some(memory_usage(record.memory_bytes, total_memory_bytes)),
            },
        ),
    }
}

/// Reduces a snapshot to the rows on display: see [`reduced`]. The snapshot is
/// taken as it is; whoever wants the rows of this moment hands in a snapshot
/// of this moment.
pub fn reduce(snapshot: &Snapshot, key: SortKey, filter: &str) -> (rows: Vec<ProcessInfo>)
    ensures
        rows.deep_view() == reduced(snapshot@, key, filter@),
        forall|i: int|
            0 <= i < rows.len() ==> {
                &&& (#[trigger] rows.deep_view()[i]).pid != 0
                &&& name_matches(rows.deep_view()[i].name, filter@)
                &&& shows_listed_record(rows.deep_view()[i], snapshot@, filter@)
            },
        forall|k: int|
            0 <= k < snapshot@.records.len() && listed(#[trigger] snapshot@.records[k], filter@)
                ==> bears(rows.deep_view(), snapshot@.records[k].name->0),
        distinct_names(rows.deep_view()),
        is_ranked(rows.deep_view(), key),
        rows.len() <= snapshot@.records.len(),
{
    let records = snapshot.records();
    let total: u64 = snapshot.total_memory_bytes();
    let cpus: u32 = snapshot.logical_cpu_count();
    let pass_all: bool = filter.is_empty();
    let folded_filter = fold(filter);
    let ghost given = records.deep_view();
    let mut rows: Vec<ProcessInfo> = Vec::new();
    let mut at: usize = 0;
    assert(rows.deep_view() =~= Seq::empty());
    assert(given.take(0) =~= Seq::empty());
    assert(passing(Seq::empty(), filter@) =~= Seq::empty()) by {
        Seq::<RawProcessRecordView>::empty().lemma_filter_len(
            |record: RawProcessRecordView| listed(record, filter@),
        );
    }
    while at < records.len()
        invariant
            at <= records.len(),
            given == records.deep_view(),
            pass_all == (filter@.len() == 0),
            folded_filter@ == lowercase(filter@),
            rows.deep_view() == coalesced(passing(given.take(at as int), filter@), total, cpus),
        decreases records.len() - at,
    {
        let record = &records[at];
        let ghost seen = given.take(at as int);
        proof {
            assert(given.take(at + 1) =~= seen.push(record@));
            seen.lemma_filter_push(
                record@,
                |record: RawProcessRecordView| listed(record, filter@),
            );
        }
        match row_of(record, total, cpus) {
            Some(row) => {
                if pass_all || occurs(&folded_filter, &fold(row.name.as_str())) {
                    absorb_row(&mut rows, row, record.parent);
                    proof {
                        let kept = passing(seen, filter@).push(record@);
                        assert(kept.drop_last() =~= passing(seen, filter@));
                        assert(kept.last() == record@);
                    }
                }
            },
            None => {},
        }
        at = at + 1;
    }
    assert(given.take(at as int) =~= given);
    sort_processes(&mut rows, key);
    proof {
        lemma_reduced(snapshot@, key, filter@);
    }
    rows
}

/// The rows on display for a sort label and a filter: `"CPU"` orders by the
/// CPU figure, every other label by the memory figure.
pub fn get_processes(snapshot: &Snapshot, sort: String, filter: String) -> (rows: Vec<ProcessInfo>)
    ensures
        rows.deep_view() == reduced(snapshot@, SortKey::of_label(sort@), filter@),
{
    let key = SortKey::from_label(&sort);
    reduce(snapshot, key, filter.as_str())
}

} // verus!
