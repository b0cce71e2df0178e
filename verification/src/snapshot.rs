//! A snapshot of the process table: one record per pid, kept by ascending
//! pid, with the machine's memory and CPU count.

use vstd::prelude::*;
use crate::record::{RawProcessRecord, RawProcessRecordView};

verus! {

/// Whether the records stand by strictly ascending pid.
pub open spec fn ascending(records: Seq<RawProcessRecordView>) -> bool {
    forall|i: int, j: int|
        0 <= i < j < records.len() ==> (#[trigger] records[i]).pid < (#[trigger] records[j]).pid
}

/// Whether one of the records is that of `pid`.
pub open spec fn holds(records: Seq<RawProcessRecordView>, pid: u32) -> bool {
    exists|at: int| 0 <= at < records.len() && (#[trigger] records[at]).pid == pid
}

/// The records with `record` put in: it stands between those of a smaller and
/// those of a larger pid, and a record of the same pid is gone.
pub open spec fn with_record(
    records: Seq<RawProcessRecordView>,
    record: RawProcessRecordView,
) -> Seq<RawProcessRecordView> {
    records.filter(|r: RawProcessRecordView| r.pid < record.pid).push(record) + records.filter(
        |r: RawProcessRecordView| r.pid > record.pid,
    )
}

/// A [`Snapshot`] as a mathematical value.
pub struct SnapshotView {
    /// The records, by ascending pid.
    pub records: Seq<RawProcessRecordView>,
    pub total_memory_bytes: u64,
    pub logical_cpu_count: u32,
}

/// The process table at one moment.
#[derive(Debug)]
pub struct Snapshot {
    records: Vec<RawProcessRecord>,
    total_memory_bytes: u64,
    logical_cpu_count: u32,
}

impl View for Snapshot {
    type V = SnapshotView;

    closed spec fn view(&self) -> SnapshotView {
        SnapshotView {
            records: self.records.deep_view(),
            total_memory_bytes: self.total_memory_bytes,
            logical_cpu_count: self.logical_cpu_count,
        }
    }
}

proof fn lemma_filter_keeps_all<A>(s: Seq<A>, pred: spec_fn(A) -> bool)
    requires
        forall|i: int| 0 <= i < s.len() ==> pred(#[trigger] s[i]),
    ensures
        s.filter(pred) == s,
    decreases s.len(),
{
    reveal(Seq::filter);
    if s.len() != 0 {
        lemma_filter_keeps_all(s.drop_last(), pred);
        assert(s.drop_last().push(s.last()) =~= s);
    }
}

proof fn lemma_filter_drops_all<A>(s: Seq<A>, pred: spec_fn(A) -> bool)
    requires
        forall|i: int| 0 <= i < s.len() ==> !pred(#[trigger] s[i]),
    ensures
        s.filter(pred) == Seq::<A>::empty(),
    decreases s.len(),
{
    reveal(Seq::filter);
    if s.len() != 0 {
        lemma_filter_drops_all(s.drop_last(), pred);
    }
}

/// A filter that the first `k` items pass and no other keeps those `k`.
proof fn lemma_filter_is_head<A>(s: Seq<A>, pred: spec_fn(A) -> bool, k: int)
    requires
        0 <= k <= s.len(),
        forall|i: int| 0 <= i < k ==> pred(#[trigger] s[i]),
        forall|i: int| k <= i < s.len() ==> !pred(#[trigger] s[i]),
    ensures
        s.filter(pred) == s.take(k),
{
    let head = s.take(k);
    let tail = s.skip(k);
    assert(s =~= head + tail);
    Seq::filter_distributes_over_add(head, tail, pred);
    assert forall|i: int| 0 <= i < head.len() implies pred(#[trigger] head[i]) by {
        assert(head[i] == s[i]);
    }
    assert forall|i: int| 0 <= i < tail.len() implies !pred(#[trigger] tail[i]) by {
        assert(tail[i] == s[k + i]);
    }
    lemma_filter_keeps_all(head, pred);
    lemma_filter_drops_all(tail, pred);
    assert(head + Seq::<A>::empty() =~= head);
}

/// A filter that all items from the `k`-th on pass and no other keeps those.
proof fn lemma_filter_is_tail<A>(s: Seq<A>, pred: spec_fn(A) -> bool, k: int)
    requires
        0 <= k <= s.len(),
        forall|i: int| 0 <= i < k ==> !pred(#[trigger] s[i]),
        forall|i: int| k <= i < s.len() ==> pred(#[trigger] s[i]),
    ensures
        s.filter(pred) == s.skip(k),
{
    let head = s.take(k);
    let tail = s.skip(k);
    assert(s =~= head + tail);
    Seq::filter_distributes_over_add(head, tail, pred);
    assert forall|i: int| 0 <= i < head.len() implies !pred(#[trigger] head[i]) by {
        assert(head[i] == s[i]);
    }
    assert forall|i: int| 0 <= i < tail.len() implies pred(#[trigger] tail[i]) by {
        assert(tail[i] == s[k + i]);
    }
    lemma_filter_drops_all(head, pred);
    lemma_filter_keeps_all(tail, pred);
    assert(Seq::<A>::empty() + tail =~= tail);
}

/// Among ascending records, those of a larger pid than `pid` are the ones
/// from `from` on, where `from` is the first place behind the pid.
proof fn lemma_above_is_tail(records: Seq<RawProcessRecordView>, pid: u32, at: int, from: int)
    requires
        ascending(records),
        0 <= at <= from <= records.len(),
        forall|i: int| 0 <= i < at ==> (#[trigger] records[i]).pid < pid,
        forall|i: int| at <= i < records.len() ==> (#[trigger] records[i]).pid >= pid,
        from == if at < records.len() && records[at].pid == pid {
            at + 1
        } else {
            at
        },
    ensures
        records.filter(|r: RawProcessRecordView| r.pid > pid) == records.skip(from),
{
    let above = |r: RawProcessRecordView| r.pid > pid;
    assert forall|i: int| from <= i < records.len() implies above(#[trigger] records[i]) by {
        if i > at {
            assert(records[at].pid < records[i].pid);
        }
    }
    assert forall|i: int| 0 <= i < from implies !above(#[trigger] records[i]) by {}
    lemma_filter_is_tail(records, above, from);
}

/// Among ascending records, putting one in at the place where the pids reach
/// its own is what [`with_record`] describes.
proof fn lemma_with_record_at(
    records: Seq<RawProcessRecordView>,
    record: RawProcessRecordView,
    at: int,
)
    requires
        ascending(records),
        0 <= at <= records.len(),
        forall|i: int| 0 <= i < at ==> (#[trigger] records[i]).pid < record.pid,
        forall|i: int| at <= i < records.len() ==> (#[trigger] records[i]).pid >= record.pid,
    ensures
        at < records.len() && records[at].pid == record.pid ==> with_record(records, record)
            == records.update(at, record),
        !(at < records.len() && records[at].pid == record.pid) ==> with_record(records, record)
            == records.insert(at, record),
{
    let below = |r: RawProcessRecordView| r.pid < record.pid;
    lemma_filter_is_head(records, below, at);
    if at < records.len() && records[at].pid == record.pid {
        lemma_above_is_tail(records, record.pid, at, at + 1);
        assert(records.take(at).push(record) + records.skip(at + 1) =~= records.update(
            at,
            record,
        ));
    } else {
        lemma_above_is_tail(records, record.pid, at, at);
        assert(records.take(at).push(record) + records.skip(at) =~= records.insert(at, record));
    }
}

/// The place among ascending records where the pids reach `pid`.
proof fn lemma_place_of_pid(records: Seq<RawProcessRecordView>, pid: u32) -> (at: int)
    requires
        ascending(records),
    ensures
        0 <= at <= records.len(),
        forall|i: int| 0 <= i < at ==> (#[trigger] records[i]).pid < pid,
        forall|i: int| at <= i < records.len() ==> (#[trigger] records[i]).pid >= pid,
    decreases records.len(),
{
    if records.len() == 0 {
        0
    } else if records.last().pid < pid {
        assert forall|i: int| 0 <= i < records.len() implies (#[trigger] records[i]).pid < pid by {
            if i < records.len() - 1 {
                assert(records[i].pid < records[records.len() - 1].pid);
            }
        }
        records.len() as int
    } else {
        let front = records.drop_last();
        assert(ascending(front)) by {
            assert forall|i: int, j: int| 0 <= i < j < front.len() implies (#[trigger] front[i]).pid
                < (#[trigger] front[j]).pid by {
                assert(front[i] == records[i] && front[j] == records[j]);
            }
        }
        let at = lemma_place_of_pid(front, pid);
        assert forall|i: int| 0 <= i < at implies (#[trigger] records[i]).pid < pid by {
            assert(front[i] == records[i]);
        }
        assert forall|i: int| at <= i < records.len() implies (#[trigger] records[i]).pid >= pid by {
            if i < front.len() {
                assert(front[i] == records[i]);
            }
        }
        at
    }
}

/// Putting a record into ascending records leaves them ascending, with the
/// new record as that of its pid and every other pid's record as it was.
pub proof fn lemma_with_record(records: Seq<RawProcessRecordView>, record: RawProcessRecordView)
    requires
        ascending(records),
    ensures
        ascending(with_record(records, record)),
        with_record(records, record).contains(record),
        forall|other: RawProcessRecordView|
            other.pid != record.pid ==> (with_record(records, record).contains(other)
                <==> records.contains(other)),
        forall|other: RawProcessRecordView| #[trigger]
            with_record(records, record).contains(other) && other.pid == record.pid ==> other
                == record,
        with_record(records, record).len() == if holds(records, record.pid) {
            records.len()
        } else {
            records.len() + 1
        },
{
    let at = lemma_place_of_pid(records, record.pid);
    lemma_with_record_at(records, record, at);
    let after = with_record(records, record);
    if at < records.len() && records[at].pid == record.pid {
        assert(after == records.update(at, record));
        assert(after[at] == record);
        assert(holds(records, record.pid));
        assert forall|i: int, j: int| 0 <= i < j < after.len() implies (#[trigger] after[i]).pid < (
        #[trigger] after[j]).pid by {
            assert(records[i].pid < records[j].pid);
        }
        assert forall|other: RawProcessRecordView| other.pid != record.pid implies (after.contains(
            other,
        ) <==> records.contains(other)) by {
            if after.contains(other) {
                let k = choose|k: int| 0 <= k < after.len() && after[k] == other;
                assert(records[k] == other);
            }
            if records.contains(other) {
                let k = choose|k: int| 0 <= k < records.len() && records[k] == other;
                assert(after[k] == other);
            }
        }
        assert forall|other: RawProcessRecordView| #[trigger]
            after.contains(other) && other.pid == record.pid implies other == record by {
            let k = choose|k: int| 0 <= k < after.len() && after[k] == other;
            if k != at {
                assert(after[k] == records[k]);
                if k < at {
                    assert(records[k].pid < records[at].pid);
                } else {
                    assert(records[at].pid < records[k].pid);
                }
            }
        }
    } else {
        assert(after == records.insert(at, record));
        assert(after[at] == record);
        assert(!holds(records, record.pid)) by {
            if holds(records, record.pid) {
                let k = choose|k: int| 0 <= k < records.len() && (#[trigger] records[k]).pid
                    == record.pid;
                if k > at {
                    assert(records[at].pid < records[k].pid);
                }
            }
        }
        assert forall|i: int, j: int| 0 <= i < j < after.len() implies (#[trigger] after[i]).pid < (
        #[trigger] after[j]).pid by {
            let from_i = if i < at { i } else { i - 1 };
            let from_j = if j < at { j } else { j - 1 };
            if i != at {
                assert(after[i] == records[from_i]);
            }
            if j != at {
                assert(after[j] == records[from_j]);
            }
            if i != at && j != at {
                assert(records[from_i].pid < records[from_j].pid);
            }
        }
        assert forall|other: RawProcessRecordView| other.pid != record.pid implies (after.contains(
            other,
        ) <==> records.contains(other)) by {
            if after.contains(other) {
                let k = choose|k: int| 0 <= k < after.len() && after[k] == other;
                let from_k = if k < at { k } else { k - 1 };
                assert(records[from_k] == other);
            }
            if records.contains(other) {
                let k = choose|k: int| 0 <= k < records.len() && records[k] == other;
                let to_k = if k < at { k } else { k + 1 };
                assert(after[to_k] == other);
            }
        }
        assert forall|other: RawProcessRecordView| #[trigger]
            after.contains(other) && other.pid == record.pid implies other == record by {
            let k = choose|k: int| 0 <= k < after.len() && after[k] == other;
            if k != at {
                let from_k = if k < at { k } else { k - 1 };
                assert(after[k] == records[from_k]);
            }
        }
    }
}

/// Ascending records are settled by what they hold: two ascending sequences
/// of the same records are the same sequence.
pub proof fn lemma_ascending_is_canonical(
    a: Seq<RawProcessRecordView>,
    b: Seq<RawProcessRecordView>,
)
    requires
        ascending(a),
        ascending(b),
        forall|record: RawProcessRecordView| a.contains(record) <==> b.contains(record),
    ensures
        a == b,
    decreases a.len(),
{
    if a.len() == 0 {
        if b.len() != 0 {
            assert(b.contains(b[0]));
        }
        assert(a =~= b);
    } else {
        let top = a.last();
        assert(a.contains(top));
        let k = choose|k: int| 0 <= k < b.len() && b[k] == top;
        if k != b.len() - 1 {
            assert(b.contains(b.last()));
            let m = choose|m: int| 0 <= m < a.len() && a[m] == b.last();
            assert(b[k].pid < b[b.len() - 1].pid);
            if m < a.len() - 1 {
                assert(a[m].pid < a[a.len() - 1].pid);
            }
        }
        let a_front = a.drop_last();
        let b_front = b.drop_last();
        assert(ascending(a_front)) by {
            assert forall|i: int, j: int| 0 <= i < j < a_front.len() implies (
            #[trigger] a_front[i]).pid < (#[trigger] a_front[j]).pid by {
                assert(a_front[i] == a[i] && a_front[j] == a[j]);
            }
        }
        assert(ascending(b_front)) by {
            assert forall|i: int, j: int| 0 <= i < j < b_front.len() implies (
            #[trigger] b_front[i]).pid < (#[trigger] b_front[j]).pid by {
                assert(b_front[i] == b[i] && b_front[j] == b[j]);
            }
        }
        assert forall|record: RawProcessRecordView| a_front.contains(record) <==> b_front.contains(
            record,
        ) by {
            if a_front.contains(record) {
                let i = choose|i: int| 0 <= i < a_front.len() && a_front[i] == record;
                assert(a[i] == record);
                assert(a[i].pid < a[a.len() - 1].pid);
                assert(a.contains(record));
                let j = choose|j: int| 0 <= j < b.len() && b[j] == record;
                assert(b_front[j] == record);
            }
            if b_front.contains(record) {
                let j = choose|j: int| 0 <= j < b_front.len() && b_front[j] == record;
                assert(b[j] == record);
                assert(b[j].pid < b[b.len() - 1].pid);
                assert(b.contains(record));
                let i = choose|i: int| 0 <= i < a.len() && a[i] == record;
                assert(a_front[i] == record);
            }
        }
        lemma_ascending_is_canonical(a_front, b_front);
        assert(a =~= a_front.push(top));
        assert(b =~= b_front.push(top));
    }
}

/// The order in which two processes are put in does not matter.
pub proof fn lemma_insertion_order_is_irrelevant(
    records: Seq<RawProcessRecordView>,
    first: RawProcessRecordView,
    second: RawProcessRecordView,
)
    requires
        ascending(records),
        first.pid != second.pid,
    ensures
        with_record(with_record(records, first), second) == with_record(
            with_record(records, second),
            first,
        ),
{
    let one = with_record(records, first);
    let other = with_record(records, second);
    lemma_with_record(records, first);
    lemma_with_record(records, second);
    lemma_with_record(one, second);
    lemma_with_record(other, first);
    let a = with_record(one, second);
    let b = with_record(other, first);
    assert forall|record: RawProcessRecordView| a.contains(record) <==> b.contains(record) by {
        if record.pid == second.pid {
            assert(a.contains(record) ==> record == second);
            assert(other.contains(second));
            assert(b.contains(record) ==> other.contains(record));
            assert(other.contains(record) ==> record == second);
        } else if record.pid == first.pid {
            assert(b.contains(record) ==> record == first);
            assert(one.contains(first));
            assert(a.contains(record) ==> one.contains(record));
            assert(one.contains(record) ==> record == first);
        } else {
            assert(a.contains(record) <==> one.contains(record));
            assert(one.contains(record) <==> records.contains(record));
            assert(b.contains(record) <==> other.contains(record));
            assert(other.contains(record) <==> records.contains(record));
        }
    }
    lemma_ascending_is_canonical(a, b);
}

impl Snapshot {
    #[verifier::type_invariant]
    spec fn well_formed(self) -> bool {
        ascending(self.records.deep_view())
    }

    /// The snapshot of a machine with no process recorded yet.
    pub fn new(total_memory_bytes: u64, logical_cpu_count: u32) -> (snapshot: Snapshot)
        ensures
            snapshot@ == (SnapshotView {
                records: Seq::empty(),
                total_memory_bytes,
                logical_cpu_count,
            }),
    {
        let snapshot = Snapshot { records: Vec::new(), total_memory_bytes, logical_cpu_count };
        assert(snapshot.records.deep_view() =~= Seq::empty());
        snapshot
    }

    /// Puts a process in; a record of the same pid gives way to it.
    pub fn insert(&mut self, record: RawProcessRecord)
        ensures
            final(self)@ == (SnapshotView {
                records: with_record(old(self)@.records, record@),
                ..old(self)@
            }),
            ascending(final(self)@.records),
    {
        proof {
            use_type_invariant(&*self);
        }
        let ghost before = self.records.deep_view();
        let mut records: Vec<RawProcessRecord> = Vec::new();
        assert(records.deep_view() =~= Seq::empty());
        std::mem::swap(&mut records, &mut self.records);
        let mut at: usize = 0;
        while at < records.len() && records[at].pid < record.pid
            invariant
                at <= records.len(),
                records.deep_view() == before,
                forall|i: int| 0 <= i < at ==> (#[trigger] before[i]).pid < record.pid,
            decreases records.len() - at,
        {
            assert(before[at as int].pid == records[at as int].pid);
            at = at + 1;
        }
        proof {
            assert forall|i: int| at <= i < before.len() implies (#[trigger] before[i]).pid
                >= record.pid by {
                assert(before[at as int].pid == records[at as int].pid);
                if i > at {
                    assert(before[at as int].pid < before[i].pid);
                }
            }
            lemma_with_record_at(before, record@, at as int);
            lemma_with_record(before, record@);
        }
        if at < records.len() && records[at].pid == record.pid {
            assert(before[at as int].pid == records[at as int].pid);
            records[at] = record;
            assert(records.deep_view() =~= before.update(at as int, record@));
        } else {
            assert(at < before.len() ==> before[at as int].pid == records[at as int].pid);
            records.insert(at, record);
            assert(records.deep_view() =~= before.insert(at as int, record@));
        }
        self.records = records;
    }

    /// The records, by ascending pid.
    pub fn records(&self) -> (records: &Vec<RawProcessRecord>)
        ensures
            records.deep_view() == self@.records,
            ascending(self@.records),
    {
        proof {
            use_type_invariant(self);
        }
        &self.records
    }

    /// How many processes the snapshot holds.
    pub fn len(&self) -> (count: usize)
        ensures
            count == self@.records.len(),
    {
        self.records.len()
    }

    /// The memory of the machine, in bytes.
    pub fn total_memory_bytes(&self) -> (bytes: u64)
        ensures
            bytes == self@.total_memory_bytes,
    {
        self.total_memory_bytes
    }

    /// The number of logical CPUs of the machine.
    pub fn logical_cpu_count(&self) -> (count: u32)
        ensures
            count == self@.logical_cpu_count,
    {
        self.logical_cpu_count
    }

    /// Whether the snapshot holds a process of this pid.
    pub fn contains(&self, pid: u32) -> (found: bool)
        ensures
            found == holds(self@.records, pid),
    {
        let mut at: usize = 0;
        while at < self.records.len()
            invariant
                at <= self.records.len(),
                forall|i: int| 0 <= i < at ==> (#[trigger] self.records.deep_view()[i]).pid != pid,
            decreases self.records.len() - at,
        {
            if self.records[at].pid == pid {
                assert(self.records.deep_view()[at as int].pid == pid);
                return true;
            }
            assert(self.records.deep_view()[at as int].pid != pid);
            at = at + 1;
        }
        false
    }
}

} // verus!
