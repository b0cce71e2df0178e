//! The order of the rows: the larger figure first, a figure that is not a
//! number last, and rows that tie in the order they came in.

use vstd::prelude::*;
use crate::record::{ProcessInfo, ProcessInfoView, SortKey};

verus! {

/// Whether a row with figure `a` may stand before a row with figure `b`:
/// nothing stands behind an undefined figure but another undefined one.
pub open spec fn precedes(a: Option<u64>, b: Option<u64>) -> bool {
    match (a, b) {
        (_, None) => true,
        (None, Some(_)) => false,
        (Some(x), Some(y)) => x >= y,
    }
}

/// Whether each row of `rows` may stand before all that follow it.
pub open spec fn is_ranked(rows: Seq<ProcessInfoView>, key: SortKey) -> bool {
    forall|i: int, j: int|
        0 <= i < j < rows.len() ==> precedes(
            #[trigger] rows[i].figure(key),
            #[trigger] rows[j].figure(key),
        )
}

/// Where `row` goes in `rows`: behind the last row that may stand before it.
pub open spec fn slot(rows: Seq<ProcessInfoView>, row: ProcessInfoView, key: SortKey) -> int
    decreases rows.len(),
{
    if rows.len() == 0 || precedes(rows.last().figure(key), row.figure(key)) {
        rows.len() as int
    } else {
        slot(rows.drop_last(), row, key)
    }
}

/// `rows` with `row` put in its slot.
pub open spec fn place(rows: Seq<ProcessInfoView>, row: ProcessInfoView, key: SortKey) -> Seq<
    ProcessInfoView,
> {
    rows.insert(slot(rows, row, key), row)
}

/// `rows` in order: each row in turn is placed among those before it.
pub open spec fn sorted_by(rows: Seq<ProcessInfoView>, key: SortKey) -> Seq<ProcessInfoView>
    decreases rows.len(),
{
    if rows.len() == 0 {
        rows
    } else {
        place(sorted_by(rows.drop_last(), key), rows.last(), key)
    }
}

/// The rows of `rows` whose figure is `figure`, in their order.
pub open spec fn band(rows: Seq<ProcessInfoView>, key: SortKey, figure: Option<u64>) -> Seq<
    ProcessInfoView,
> {
    rows.filter(|row: ProcessInfoView| row.figure(key) == figure)
}

/// The slot of a row is the one position with every row behind it strictly
/// smaller and the row just before it, if any, at least as large.
pub proof fn lemma_slot_is_boundary(
    rows: Seq<ProcessInfoView>,
    row: ProcessInfoView,
    key: SortKey,
    at: int,
)
    requires
        0 <= at <= rows.len(),
        at == 0 || precedes(rows[at - 1].figure(key), row.figure(key)),
        forall|k: int| at <= k < rows.len() ==> !precedes(#[trigger] rows[k].figure(key), row.figure(key)),
    ensures
        slot(rows, row, key) == at,
    decreases rows.len(),
{
    if rows.len() != 0 && at < rows.len() {
        assert(!precedes(rows[rows.len() - 1].figure(key), row.figure(key)));
        lemma_slot_is_boundary(rows.drop_last(), row, key, at);
    }
}

/// What holds at the slot of a row.
pub proof fn lemma_slot_bounds(rows: Seq<ProcessInfoView>, row: ProcessInfoView, key: SortKey)
    ensures
        0 <= slot(rows, row, key) <= rows.len(),
        slot(rows, row, key) == 0 || precedes(
            rows[slot(rows, row, key) - 1].figure(key),
            row.figure(key),
        ),
        forall|k: int|
            slot(rows, row, key) <= k < rows.len() ==> !precedes(
                #[trigger] rows[k].figure(key),
                row.figure(key),
            ),
    decreases rows.len(),
{
    if rows.len() == 0 || precedes(rows.last().figure(key), row.figure(key)) {
    } else {
        let front = rows.drop_last();
        lemma_slot_bounds(front, row, key);
        assert forall|k: int| slot(rows, row, key) <= k < rows.len() implies !precedes(
            #[trigger] rows[k].figure(key),
            row.figure(key),
        ) by {
            if k < front.len() {
                assert(rows[k] == front[k]);
            }
        }
    }
}

/// Placing a row keeps the length plus one and the rows ranked.
pub proof fn lemma_place_keeps_ranked(
    rows: Seq<ProcessInfoView>,
    row: ProcessInfoView,
    key: SortKey,
)
    requires
        is_ranked(rows, key),
    ensures
        is_ranked(place(rows, row, key), key),
        place(rows, row, key).len() == rows.len() + 1,
{
    lemma_slot_bounds(rows, row, key);
    let at = slot(rows, row, key);
    let placed = place(rows, row, key);
    assert forall|i: int, j: int| 0 <= i < j < placed.len() implies precedes(
        #[trigger] placed[i].figure(key),
        #[trigger] placed[j].figure(key),
    ) by {
        if j < at {
            assert(placed[i] == rows[i] && placed[j] == rows[j]);
        } else if j == at {
            assert(placed[i] == rows[i]);
            if i < at - 1 {
                assert(precedes(rows[i].figure(key), rows[at - 1].figure(key)));
            }
        } else if i < at {
            assert(placed[i] == rows[i] && placed[j] == rows[j - 1]);
        } else if i == at {
            assert(placed[j] == rows[j - 1]);
            assert(!precedes(rows[j - 1].figure(key), row.figure(key)));
        } else {
            assert(placed[i] == rows[i - 1] && placed[j] == rows[j - 1]);
        }
    }
}

/// The rows come out ranked: no row stands behind a smaller figure, and the
/// rows whose figure is not a number are the last.
pub proof fn lemma_sorted_is_ranked(rows: Seq<ProcessInfoView>, key: SortKey)
    ensures
        is_ranked(sorted_by(rows, key), key),
        sorted_by(rows, key).len() == rows.len(),
    decreases rows.len(),
{
    if rows.len() != 0 {
        lemma_sorted_is_ranked(rows.drop_last(), key);
        lemma_place_keeps_ranked(sorted_by(rows.drop_last(), key), rows.last(), key);
    }
}

/// What the order means for the figures: among rows that are ranked no
/// figure is followed by a larger one, and a figure that is not a number is
/// followed by none that is one.
pub proof fn lemma_ranked_is_descending(rows: Seq<ProcessInfoView>, key: SortKey, i: int, j: int)
    requires
        is_ranked(rows, key),
        0 <= i < j < rows.len(),
    ensures
        rows[j].figure(key) is Some ==> rows[i].figure(key) is Some && rows[i].figure(key)->0
            >= rows[j].figure(key)->0,
        rows[i].figure(key) is None ==> rows[j].figure(key) is None,
{
    assert(precedes(rows[i].figure(key), rows[j].figure(key)));
}

/// Ordering the rows neither drops nor adds nor changes a row.
pub proof fn lemma_sorted_is_permutation(rows: Seq<ProcessInfoView>, key: SortKey)
    ensures
        sorted_by(rows, key).to_multiset() == rows.to_multiset(),
    decreases rows.len(),
{
    broadcast use vstd::seq_lib::group_to_multiset_ensures;

    if rows.len() != 0 {
        let before = sorted_by(rows.drop_last(), key);
        lemma_sorted_is_permutation(rows.drop_last(), key);
        lemma_slot_bounds(before, rows.last(), key);
        assert(rows == rows.drop_last().push(rows.last()));
    } else {
        assert(sorted_by(rows, key) == rows);
    }
}

/// Rows that are ranked already stay as they are.
pub proof fn lemma_sorted_fixes_ranked(rows: Seq<ProcessInfoView>, key: SortKey)
    requires
        is_ranked(rows, key),
    ensures
        sorted_by(rows, key) == rows,
    decreases rows.len(),
{
    if rows.len() != 0 {
        let front = rows.drop_last();
        assert(is_ranked(front, key)) by {
            assert forall|i: int, j: int| 0 <= i < j < front.len() implies precedes(
                #[trigger] front[i].figure(key),
                #[trigger] front[j].figure(key),
            ) by {
                assert(front[i] == rows[i] && front[j] == rows[j]);
            }
        }
        lemma_sorted_fixes_ranked(front, key);
        if front.len() > 0 {
            assert(front[front.len() - 1] == rows[front.len() - 1]);
            assert(precedes(rows[front.len() - 1].figure(key), rows[rows.len() - 1].figure(key)));
        }
        lemma_slot_is_boundary(front, rows.last(), key, front.len() as int);
        assert(front.insert(front.len() as int, rows.last()) =~= rows);
    }
}

/// Ordering twice is ordering once.
pub proof fn lemma_sorted_twice(rows: Seq<ProcessInfoView>, key: SortKey)
    ensures
        sorted_by(sorted_by(rows, key), key) == sorted_by(rows, key),
{
    lemma_sorted_is_ranked(rows, key);
    lemma_sorted_fixes_ranked(sorted_by(rows, key), key);
}

/// Placing a row leaves every band as if the row had been appended: rows
/// with the same figure keep the order in which they came.
pub proof fn lemma_place_keeps_bands(
    rows: Seq<ProcessInfoView>,
    row: ProcessInfoView,
    key: SortKey,
    figure: Option<u64>,
)
    ensures
        band(place(rows, row, key), key, figure) == band(rows.push(row), key, figure),
{
    lemma_slot_bounds(rows, row, key);
    let at = slot(rows, row, key);
    let same = |r: ProcessInfoView| r.figure(key) == figure;
    let head = rows.take(at);
    let tail = rows.skip(at);
    assert(place(rows, row, key) =~= head.push(row) + tail);
    assert(rows =~= head + tail);
    Seq::filter_distributes_over_add(head.push(row), tail, same);
    Seq::filter_distributes_over_add(head, tail, same);
    head.lemma_filter_push(row, same);
    rows.lemma_filter_push(row, same);
    if row.figure(key) == figure {
        assert(tail.all(|r: ProcessInfoView| !same(r))) by {
            assert forall|k: int| 0 <= k < tail.len() implies !same(#[trigger] tail[k]) by {
                assert(tail[k] == rows[at + k]);
                assert(!precedes(rows[at + k].figure(key), row.figure(key)));
            }
        }
        tail.lemma_all_neg_filter_empty(same);
        assert(head.filter(same).push(row) + tail.filter(same) =~= (head.filter(same)
            + tail.filter(same)).push(row));
    }
}

/// Ordering is stable: the rows that share a figure come out in the order
/// in which they went in.
pub proof fn lemma_sorted_is_stable(rows: Seq<ProcessInfoView>, key: SortKey, figure: Option<u64>)
    ensures
        band(sorted_by(rows, key), key, figure) == band(rows, key, figure),
    decreases rows.len(),
{
    if rows.len() != 0 {
        let front = rows.drop_last();
        let same = |r: ProcessInfoView| r.figure(key) == figure;
        lemma_sorted_is_stable(front, key, figure);
        lemma_place_keeps_bands(sorted_by(front, key), rows.last(), key, figure);
        sorted_by(front, key).lemma_filter_push(rows.last(), same);
        front.lemma_filter_push(rows.last(), same);
        assert(rows == front.push(rows.last()));
    }
}

/// Decides [`precedes`].
pub fn may_precede(a: Option<u64>, b: Option<u64>) -> (yes: bool)
    ensures
        yes == precedes(a, b),
{
    match b {
        None => true,
        Some(y) => match a {
            None => false,
            Some(x) => x >= y,
        },
    }
}

/// Puts the rows in order by the figure that `key` selects: the larger figure
/// first, the rows whose figure is not a number last, ties in the order in
/// which they stood.
pub fn sort_processes(rows: &mut Vec<ProcessInfo>, key: SortKey)
    ensures
        final(rows).deep_view() == sorted_by(old(rows).deep_view(), key),
        is_ranked(final(rows).deep_view(), key),
        final(rows).deep_view().to_multiset() == old(rows).deep_view().to_multiset(),
        forall|figure: Option<u64>| #[trigger]
            band(final(rows).deep_view(), key, figure) == band(
                old(rows).deep_view(),
                key,
                figure,
            ),
{
    let ghost given = rows.deep_view();
    let count: usize = rows.len();
    let mut done: usize = 0;
    assert(given.take(0) =~= Seq::<ProcessInfoView>::empty());
    while done < count
        invariant
            done <= count,
            rows.len() == count,
            given.len() == count,
            rows.deep_view().take(done as int) == sorted_by(given.take(done as int), key),
            rows.deep_view().skip(done as int) == given.skip(done as int),
        decreases count - done,
    {
        let ghost before = rows.deep_view();
        let ghost ordered = before.take(done as int);
        let row = rows.remove(done);
        assert(row@ == given[done as int]) by {
            assert(before.skip(done as int)[0] == given.skip(done as int)[0]);
        }
        let mut at: usize = done;
        while at > 0 && !may_precede(rows[at - 1].figure(key), row.figure(key))
            invariant
                at <= done,
                done < count,
                rows.len() == count - 1,
                rows.deep_view() == before.remove(done as int),
                forall|k: int|
                    at <= k < done ==> !precedes(
                        #[trigger] ordered[k].figure(key),
                        row@.figure(key),
                    ),
                ordered == before.take(done as int),
                before.len() == count,
            decreases at,
        {
            assert(ordered[at - 1] == rows.deep_view()[at - 1]);
            at = at - 1;
        }
        proof {
            if at > 0 {
                assert(ordered[at - 1] == rows.deep_view()[at - 1]);
            }
            lemma_slot_is_boundary(ordered, row@, key, at as int);
        }
        rows.insert(at, row);
        proof {
            let after = rows.deep_view();
            assert(after =~= before.remove(done as int).insert(at as int, given[done as int]));
            assert(after.take(done + 1) =~= ordered.insert(at as int, given[done as int]));
            assert(given.take(done + 1).drop_last() =~= given.take(done as int));
            assert(given.take(done + 1).last() == given[done as int]);
            assert(after.skip(done + 1) =~= given.skip(done + 1)) by {
                let rest = after.skip(done + 1);
                assert forall|k: int| 0 <= k < count - done - 1 implies #[trigger] rest[k]
                    == given.skip(done + 1)[k] by {
                    assert(after[done + 1 + k] == before[done + 1 + k]);
                    assert(before.skip(done as int)[k + 1] == given.skip(done as int)[k + 1]);
                }
            }
        }
        done = done + 1;
    }
    proof {
        assert(rows.deep_view().take(count as int) =~= rows.deep_view());
        assert(given.take(count as int) =~= given);
        lemma_sorted_is_ranked(given, key);
        lemma_sorted_is_permutation(given, key);
        assert forall|figure: Option<u64>| #[trigger]
            band(rows.deep_view(), key, figure) == band(given, key, figure) by {
            lemma_sorted_is_stable(given, key, figure);
        }
    }
}

} // verus!
