//! One row per name: the rule by which rows of the same name give way to
//! one another.

use vstd::prelude::*;
use crate::record::{ProcessInfo, ProcessInfoView};

verus! {

/// Whether `at` is the first position of `rows` that bears `name`.
pub open spec fn is_first_bearing(rows: Seq<ProcessInfoView>, name: Seq<char>, at: int) -> bool {
    &&& 0 <= at < rows.len()
    &&& rows[at].name == name
    &&& forall|before: int| 0 <= before < at ==> (#[trigger] rows[before]).name != name
}

/// The position of the row that stands for `name`, if there is one.
pub open spec fn representative(rows: Seq<ProcessInfoView>, name: Seq<char>) -> Option<int> {
    if exists|at: int| is_first_bearing(rows, name, at) {
        Some(choose|at: int| is_first_bearing(rows, name, at))
    } else {
        None
    }
}

/// The rows after a process has been taken in. The first of a name becomes
/// its representative. A later one is dropped where it is a child of the
/// representative or has no parent; where its parent is another process, the
/// representative leaves and the newcomer joins at the end.
pub open spec fn absorb(rows: Seq<ProcessInfoView>, row: ProcessInfoView, parent: Option<u32>) -> Seq<
    ProcessInfoView,
> {
    match representative(rows, row.name) {
        None => rows.push(row),
        Some(at) => if parent is Some && parent->0 != rows[at].pid {
            rows.remove(at).push(row)
        } else {
            rows
        },
    }
}

/// Whether no two rows bear the same name.
pub open spec fn distinct_names(rows: Seq<ProcessInfoView>) -> bool {
    forall|i: int, j: int|
        0 <= i < j < rows.len() ==> (#[trigger] rows[i]).name != (#[trigger] rows[j]).name
}

/// Whether some row bears `name`.
pub open spec fn bears(rows: Seq<ProcessInfoView>, name: Seq<char>) -> bool {
    exists|at: int| 0 <= at < rows.len() && (#[trigger] rows[at]).name == name
}

/// A position is the representative of a name exactly if it is the first to
/// bear it, and a name has a representative exactly if some row bears it.
pub proof fn lemma_representative(rows: Seq<ProcessInfoView>, name: Seq<char>)
    ensures
        representative(rows, name) is Some <==> bears(rows, name),
        forall|at: int|
            is_first_bearing(rows, name, at) <==> representative(rows, name) == Some(at),
{
    if bears(rows, name) {
        let some = choose|at: int| 0 <= at < rows.len() && (#[trigger] rows[at]).name == name;
        lemma_first_bearing_exists(rows, name, some);
    }
    if exists|at: int| is_first_bearing(rows, name, at) {
        let first = choose|at: int| is_first_bearing(rows, name, at);
        assert(rows[first].name == name);
        assert forall|at: int| is_first_bearing(rows, name, at) implies at == first by {
            if at < first {
                assert(rows[at].name != name);
            } else if first < at {
                assert(rows[first].name != name);
            }
        }
    }
}

proof fn lemma_first_bearing_exists(rows: Seq<ProcessInfoView>, name: Seq<char>, bearer: int)
    requires
        0 <= bearer < rows.len(),
        rows[bearer].name == name,
    ensures
        exists|at: int| is_first_bearing(rows, name, at),
    decreases bearer,
{
    if exists|before: int| 0 <= before < bearer && (#[trigger] rows[before]).name == name {
        let before = choose|before: int|
            0 <= before < bearer && (#[trigger] rows[before]).name == name;
        lemma_first_bearing_exists(rows, name, before);
    } else {
        assert(is_first_bearing(rows, name, bearer));
    }
}

/// Taking a process in keeps the names distinct, makes its name one that is
/// borne, and lets no name appear or vanish otherwise.
pub proof fn lemma_absorb_keeps_names(
    rows: Seq<ProcessInfoView>,
    row: ProcessInfoView,
    parent: Option<u32>,
)
    requires
        distinct_names(rows),
    ensures
        distinct_names(absorb(rows, row, parent)),
        bears(absorb(rows, row, parent), row.name),
        forall|name: Seq<char>|
            name != row.name ==> (bears(absorb(rows, row, parent), name) <==> bears(rows, name)),
        absorb(rows, row, parent).len() == if bears(rows, row.name) {
            rows.len()
        } else {
            rows.len() + 1
        },
{
    lemma_representative(rows, row.name);
    let after = absorb(rows, row, parent);
    match representative(rows, row.name) {
        None => {
            assert(after[rows.len() as int] == row);
            assert forall|i: int, j: int| 0 <= i < j < after.len() implies (#[trigger] after[i]).name
                != (#[trigger] after[j]).name by {
                assert(after[i] == rows[i]);
                if j < rows.len() {
                    assert(after[j] == rows[j]);
                }
            }
            assert forall|name: Seq<char>| name != row.name implies (bears(after, name) <==> bears(
                rows,
                name,
            )) by {
                if bears(after, name) {
                    let at = choose|at: int| 0 <= at < after.len() && (#[trigger] after[at]).name == name;
                    assert(after[at] == rows[at]);
                }
                if bears(rows, name) {
                    let at = choose|at: int| 0 <= at < rows.len() && (#[trigger] rows[at]).name == name;
                    assert(after[at] == rows[at]);
                }
            }
        },
        Some(at) => {
            assert(is_first_bearing(rows, row.name, at));
            if parent is Some && parent->0 != rows[at].pid {
                let kept = rows.remove(at);
                assert(after[kept.len() as int] == row);
                assert forall|i: int| 0 <= i < kept.len() implies (#[trigger] kept[i]).name
                    != row.name by {
                    if i < at {
                        assert(kept[i] == rows[i]);
                    } else {
                        assert(kept[i] == rows[i + 1]);
                    }
                }
                assert forall|i: int, j: int| 0 <= i < j < after.len() implies (
                #[trigger] after[i]).name != (#[trigger] after[j]).name by {
                    assert(after[i] == kept[i]);
                    let from_i = if i < at { i } else { i + 1 };
                    assert(kept[i] == rows[from_i]);
                    if j < kept.len() {
                        let from_j = if j < at { j } else { j + 1 };
                        assert(after[j] == kept[j]);
                        assert(kept[j] == rows[from_j]);
                    }
                }
                assert forall|name: Seq<char>| name != row.name implies (bears(after, name)
                    <==> bears(rows, name)) by {
                    if bears(after, name) {
                        let k = choose|k: int| 0 <= k < after.len() && (#[trigger] after[k]).name == name;
                        let from_k = if k < at { k } else { k + 1 };
                        assert(after[k] == kept[k]);
                        assert(kept[k] == rows[from_k]);
                    }
                    if bears(rows, name) {
                        let k = choose|k: int| 0 <= k < rows.len() && (#[trigger] rows[k]).name == name;
                        let to_k = if k < at { k } else { k - 1 };
                        assert(after[to_k] == kept[to_k]);
                        assert(kept[to_k] == rows[k]);
                    }
                }
            } else {
                assert(rows[at].name == row.name);
            }
        },
    }
}

/// Every row after a process has been taken in is the newcomer or a row that
/// was there before.
pub proof fn lemma_absorb_rows(rows: Seq<ProcessInfoView>, row: ProcessInfoView, parent: Option<u32>)
    ensures
        forall|i: int|
            0 <= i < absorb(rows, row, parent).len() ==> {
                ||| (#[trigger] absorb(rows, row, parent)[i]) == row
                ||| rows.contains(absorb(rows, row, parent)[i])
            },
{
    let after = absorb(rows, row, parent);
    lemma_representative(rows, row.name);
    assert forall|i: int| 0 <= i < after.len() implies {
        ||| (#[trigger] after[i]) == row
        ||| rows.contains(after[i])
    } by {
        match representative(rows, row.name) {
            None => {
                if i < rows.len() {
                    assert(after[i] == rows[i]);
                }
            },
            Some(at) => {
                assert(is_first_bearing(rows, row.name, at));
                if parent is Some && parent->0 != rows[at].pid {
                    if i < rows.len() - 1 {
                        let from = if i < at { i } else { i + 1 };
                        assert(after[i] == rows[from]);
                    }
                } else {
                    assert(after[i] == rows[i]);
                }
            },
        }
    }
}

/// Finds the row that stands for `name`.
pub fn find_representative(rows: &Vec<ProcessInfo>, name: &String) -> (found: Option<usize>)
    ensures
        match found {
            Some(at) => representative(rows.deep_view(), name@) == Some(at as int),
            None => representative(rows.deep_view(), name@) is None,
        },
{
    let mut at: usize = 0;
    while at < rows.len()
        invariant
            at <= rows.len(),
            forall|before: int|
                0 <= before < at ==> (#[trigger] rows.deep_view()[before]).name != name@,
        decreases rows.len() - at,
    {
        if rows[at].name == *name {
            proof {
                assert(rows.deep_view()[at as int].name == name@);
                assert(is_first_bearing(rows.deep_view(), name@, at as int));
                lemma_representative(rows.deep_view(), name@);
            }
            return Some(at);
        }
        assert(rows.deep_view()[at as int].name != name@);
        at = at + 1;
    }
    proof {
        lemma_representative(rows.deep_view(), name@);
        assert(!bears(rows.deep_view(), name@));
    }
    None
}

/// Takes a process in: see [`absorb`].
pub fn absorb_row(rows: &mut Vec<ProcessInfo>, row: ProcessInfo, parent: Option<u32>)
    ensures
        final(rows).deep_view() == absorb(old(rows).deep_view(), row@, parent),
{
    let ghost before = rows.deep_view();
    match find_representative(rows, &row.name) {
        None => {
            rows.push(row);
            assert(rows.deep_view() =~= before.push(row@));
        },
        Some(at) => {
            let replaces: bool = match parent {
                Some(parent_pid) => parent_pid != rows[at].pid,
                None => false,
            };
            assert(rows.deep_view()[at as int].pid == rows[at as int].pid);
            if replaces {
                let _ = rows.remove(at);
                rows.push(row);
                assert(rows.deep_view() =~= before.remove(at as int).push(row@));
            }
        },
    }
}

} // verus!
