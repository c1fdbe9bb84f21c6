//! A small kit for reasoning about in-memory tables kept as vectors of
//! rows: selection of the row matching a predicate, and how selection
//! changes under push, update and removal.
//!
//! Every durable table of the system (the journal, the server's file
//! index, the blob bucket, the modelled sync directory, the status
//! table) keeps at most one row per key; `sel` picks that row.

use vstd::prelude::*;

verus! {

/// At most one row satisfies `f`.
pub open spec fn at_most_one<T>(rows: Seq<T>, f: spec_fn(T) -> bool) -> bool {
    forall|i: int, k: int|
        0 <= i < rows.len() && 0 <= k < rows.len() && #[trigger] f(rows[i]) && #[trigger] f(
            rows[k],
        ) ==> i == k
}

/// The row satisfying `f`, if any.
pub open spec fn sel<T>(rows: Seq<T>, f: spec_fn(T) -> bool) -> Option<T> {
    if exists|i: int| 0 <= i < rows.len() && f(#[trigger] rows[i]) {
        Some(rows[choose|i: int| 0 <= i < rows.len() && f(#[trigger] rows[i])])
    } else {
        None
    }
}

/// A matching row at a known index is the selected row.
pub proof fn lemma_sel_present<T>(rows: Seq<T>, f: spec_fn(T) -> bool, i: int)
    requires
        0 <= i < rows.len(),
        f(rows[i]),
        at_most_one(rows, f),
    ensures
        sel(rows, f) == Some(rows[i]),
{
    let k = choose|k: int| 0 <= k < rows.len() && f(#[trigger] rows[k]);
    assert(k == i);
}

/// Without a matching row there is no selection.
pub proof fn lemma_sel_absent<T>(rows: Seq<T>, f: spec_fn(T) -> bool)
    requires
        forall|i: int| 0 <= i < rows.len() ==> !f(#[trigger] rows[i]),
    ensures
        sel(rows, f) == None::<T>,
{
}

/// Selection gives a matching row.
pub proof fn lemma_sel_some<T>(rows: Seq<T>, f: spec_fn(T) -> bool) -> (i: int)
    requires
        sel(rows, f) is Some,
    ensures
        0 <= i < rows.len(),
        f(rows[i]),
        sel(rows, f) == Some(rows[i]),
{
    choose|i: int| 0 <= i < rows.len() && f(#[trigger] rows[i])
}

/// Pushing a row that does not match leaves every selection as it was;
/// pushing the only matching row selects it.
pub proof fn lemma_sel_push<T>(rows: Seq<T>, f: spec_fn(T) -> bool, x: T)
    requires
        at_most_one(rows, f),
        f(x) ==> forall|i: int| 0 <= i < rows.len() ==> !f(#[trigger] rows[i]),
    ensures
        sel(rows.push(x), f) == if f(x) {
            Some(x)
        } else {
            sel(rows, f)
        },
{
    let pushed = rows.push(x);
    if f(x) {
        assert(pushed[rows.len() as int] == x);
        assert(at_most_one(pushed, f));
        lemma_sel_present(pushed, f, rows.len() as int);
    } else {
        if exists|i: int| 0 <= i < rows.len() && f(#[trigger] rows[i]) {
            let i = choose|i: int| 0 <= i < rows.len() && f(#[trigger] rows[i]);
            assert(pushed[i] == rows[i]);
            assert(at_most_one(pushed, f)) by {
                assert forall|a: int, b: int|
                    0 <= a < pushed.len() && 0 <= b < pushed.len() && #[trigger] f(pushed[a])
                        && #[trigger] f(pushed[b]) implies a == b by {
                    assert(a < rows.len() && b < rows.len());
                    assert(pushed[a] == rows[a] && pushed[b] == rows[b]);
                }
            }
            lemma_sel_present(pushed, f, i);
            lemma_sel_present(rows, f, i);
        } else {
            assert forall|i: int| 0 <= i < pushed.len() implies !f(#[trigger] pushed[i]) by {
                if i < rows.len() {
                    assert(pushed[i] == rows[i]);
                }
            }
            lemma_sel_absent(pushed, f);
        }
    }
}

/// Removing row `i` empties the selection it satisfied and leaves
/// every other selection as it was.
pub proof fn lemma_sel_remove<T>(rows: Seq<T>, f: spec_fn(T) -> bool, i: int)
    requires
        0 <= i < rows.len(),
        at_most_one(rows, f),
    ensures
        sel(rows.remove(i), f) == if f(rows[i]) {
            None::<T>
        } else {
            sel(rows, f)
        },
{
    let cut = rows.remove(i);
    assert(forall|k: int| 0 <= k < i ==> cut[k] == rows[k]);
    assert(forall|k: int| i <= k < cut.len() ==> cut[k] == rows[k + 1]);
    if f(rows[i]) {
        assert forall|k: int| 0 <= k < cut.len() implies !f(#[trigger] cut[k]) by {
            if k < i {
                assert(cut[k] == rows[k]);
            } else {
                assert(cut[k] == rows[k + 1]);
            }
        }
        lemma_sel_absent(cut, f);
    } else {
        if exists|k: int| 0 <= k < rows.len() && f(#[trigger] rows[k]) {
            let k = choose|k: int| 0 <= k < rows.len() && f(#[trigger] rows[k]);
            let kc = if k < i {
                k
            } else {
                k - 1
            };
            assert(cut[kc] == rows[k]);
            assert(at_most_one(cut, f)) by {
                assert forall|a: int, b: int|
                    0 <= a < cut.len() && 0 <= b < cut.len() && #[trigger] f(cut[a])
                        && #[trigger] f(cut[b]) implies a == b by {
                    let ar = if a < i {
                        a
                    } else {
                        a + 1
                    };
                    let br = if b < i {
                        b
                    } else {
                        b + 1
                    };
                    assert(cut[a] == rows[ar]);
                    assert(cut[b] == rows[br]);
                }
            }
            lemma_sel_present(cut, f, kc);
            lemma_sel_present(rows, f, k);
        } else {
            assert forall|k: int| 0 <= k < cut.len() implies !f(#[trigger] cut[k]) by {
                if k < i {
                    assert(cut[k] == rows[k]);
                } else {
                    assert(cut[k] == rows[k + 1]);
                }
            }
            lemma_sel_absent(cut, f);
        }
    }
}

/// Replacing row `i` moves the selection it satisfied to the new row,
/// and leaves every other selection as it was.
pub proof fn lemma_sel_update<T>(rows: Seq<T>, f: spec_fn(T) -> bool, i: int, x: T)
    requires
        0 <= i < rows.len(),
        at_most_one(rows, f),
        f(x) ==> forall|k: int| 0 <= k < rows.len() && k != i ==> !f(#[trigger] rows[k]),
    ensures
        sel(rows.update(i, x), f) == if f(x) {
            Some(x)
        } else if f(rows[i]) {
            None::<T>
        } else {
            sel(rows, f)
        },
{
    let upd = rows.update(i, x);
    assert(forall|k: int| 0 <= k < upd.len() && k != i ==> upd[k] == rows[k]);
    assert(upd[i] == x);
    if f(x) {
        assert(at_most_one(upd, f));
        lemma_sel_present(upd, f, i);
    } else if f(rows[i]) {
        assert forall|k: int| 0 <= k < upd.len() implies !f(#[trigger] upd[k]) by {
            if k != i {
                assert(upd[k] == rows[k]);
            }
        }
        lemma_sel_absent(upd, f);
    } else {
        if exists|k: int| 0 <= k < rows.len() && f(#[trigger] rows[k]) {
            let k = choose|k: int| 0 <= k < rows.len() && f(#[trigger] rows[k]);
            assert(k != i);
            assert(upd[k] == rows[k]);
            assert(at_most_one(upd, f)) by {
                assert forall|a: int, b: int|
                    0 <= a < upd.len() && 0 <= b < upd.len() && #[trigger] f(upd[a])
                        && #[trigger] f(upd[b]) implies a == b by {
                    assert(a != i && b != i);
                }
            }
            lemma_sel_present(upd, f, k);
            lemma_sel_present(rows, f, k);
        } else {
            assert forall|k: int| 0 <= k < upd.len() implies !f(#[trigger] upd[k]) by {
                if k != i {
                    assert(upd[k] == rows[k]);
                }
            }
            lemma_sel_absent(upd, f);
        }
    }
}

} // verus!
