//! Per-column key occupancy over the base grid, and the derived list of
//! active columns per grid point.
//!
//! A column is occupied at a grid point when some note of that column has
//! the point inside its hard window: `[hit - 150, hit + 150)` for a tap,
//! `[hit - 150, min(tail + 150, t - 1))` for a hold, with the left end
//! clipped at 0.

use vstd::prelude::*;

use crate::note::Note;
use crate::search::{lower_bound, sorted_le};

verus! {

/// Left end of the hard occupancy window of note `n`.
pub open spec fn usage_window_start(n: Note) -> int {
    if n.hit_time - 150 >= 0 {
        n.hit_time - 150
    } else {
        0
    }
}

/// Right end (exclusive) of the hard occupancy window of note `n` on a
/// chart of total duration `t`.
pub open spec fn usage_window_end(n: Note, t: int) -> int {
    if n.tail_time < 0 {
        n.hit_time + 150
    } else if n.tail_time + 150 <= t - 1 {
        n.tail_time + 150
    } else {
        t - 1
    }
}

/// Note `n` makes column `col` occupied at time `v`.
pub open spec fn covers(n: Note, t: int, col: int, v: int) -> bool {
    n.column == col && usage_window_start(n) <= v < usage_window_end(n, t)
}

/// Some of the first `p` notes makes column `col` occupied at time `v`.
pub open spec fn covered_by_prefix(notes: Seq<Note>, p: int, t: int, col: int, v: int) -> bool {
    exists|j: int| 0 <= j < p && covers(#[trigger] notes[j], t, col, v)
}

/// Column `col` is occupied at time `v` on a chart with notes `notes` and
/// total duration `t`.
pub open spec fn column_occupied(notes: Seq<Note>, t: int, col: int, v: int) -> bool {
    covered_by_prefix(notes, notes.len() as int, t, col, v)
}

/// Marks `row[i] = true` for every `i` in `[left, right)`.
fn mark_range(row: &mut Vec<bool>, left: usize, right: usize)
    requires
        left <= right,
        right <= old(row)@.len(),
    ensures
        final(row)@.len() == old(row)@.len(),
        forall|i: int| 0 <= i < final(row)@.len() ==>
            final(row)@[i] == (old(row)@[i] || (left <= i < right)),
{
    let mut i = left;
    while i < right
        invariant
            left <= i,
            i <= right,
            right <= row@.len(),
            row@.len() == old(row)@.len(),
            forall|j: int| 0 <= j < row@.len() ==>
                row@[j] == (old(row)@[j] || (left <= j < i)),
        decreases row@.len() - i,
    {
        row[i] = true;
        i = i + 1;
    }
}

/// Computes the hard-window key occupancy of every column at every base
/// corner: `r[col][i]` is true exactly when some note of column `col`
/// covers `base_corners[i]`.
pub fn get_key_usage(k: usize, t: i64, notes: &Vec<Note>, base_corners: &Vec<i64>) -> (r: Vec<Vec<bool>>)
    requires
        sorted_le(base_corners@),
        0 <= t,
        forall|j: int| 0 <= j < notes@.len() ==> {
            &&& (#[trigger] notes@[j]).hit_time + 150 <= i64::MAX
            &&& notes@[j].hit_time - 150 >= i64::MIN
            &&& notes@[j].tail_time + 150 <= i64::MAX
        },
    ensures
        r@.len() == k,
        forall|col: int| 0 <= col < k ==> (#[trigger] r@[col])@.len() == base_corners@.len(),
        forall|col: int, i: int| 0 <= col < k && 0 <= i < base_corners@.len() ==>
            (#[trigger] r@[col]@[i]) == column_occupied(notes@, t as int, col, base_corners@[i] as int),
{
    let n = base_corners.len();
    let mut usage: Vec<Vec<bool>> = Vec::new();
    let mut col: usize = 0;
    while col < k
        invariant
            usage@.len() == col,
            col <= k,
            sorted_le(base_corners@),
            0 <= t,
            forall|j: int| 0 <= j < notes@.len() ==> {
                &&& (#[trigger] notes@[j]).hit_time + 150 <= i64::MAX
                &&& notes@[j].hit_time - 150 >= i64::MIN
                &&& notes@[j].tail_time + 150 <= i64::MAX
            },
            n == base_corners@.len(),
            forall|c: int| 0 <= c < col ==> (#[trigger] usage@[c])@.len() == base_corners@.len(),
            forall|c: int, i: int| 0 <= c < col && 0 <= i < base_corners@.len() ==>
                (#[trigger] usage@[c]@[i]) == column_occupied(notes@, t as int, c, base_corners@[i] as int),
        decreases k - col,
    {
        let mut row: Vec<bool> = Vec::new();
        let mut i: usize = 0;
        while i < n
            invariant
                row@.len() == i,
                i <= n,
                forall|j: int| 0 <= j < i ==> !(#[trigger] row@[j]),
            decreases n - i,
        {
            row.push(false);
            i = i + 1;
        }

        let mut j: usize = 0;
        while j < notes.len()
            invariant
                j <= notes@.len(),
                sorted_le(base_corners@),
                0 <= t,
                forall|j2: int| 0 <= j2 < notes@.len() ==> {
                    &&& (#[trigger] notes@[j2]).hit_time + 150 <= i64::MAX
                    &&& notes@[j2].hit_time - 150 >= i64::MIN
                    &&& notes@[j2].tail_time + 150 <= i64::MAX
                },
                n == base_corners@.len(),
                row@.len() == n,
                forall|i: int| 0 <= i < n ==>
                    (#[trigger] row@[i]) == covered_by_prefix(notes@, j as int, t as int, col as int, base_corners@[i] as int),
            decreases notes@.len() - j,
        {
            let ghost p = j as int;
            let note = notes[j];
            if note.column == col {
                let start: i64 = if note.hit_time - 150 >= 0 { note.hit_time - 150 } else { 0 };
                let end: i64 = if note.tail_time < 0 {
                    note.hit_time + 150
                } else if note.tail_time + 150 <= t - 1 {
                    note.tail_time + 150
                } else {
                    t - 1
                };
                assert(start == usage_window_start(note) && end == usage_window_end(note, t as int));
                let left = lower_bound(base_corners.as_slice(), start);
                let right = lower_bound(base_corners.as_slice(), end);
                let ghost before = row@;
                if left < right {
                    mark_range(&mut row, left, right);
                }
                assert forall|i: int| 0 <= i < n implies
                    (#[trigger] row@[i]) == covered_by_prefix(notes@, p + 1, t as int, col as int, base_corners@[i] as int) by {
                    let v = base_corners@[i] as int;
                    assert(covers(note, t as int, col as int, v) <==> (left <= i < right));
                    if row@[i] {
                        if before[i] {
                            let w = choose|w: int| 0 <= w < p && covers(#[trigger] notes@[w], t as int, col as int, v);
                            assert(0 <= w < p + 1 && covers(notes@[w], t as int, col as int, v));
                        } else {
                            assert(covers(notes@[p], t as int, col as int, v));
                        }
                    } else {
                        if covered_by_prefix(notes@, p + 1, t as int, col as int, v) {
                            let w = choose|w: int| 0 <= w < p + 1 && covers(#[trigger] notes@[w], t as int, col as int, v);
                            if w < p {
                                assert(covered_by_prefix(notes@, p, t as int, col as int, v));
                            } else {
                                assert(covers(note, t as int, col as int, v));
                            }
                        }
                    }
                }
            } else {
                assert forall|i: int| 0 <= i < n implies
                    (#[trigger] row@[i]) == covered_by_prefix(notes@, p + 1, t as int, col as int, base_corners@[i] as int) by {
                    let v = base_corners@[i] as int;
                    if covered_by_prefix(notes@, p + 1, t as int, col as int, v) {
                        let w = choose|w: int| 0 <= w < p + 1 && covers(#[trigger] notes@[w], t as int, col as int, v);
                        assert(w < p);
                        assert(covered_by_prefix(notes@, p, t as int, col as int, v));
                    }
                }
            }
            j = j + 1;
        }
        usage.push(row);
        col = col + 1;
    }
    usage
}

/// The columns active at one grid point: every occupied column, in
/// ascending order.
pub fn compute_active_columns(key_usage: &Vec<Vec<bool>>, k: usize, n: usize) -> (r: Vec<Vec<usize>>)
    requires
        key_usage@.len() == k,
        forall|c: int| 0 <= c < k ==> (#[trigger] key_usage@[c])@.len() == n,
    ensures
        r@.len() == n,
        forall|i: int| 0 <= i < n ==> {
            &&& forall|p: int, q: int| 0 <= p < q < (#[trigger] r@[i])@.len() ==> r@[i]@[p] < r@[i]@[q]
            &&& forall|c: usize| (#[trigger] r@[i]@.contains(c)) <==> (c < k && key_usage@[c as int]@[i])
        },
{
    let mut active: Vec<Vec<usize>> = Vec::new();
    let mut i: usize = 0;
    while i < n
        invariant
            active@.len() == i,
            i <= n,
            key_usage@.len() == k,
            forall|c: int| 0 <= c < k ==> (#[trigger] key_usage@[c])@.len() == n,
            forall|i2: int| 0 <= i2 < i ==> {
                &&& forall|p: int, q: int| 0 <= p < q < (#[trigger] active@[i2])@.len() ==> active@[i2]@[p] < active@[i2]@[q]
                &&& forall|c: usize| (#[trigger] active@[i2]@.contains(c)) <==> (c < k && key_usage@[c as int]@[i2])
            },
        decreases n - i,
    {
        let mut cols: Vec<usize> = Vec::new();
        let mut c: usize = 0;
        while c < k
            invariant
                c <= k,
                i < n,
                key_usage@.len() == k,
                forall|c2: int| 0 <= c2 < k ==> (#[trigger] key_usage@[c2])@.len() == n,
                forall|p: int, q: int| 0 <= p < q < cols@.len() ==> cols@[p] < cols@[q],
                forall|p: int| 0 <= p < cols@.len() ==> (#[trigger] cols@[p]) < c,
                forall|c2: usize| (#[trigger] cols@.contains(c2)) <==> (c2 < c && key_usage@[c2 as int]@[i as int]),
            decreases k - c,
        {
            let ghost before = cols@;
            if key_usage[c][i] {
                cols.push(c);
            }
            assert forall|c2: usize| (#[trigger] cols@.contains(c2)) implies
                (c2 < c + 1 && key_usage@[c2 as int]@[i as int]) by {
                if c2 != c {
                    assert(before.contains(c2)) by {
                        let w = choose|w: int| 0 <= w < cols@.len() && cols@[w] == c2;
                        assert(before[w] == c2);
                    }
                }
            }
            assert forall|c2: usize| (c2 < c + 1 && key_usage@[c2 as int]@[i as int]) implies
                (#[trigger] cols@.contains(c2)) by {
                if c2 == c {
                    assert(cols@[cols@.len() - 1] == c);
                } else {
                    assert(before.contains(c2));
                    let w = choose|w: int| 0 <= w < before.len() && before[w] == c2;
                    assert(cols@[w] == c2);
                }
            }
            c = c + 1;
        }
        active.push(cols);
        i = i + 1;
    }
    active
}

/// On a chart with no notes no column is ever occupied.
pub proof fn lemma_empty_chart_unoccupied(notes: Seq<Note>, t: int, col: int, v: int)
    requires
        notes.len() == 0,
    ensures
        !column_occupied(notes, t, col, v),
{
}

} // verus!
