//! Lookup of the next note in a column, used by the release sweep.

use vstd::prelude::*;

use crate::note::Note;
use crate::search::{lower_bound, sorted_le};

verus! {

/// Finds the note after the one at `(k, h, _)` in column `k`, as a
/// `(column, hit_time, tail_time)` tuple.
///
/// `times` holds the hit times of column `k` in non-decreasing order; the
/// successor is the note one past the first index whose hit time reaches
/// `h`. When no such note exists, a sentinel far in the future is
/// returned.
pub fn find_next_note_in_column(
    note: (usize, i64, i64),
    times: &Vec<i64>,
    notes_by_column: &Vec<Vec<Note>>,
) -> (r: (usize, i64, i64))
    requires
        note.0 < notes_by_column@.len(),
        sorted_le(times@),
    ensures
        ({
            let idx = first_at_or_after(times@, note.1);
            if idx + 1 < notes_by_column@[note.0 as int]@.len() {
                let n = notes_by_column@[note.0 as int]@[idx + 1];
                r == (n.column, n.hit_time, n.tail_time)
            } else {
                r == (0usize, 1_000_000_000i64, 1_000_000_000i64)
            }
        }),
{
    let (k, h, _t) = note;
    let idx = lower_bound(times.as_slice(), h);
    proof {
        lemma_first_at_or_after(times@, h, idx as int);
    }
    let len = notes_by_column[k].len();
    if idx < len && idx + 1 < len {
        let next_note = &notes_by_column[k][idx + 1];
        (next_note.column, next_note.hit_time, next_note.tail_time)
    } else {
        (0, 1_000_000_000, 1_000_000_000)
    }
}

/// The least index whose element is at least `x` (the length when none
/// is).
pub open spec fn first_at_or_after(times: Seq<i64>, x: i64) -> int {
    choose|r: int| is_first_at_or_after(times, x, r)
}

/// `r` is the least index of `times` whose element is at least `x`.
pub open spec fn is_first_at_or_after(times: Seq<i64>, x: i64, r: int) -> bool {
    &&& 0 <= r <= times.len()
    &&& forall|j: int| 0 <= j < r ==> times[j] < x
    &&& forall|j: int| r <= j < times.len() ==> times[j] >= x
}

proof fn lemma_first_at_or_after(times: Seq<i64>, x: i64, r: int)
    requires
        is_first_at_or_after(times, x, r),
    ensures
        first_at_or_after(times, x) == r,
{
    assert(exists|w: int| is_first_at_or_after(times, x, w)) by {
        assert(is_first_at_or_after(times, x, r));
    }
    let r2 = first_at_or_after(times, x);
    assert(is_first_at_or_after(times, x, r2));
    if r2 < r {
        assert(0 <= r2 < r <= times.len());
        assert(times[r2] < x);
        assert(times[r2] >= x);
    } else if r2 > r {
        assert(0 <= r < r2 <= times.len());
        assert(times[r] < x);
        assert(times[r] >= x);
    }
}

} // verus!
