//! Local note density and simultaneous-key counts over the base grid.

use vstd::prelude::*;

use crate::note::Note;

verus! {

/// Number of the first `j` notes whose hit time lies in `[lo, hi)`.
pub open spec fn count_hits_prefix(notes: Seq<Note>, j: int, lo: int, hi: int) -> nat
    decreases j,
{
    if j <= 0 {
        0
    } else {
        count_hits_prefix(notes, j - 1, lo, hi)
            + (if lo <= notes[j - 1].hit_time < hi { 1nat } else { 0nat })
    }
}

/// Number of notes whose hit time lies in `[lo, hi)`.
pub open spec fn count_hits_in(notes: Seq<Note>, lo: int, hi: int) -> nat {
    count_hits_prefix(notes, notes.len() as int, lo, hi)
}

/// Number of columns below `c` that are occupied at grid point `i`.
pub open spec fn count_occupied_prefix(usage: Seq<Vec<bool>>, c: int, i: int) -> nat
    decreases c,
{
    if c <= 0 {
        0
    } else {
        count_occupied_prefix(usage, c - 1, i) + (if usage[c - 1]@[i] { 1nat } else { 0nat })
    }
}

/// The simultaneous-key count at grid point `i`: the number of occupied
/// columns, floored at 1.
pub open spec fn key_count_at(usage: Seq<Vec<bool>>, k: int, i: int) -> nat {
    if count_occupied_prefix(usage, k, i) == 0 {
        1
    } else {
        count_occupied_prefix(usage, k, i)
    }
}

/// Computes per base corner the local note count and the simultaneous-key
/// count: `r.0[i]` counts the notes hit within 500 ms of the corner,
/// `r.1[i]` counts the occupied columns there, floored at 1.
pub fn compute_c_and_ks(
    k: usize,
    notes: &Vec<Note>,
    key_usage: &Vec<Vec<bool>>,
    base_corners: &Vec<i64>,
) -> (r: (Vec<usize>, Vec<usize>))
    requires
        key_usage@.len() == k,
        forall|c: int| 0 <= c < k ==> (#[trigger] key_usage@[c])@.len() == base_corners@.len(),
        forall|i: int| 0 <= i < base_corners@.len() ==> {
            &&& (#[trigger] base_corners@[i]) - 500 >= i64::MIN
            &&& base_corners@[i] + 500 <= i64::MAX
        },
    ensures
        r.0@.len() == base_corners@.len(),
        r.1@.len() == base_corners@.len(),
        forall|i: int| 0 <= i < base_corners@.len() ==> (#[trigger] r.0@[i]) as int
            == count_hits_in(notes@, base_corners@[i] - 500, base_corners@[i] + 500),
        forall|i: int| 0 <= i < base_corners@.len() ==> (#[trigger] r.1@[i]) as int
            == key_count_at(key_usage@, k as int, i),
{
    let n = base_corners.len();
    let mut c_step: Vec<usize> = Vec::new();
    let mut i: usize = 0;
    while i < n
        invariant
            c_step@.len() == i,
            i <= n,
            n == base_corners@.len(),
            forall|i2: int| 0 <= i2 < base_corners@.len() ==> {
                &&& (#[trigger] base_corners@[i2]) - 500 >= i64::MIN
                &&& base_corners@[i2] + 500 <= i64::MAX
            },
            forall|i2: int| 0 <= i2 < i ==> (#[trigger] c_step@[i2]) as int
                == count_hits_in(notes@, base_corners@[i2] - 500, base_corners@[i2] + 500),
        decreases n - i,
    {
        let lo: i64 = base_corners[i] - 500;
        let hi: i64 = base_corners[i] + 500;
        let mut cnt: usize = 0;
        let mut j: usize = 0;
        while j < notes.len()
            invariant
                j <= notes@.len(),
                cnt <= j,
                cnt as int == count_hits_prefix(notes@, j as int, lo as int, hi as int),
            decreases notes@.len() - j,
        {
            let note = notes[j];
            if lo <= note.hit_time && note.hit_time < hi {
                cnt = cnt + 1;
            }
            j = j + 1;
        }
        c_step.push(cnt);
        i = i + 1;
    }

    let mut ks_step: Vec<usize> = Vec::new();
    let mut i: usize = 0;
    while i < n
        invariant
            ks_step@.len() == i,
            i <= n,
            n == base_corners@.len(),
            key_usage@.len() == k,
            forall|c: int| 0 <= c < k ==> (#[trigger] key_usage@[c])@.len() == base_corners@.len(),
            forall|i2: int| 0 <= i2 < i ==> (#[trigger] ks_step@[i2]) as int
                == key_count_at(key_usage@, k as int, i2),
        decreases n - i,
    {
        let mut cnt: usize = 0;
        let mut c: usize = 0;
        while c < k
            invariant
                c <= k,
                cnt <= c,
                i < n,
                key_usage@.len() == k,
                forall|c2: int| 0 <= c2 < k ==> (#[trigger] key_usage@[c2])@.len() == base_corners@.len(),
                n == base_corners@.len(),
                cnt as int == count_occupied_prefix(key_usage@, c as int, i as int),
            decreases k - c,
        {
            if key_usage[c][i] {
                cnt = cnt + 1;
            }
            c = c + 1;
        }
        if cnt == 0 {
            cnt = 1;
        }
        ks_step.push(cnt);
        i = i + 1;
    }

    (c_step, ks_step)
}

/// On a chart with no notes the local note count is zero everywhere.
pub proof fn lemma_empty_chart_counts(notes: Seq<Note>, lo: int, hi: int)
    requires
        notes.len() == 0,
    ensures
        count_hits_in(notes, lo, hi) == 0,
{
}

/// Where no column is occupied the simultaneous-key count floors at 1, so
/// no later division can hit zero.
pub proof fn lemma_unoccupied_key_count(usage: Seq<Vec<bool>>, k: int, i: int)
    requires
        forall|c: int| 0 <= c < k ==> !(#[trigger] usage[c])@[i],
    ensures
        key_count_at(usage, k, i) == 1,
{
    lemma_unoccupied_count_zero(usage, k, i);
}

proof fn lemma_unoccupied_count_zero(usage: Seq<Vec<bool>>, k: int, i: int)
    requires
        forall|c: int| 0 <= c < k ==> !(#[trigger] usage[c])@[i],
    ensures
        count_occupied_prefix(usage, k, i) == 0,
    decreases k,
{
    if k > 0 {
        lemma_unoccupied_count_zero(usage, k - 1, i);
    }
}

} // verus!
