//! Corner grids: the sparse, increasing, deduplicated time-sampling grids on
//! which every strain signal is evaluated.
//!
//! From the note timestamps three grids are built: a base grid (each seed
//! timestamp expanded by +501, -499 and +1 ms), an "A" grid (each seed
//! expanded by +1000 and -1000 ms), and their union. Every grid is clipped
//! to `[0, t]` and always holds `0` and `t`.

use vstd::prelude::*;

use crate::note::Note;
use crate::search::{insert_sorted_unique, lemma_sorted_unique_same_elements, sorted_lt};

verus! {

/// `s` is a seed timestamp of note `n`: its hit time, or its tail time if it
/// is a hold.
pub open spec fn seed_of(n: Note, s: int) -> bool {
    n.hit_time == s || (n.tail_time >= 0 && n.tail_time == s)
}

/// `v` arises from a seed of note `n` by one of the base-grid expansions
/// (the seed itself, +501, -499 or +1).
pub open spec fn base_expansion_of(n: Note, v: int) -> bool {
    seed_of(n, v) || seed_of(n, v - 501) || seed_of(n, v + 499) || seed_of(n, v - 1)
}

/// `v` arises from a seed of note `n` by one of the A-grid expansions
/// (the seed itself, +1000 or -1000).
pub open spec fn a_expansion_of(n: Note, v: int) -> bool {
    seed_of(n, v) || seed_of(n, v - 1000) || seed_of(n, v + 1000)
}

/// `v` belongs to the base grid over the first `k` notes: it lies in
/// `[0, t]` and is `0`, `t`, or a base expansion of one of those notes.
pub open spec fn in_base_grid_prefix(notes: Seq<Note>, k: int, t: int, v: int) -> bool {
    0 <= v <= t && (v == 0 || v == t || exists|i: int|
        0 <= i < k && base_expansion_of(notes[i], v))
}

/// `v` belongs to the base grid of the chart.
pub open spec fn in_base_grid(notes: Seq<Note>, t: int, v: int) -> bool {
    in_base_grid_prefix(notes, notes.len() as int, t, v)
}

/// `v` belongs to the A grid over the first `k` notes.
pub open spec fn in_a_grid_prefix(notes: Seq<Note>, k: int, t: int, v: int) -> bool {
    0 <= v <= t && (v == 0 || v == t || exists|i: int|
        0 <= i < k && a_expansion_of(notes[i], v))
}

/// `v` belongs to the A grid of the chart.
pub open spec fn in_a_grid(notes: Seq<Note>, t: int, v: int) -> bool {
    in_a_grid_prefix(notes, notes.len() as int, t, v)
}

/// Every timestamp of the note is at least 1000 ms away from the `i64`
/// range ends, so each grid expansion can be computed without overflow.
pub open spec fn note_times_expandable(n: Note) -> bool {
    &&& i64::MIN + 1000 <= n.hit_time <= i64::MAX - 1000
    &&& i64::MIN + 1000 <= n.tail_time <= i64::MAX - 1000
}

/// Inserts `cand` into the sorted grid if it lies within `[0, t]`.
fn add_candidate(v: &mut Vec<i64>, cand: i64, t: i64)
    requires
        sorted_lt(old(v)@),
    ensures
        sorted_lt(final(v)@),
        forall|y: i64| final(v)@.contains(y) <==> (old(v)@.contains(y) || (y == cand && 0 <= cand <= t)),
{
    if 0 <= cand && cand <= t {
        insert_sorted_unique(v, cand);
    }
}

/// Adds the base-grid candidates of one seed timestamp: the seed itself and
/// its +501, -499 and +1 expansions, clipped to `[0, t]`.
fn add_base_seed(v: &mut Vec<i64>, s: i64, t: i64)
    requires
        sorted_lt(old(v)@),
        i64::MIN + 1000 <= s <= i64::MAX - 1000,
    ensures
        sorted_lt(final(v)@),
        forall|y: i64| final(v)@.contains(y) <==> (old(v)@.contains(y)
            || (0 <= y <= t && (y == s || y == s + 501 || y == s - 499 || y == s + 1))),
{
    add_candidate(v, s, t);
    add_candidate(v, s + 501, t);
    add_candidate(v, s - 499, t);
    add_candidate(v, s + 1, t);
}

/// Adds the A-grid candidates of one seed timestamp: the seed itself and
/// its +1000 and -1000 expansions, clipped to `[0, t]`.
fn add_a_seed(v: &mut Vec<i64>, s: i64, t: i64)
    requires
        sorted_lt(old(v)@),
        i64::MIN + 1000 <= s <= i64::MAX - 1000,
    ensures
        sorted_lt(final(v)@),
        forall|y: i64| final(v)@.contains(y) <==> (old(v)@.contains(y)
            || (0 <= y <= t && (y == s || y == s + 1000 || y == s - 1000))),
{
    add_candidate(v, s, t);
    add_candidate(v, s + 1000, t);
    add_candidate(v, s - 1000, t);
}

/// Builds the three corner grids of a chart: `(all_corners, base_corners,
/// a_corners)`, each strictly increasing, clipped to `[0, t]`, holding `0`
/// and `t`, and holding exactly the expansions of the note seeds; the first
/// is the union of the other two.
pub fn get_corners(t: i64, notes: &Vec<Note>) -> (r: (Vec<i64>, Vec<i64>, Vec<i64>))
    requires
        0 <= t,
        forall|i: int| 0 <= i < notes@.len() ==> note_times_expandable(#[trigger] notes@[i]),
    ensures
        sorted_lt(r.0@),
        sorted_lt(r.1@),
        sorted_lt(r.2@),
        forall|y: i64| r.1@.contains(y) <==> in_base_grid(notes@, t as int, y as int),
        forall|y: i64| r.2@.contains(y) <==> in_a_grid(notes@, t as int, y as int),
        forall|y: i64| r.0@.contains(y) <==> (r.1@.contains(y) || r.2@.contains(y)),
        r.1@.contains(0) && r.1@.contains(t),
        r.2@.contains(0) && r.2@.contains(t),
        r.0@.contains(0) && r.0@.contains(t),
{
    let mut base: Vec<i64> = Vec::new();
    add_candidate(&mut base, 0, t);
    add_candidate(&mut base, t, t);
    let mut i: usize = 0;
    while i < notes.len()
        invariant
            sorted_lt(base@),
            i <= notes@.len(),
            0 <= t,
            forall|j: int| 0 <= j < notes@.len() ==> note_times_expandable(#[trigger] notes@[j]),
            forall|y: i64| base@.contains(y) <==> in_base_grid_prefix(notes@, i as int, t as int, y as int),
        decreases notes@.len() - i,
    {
        let n = notes[i];
        let ghost prefix = i as int;
        add_base_seed(&mut base, n.hit_time, t);
        if n.tail_time >= 0 {
            add_base_seed(&mut base, n.tail_time, t);
        }
        assert forall|y: i64| base@.contains(y) implies
            in_base_grid_prefix(notes@, prefix + 1, t as int, y as int) by {
            if !in_base_grid_prefix(notes@, prefix, t as int, y as int) {
                assert(base_expansion_of(notes@[prefix], y as int));
            }
        }
        assert forall|y: i64| in_base_grid_prefix(notes@, prefix + 1, t as int, y as int) implies
            base@.contains(y) by {
            if !in_base_grid_prefix(notes@, prefix, t as int, y as int) {
                let j = choose|j: int| 0 <= j < prefix + 1 && base_expansion_of(notes@[j], y as int);
                assert(j == prefix);
            }
        }
        i = i + 1;
    }

    let mut a: Vec<i64> = Vec::new();
    add_candidate(&mut a, 0, t);
    add_candidate(&mut a, t, t);
    let mut i: usize = 0;
    while i < notes.len()
        invariant
            sorted_lt(a@),
            i <= notes@.len(),
            0 <= t,
            forall|j: int| 0 <= j < notes@.len() ==> note_times_expandable(#[trigger] notes@[j]),
            forall|y: i64| a@.contains(y) <==> in_a_grid_prefix(notes@, i as int, t as int, y as int),
        decreases notes@.len() - i,
    {
        let n = notes[i];
        let ghost prefix = i as int;
        add_a_seed(&mut a, n.hit_time, t);
        if n.tail_time >= 0 {
            add_a_seed(&mut a, n.tail_time, t);
        }
        assert forall|y: i64| a@.contains(y) implies
            in_a_grid_prefix(notes@, prefix + 1, t as int, y as int) by {
            if !in_a_grid_prefix(notes@, prefix, t as int, y as int) {
                assert(a_expansion_of(notes@[prefix], y as int));
            }
        }
        assert forall|y: i64| in_a_grid_prefix(notes@, prefix + 1, t as int, y as int) implies
            a@.contains(y) by {
            if !in_a_grid_prefix(notes@, prefix, t as int, y as int) {
                let j = choose|j: int| 0 <= j < prefix + 1 && a_expansion_of(notes@[j], y as int);
                assert(j == prefix);
            }
        }
        i = i + 1;
    }

    let mut all: Vec<i64> = Vec::new();
    let mut i: usize = 0;
    while i < base.len()
        invariant
            sorted_lt(all@),
            sorted_lt(base@),
            i <= base@.len(),
            forall|y: i64| all@.contains(y) ==> base@.contains(y),
            forall|j: int| 0 <= j < i ==> all@.contains(#[trigger] base@[j]),
        decreases base@.len() - i,
    {
        insert_sorted_unique(&mut all, base[i]);
        i = i + 1;
    }
    assert forall|y: i64| base@.contains(y) implies all@.contains(y) by {
        let j = choose|j: int| 0 <= j < base@.len() && base@[j] == y;
        assert(all@.contains(base@[j]));
    }
    let mut i: usize = 0;
    while i < a.len()
        invariant
            sorted_lt(all@),
            sorted_lt(a@),
            sorted_lt(base@),
            i <= a@.len(),
            forall|y: i64| all@.contains(y) ==> (base@.contains(y) || a@.contains(y)),
            forall|y: i64| base@.contains(y) ==> all@.contains(y),
            forall|j: int| 0 <= j < i ==> all@.contains(#[trigger] a@[j]),
        decreases a@.len() - i,
    {
        insert_sorted_unique(&mut all, a[i]);
        i = i + 1;
    }
    assert forall|y: i64| a@.contains(y) implies all@.contains(y) by {
        let j = choose|j: int| 0 <= j < a@.len() && a@[j] == y;
        assert(all@.contains(a@[j]));
    }
    assert(base@.contains(0) && base@.contains(t)) by {
        assert(in_base_grid_prefix(notes@, notes@.len() as int, t as int, 0));
        assert(in_base_grid_prefix(notes@, notes@.len() as int, t as int, t as int));
    }
    assert(a@.contains(0) && a@.contains(t)) by {
        assert(in_a_grid_prefix(notes@, notes@.len() as int, t as int, 0));
        assert(in_a_grid_prefix(notes@, notes@.len() as int, t as int, t as int));
    }
    (all, base, a)
}

/// On a chart with no notes every grid degenerates to the two endpoints:
/// a time belongs to the base or A grid exactly when it is 0 or the total
/// duration.
pub proof fn lemma_empty_chart_grids(notes: Seq<Note>, t: int, v: int)
    requires
        notes.len() == 0,
    ensures
        in_base_grid(notes, t, v) <==> (0 <= v <= t && (v == 0 || v == t)),
        in_a_grid(notes, t, v) <==> (0 <= v <= t && (v == 0 || v == t)),
{
}

/// The corner grids are a function of the chart alone: any two strictly
/// increasing grids with the same grid membership are equal, so repeating
/// the construction on the same chart yields the identical grids.
pub proof fn lemma_corners_deterministic(notes: Seq<Note>, t: int, g1: Seq<i64>, g2: Seq<i64>)
    requires
        sorted_lt(g1),
        sorted_lt(g2),
        forall|y: i64| g1.contains(y) <==> in_base_grid(notes, t, y as int),
        forall|y: i64| g2.contains(y) <==> in_base_grid(notes, t, y as int),
    ensures
        g1 == g2,
{
    lemma_sorted_unique_same_elements(g1, g2);
}

} // verus!
