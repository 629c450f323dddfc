//! Sparse piecewise-constant coverage of hold-note bodies, with an
//! O(log n) interval-sum query.
//!
//! Each hold contributes a small step profile to a "coverage" curve: a
//! weight of 1.3 from 60 ms after its head, easing to 1.0 from 120 ms after
//! the head, and ending at its tail (each time clipped at the tail). The
//! summed curve is capped at `2.5 + half` of itself. All weights here are
//! held in twentieths, so every value is an exact integer: 26, 20 and the
//! cap `50 + c/2`. The curve is stored as breakpoints, the constant value
//! on each segment, and the running integral at each breakpoint; an
//! interval sum is then two lookups.

use vstd::prelude::*;

use crate::note::Note;
use crate::search::{insert_sorted_unique, sorted_lt, upper_bound};

verus! {

/// Sparse representation of the hold-body coverage curve.
///
/// `points` are the breakpoints, strictly increasing; `values[i]` is the
/// constant curve value (in twentieths) on `[points[i], points[i+1])`;
/// `cumulative_sum[i]` is the integral of the curve from `points[0]` to
/// `points[i]`, in twentieth-milliseconds.
#[derive(Debug, Clone)]
pub struct LongNoteRepresentation {
    /// Time points where the coverage value changes.
    pub points: Vec<i64>,
    /// Running integral of the coverage at each point.
    pub cumulative_sum: Vec<i64>,
    /// Coverage value on each segment, in twentieths.
    pub values: Vec<i64>,
}

impl LongNoteRepresentation {
    /// Creates a representation from its three parts.
    pub fn new(points: Vec<i64>, cumulative_sum: Vec<i64>, values: Vec<i64>) -> (r: LongNoteRepresentation)
        ensures
            r.points@ == points@,
            r.cumulative_sum@ == cumulative_sum@,
            r.values@ == values@,
    {
        LongNoteRepresentation { points, cumulative_sum, values }
    }
}

/// The representation is well formed: lengths agree, breakpoints increase
/// and span at most the `i64` range, values are non-negative, and the
/// running integral starts at 0 and grows by segment length times value.
pub open spec fn wf_ln_rep(rep: LongNoteRepresentation) -> bool {
    &&& rep.points@.len() >= 1
    &&& rep.values@.len() == rep.points@.len() - 1
    &&& rep.cumulative_sum@.len() == rep.points@.len()
    &&& sorted_lt(rep.points@)
    &&& rep.points@[rep.points@.len() - 1] - rep.points@[0] <= i64::MAX
    &&& rep.cumulative_sum@[0] == 0
    &&& forall|i: int| 0 <= i < rep.values@.len() ==> 0 <= #[trigger] rep.values@[i]
    &&& forall|i: int| 0 <= i < rep.values@.len() ==> #[trigger] rep.cumulative_sum@[i + 1]
            == rep.cumulative_sum@[i] + (rep.points@[i + 1] - rep.points@[i]) * rep.values@[i]
}

/// Index of the segment holding `q`: the largest `s` with
/// `points[s] <= q`, and 0 when `q` lies before every point.
pub open spec fn seg_of(points: Seq<i64>, q: int) -> int
    decreases points.len(),
{
    if points.len() <= 1 {
        0
    } else if points[points.len() - 1] <= q {
        points.len() - 1
    } else {
        seg_of(points.drop_last(), q)
    }
}

/// Basic facts about the segment index.
pub proof fn lemma_seg_of_props(points: Seq<i64>, q: int)
    requires
        sorted_lt(points),
        points.len() >= 1,
    ensures
        0 <= seg_of(points, q) < points.len(),
        points[0] <= q ==> points[seg_of(points, q)] <= q,
        seg_of(points, q) < points.len() - 1 ==> q < points[seg_of(points, q) + 1],
    decreases points.len(),
{
    if points.len() > 1 && points[points.len() - 1] > q {
        let sub = points.drop_last();
        assert(sorted_lt(sub)) by {
            assert(forall|i: int, j: int| 0 <= i < j < sub.len() ==> sub[i] == points[i] && sub[j] == points[j]);
        }
        lemma_seg_of_props(sub, q);
        let s = seg_of(sub, q);
        assert(sub[s] == points[s]);
        if s < sub.len() - 1 {
            assert(sub[s + 1] == points[s + 1]);
        }
    }
}

/// The segment index is the unique `s` with `points[s] <= q` that is last
/// or followed by a point beyond `q`.
pub proof fn lemma_seg_of_unique(points: Seq<i64>, q: int, s: int)
    requires
        sorted_lt(points),
        0 <= s < points.len(),
        points[s] <= q,
        s == points.len() - 1 || q < points[s + 1],
    ensures
        seg_of(points, q) == s,
    decreases points.len(),
{
    if points.len() <= 1 {
    } else if points[points.len() - 1] <= q {
        if s < points.len() - 1 {
            assert(points[s + 1] <= points[points.len() - 1]);
        }
    } else {
        let sub = points.drop_last();
        assert(sorted_lt(sub)) by {
            assert(forall|i: int, j: int| 0 <= i < j < sub.len() ==> sub[i] == points[i] && sub[j] == points[j]);
        }
        assert(s < points.len() - 1);
        lemma_seg_of_unique(sub, q, s);
    }
}

/// Integral of the coverage curve from `points[0]` to `q`, for `q` within
/// the breakpoint span.
pub open spec fn cum_at(rep: LongNoteRepresentation, q: int) -> int {
    let s = seg_of(rep.points@, q);
    rep.cumulative_sum@[s] + (q - rep.points@[s]) * rep.values@[s]
}

/// The interval sum of the coverage curve over `[a, b]`, in
/// twentieth-milliseconds.
pub open spec fn ln_sum_spec(rep: LongNoteRepresentation, a: int, b: int) -> int {
    cum_at(rep, b) - cum_at(rep, a)
}

/// The running integral is monotone.
pub proof fn lemma_cumsum_monotone(rep: LongNoteRepresentation, i: int, j: int)
    requires
        wf_ln_rep(rep),
        0 <= i <= j < rep.cumulative_sum@.len(),
    ensures
        rep.cumulative_sum@[i] <= rep.cumulative_sum@[j],
    decreases j - i,
{
    if i < j {
        lemma_cumsum_monotone(rep, i, j - 1);
        let w = j - 1;
        assert(rep.cumulative_sum@[w + 1] == rep.cumulative_sum@[w]
            + (rep.points@[w + 1] - rep.points@[w]) * rep.values@[w]);
        assert(rep.points@[w + 1] - rep.points@[w] >= 0);
        assert((rep.points@[w + 1] - rep.points@[w]) * rep.values@[w] >= 0) by (nonlinear_arith)
            requires
                rep.points@[w + 1] - rep.points@[w] >= 0,
                rep.values@[w] >= 0,
        ;
    }
}

/// At a breakpoint the integral equals the stored running sum.
pub proof fn lemma_cum_at_point(rep: LongNoteRepresentation, s: int)
    requires
        wf_ln_rep(rep),
        0 <= s < rep.points@.len(),
    ensures
        cum_at(rep, rep.points@[s] as int) == rep.cumulative_sum@[s],
{
    let q = rep.points@[s] as int;
    lemma_seg_of_unique(rep.points@, q, s);
    assert(seg_of(rep.points@, q) == s);
    assert(q - rep.points@[s] == 0);
    assert((q - rep.points@[s]) * rep.values@[s] == 0) by (nonlinear_arith)
        requires
            q - rep.points@[s] == 0,
    ;
}

/// The integral is monotone in the query point.
pub proof fn lemma_cum_at_monotone(rep: LongNoteRepresentation, x: int, y: int)
    requires
        wf_ln_rep(rep),
        rep.points@[0] <= x <= y <= rep.points@[rep.points@.len() - 1],
    ensures
        cum_at(rep, x) <= cum_at(rep, y),
{
    let points = rep.points@;
    let n = points.len() as int;
    let i = seg_of(points, x);
    let j = seg_of(points, y);
    lemma_seg_of_props(points, x);
    lemma_seg_of_props(points, y);
    if j < i {
        assert(points[j + 1] <= points[i]);
        assert(false);
    }
    if i == j {
        if i == n - 1 {
            assert(x == points[n - 1] && y == points[n - 1]);
        } else {
            assert((y - points[i]) * rep.values@[i] >= (x - points[i]) * rep.values@[i])
                by (nonlinear_arith)
                requires
                    x <= y,
                    rep.values@[i] >= 0,
            ;
        }
    } else {
        assert(i < n - 1);
        assert(x < points[i + 1]);
        assert(cum_at(rep, x) <= rep.cumulative_sum@[i + 1]) by {
            assert((x - points[i]) * rep.values@[i] <= (points[i + 1] - points[i]) * rep.values@[i])
                by (nonlinear_arith)
                requires
                    x <= points[i + 1],
                    rep.values@[i] >= 0,
            ;
        }
        lemma_cumsum_monotone(rep, i + 1, j);
        assert(rep.cumulative_sum@[j] <= cum_at(rep, y)) by {
            if j == n - 1 {
                assert(y == points[n - 1]);
            } else {
                assert((y - points[j]) * rep.values@[j] >= 0) by (nonlinear_arith)
                    requires
                        y >= points[j],
                        rep.values@[j] >= 0,
                ;
            }
        }
    }
}

/// The integral stays within `[0, cumulative_sum[last]]` on the span.
pub proof fn lemma_cum_at_bounds(rep: LongNoteRepresentation, q: int)
    requires
        wf_ln_rep(rep),
        rep.points@[0] <= q <= rep.points@[rep.points@.len() - 1],
    ensures
        0 <= cum_at(rep, q) <= rep.cumulative_sum@[rep.points@.len() - 1],
{
    lemma_cum_at_point(rep, 0);
    lemma_cum_at_point(rep, rep.points@.len() - 1);
    lemma_cum_at_monotone(rep, rep.points@[0] as int, q);
    lemma_cum_at_monotone(rep, q, rep.points@[rep.points@.len() - 1] as int);
}

/// Interval sums are additive: for `a <= b <= c` within the breakpoint
/// span, the sum over `[a, c]` is the sum over `[a, b]` plus the sum over
/// `[b, c]`.
pub proof fn lemma_ln_sum_additive(rep: LongNoteRepresentation, a: int, b: int, c: int)
    requires
        wf_ln_rep(rep),
        rep.points@[0] <= a <= b <= c <= rep.points@[rep.points@.len() - 1],
    ensures
        ln_sum_spec(rep, a, c) == ln_sum_spec(rep, a, b) + ln_sum_spec(rep, b, c),
{
}

proof fn lemma_cumsum_constant(rep: LongNoteRepresentation, c: int, s: int)
    requires
        wf_ln_rep(rep),
        forall|i: int| 0 <= i < rep.values@.len() ==> #[trigger] rep.values@[i] == c,
        0 <= s < rep.points@.len(),
    ensures
        rep.cumulative_sum@[s] == c * (rep.points@[s] - rep.points@[0]),
    decreases s,
{
    if s == 0 {
        assert(c * 0 == 0) by (nonlinear_arith);
    } else {
        lemma_cumsum_constant(rep, c, s - 1);
        let w = s - 1;
        assert(rep.cumulative_sum@[w + 1] == rep.cumulative_sum@[w]
            + (rep.points@[w + 1] - rep.points@[w]) * rep.values@[w]);
        assert(c * (rep.points@[w] - rep.points@[0])
            + (rep.points@[w + 1] - rep.points@[w]) * c
            == c * (rep.points@[w + 1] - rep.points@[0])) by (nonlinear_arith);
    }
}

/// On a representation whose coverage is the constant `c`, the interval
/// sum over `[a, b]` is exactly `c * (b - a)`: the closed-form check of
/// the windowed-integration primitive on a constant signal.
pub proof fn lemma_ln_sum_constant(rep: LongNoteRepresentation, c: int, a: int, b: int)
    requires
        wf_ln_rep(rep),
        forall|i: int| 0 <= i < rep.values@.len() ==> #[trigger] rep.values@[i] == c,
        rep.points@[0] <= a <= b <= rep.points@[rep.points@.len() - 1],
    ensures
        ln_sum_spec(rep, a, b) == c * (b - a),
{
    lemma_cum_at_constant(rep, c, a);
    lemma_cum_at_constant(rep, c, b);
    assert(c * (b - rep.points@[0]) - c * (a - rep.points@[0]) == c * (b - a)) by (nonlinear_arith);
}

proof fn lemma_cum_at_constant(rep: LongNoteRepresentation, c: int, q: int)
    requires
        wf_ln_rep(rep),
        forall|i: int| 0 <= i < rep.values@.len() ==> #[trigger] rep.values@[i] == c,
        rep.points@[0] <= q <= rep.points@[rep.points@.len() - 1],
    ensures
        cum_at(rep, q) == c * (q - rep.points@[0]),
{
    let points = rep.points@;
    let n = points.len() as int;
    let s = seg_of(points, q);
    lemma_seg_of_props(points, q);
    lemma_cumsum_constant(rep, c, s);
    if s == n - 1 {
        assert(q == points[n - 1]);
        assert((q - points[s]) * rep.values@[s] == 0) by (nonlinear_arith)
            requires
                q - points[s] == 0,
        ;
    } else {
        assert(rep.values@[s] == c);
        assert(c * (points[s] - points[0]) + (q - points[s]) * c == c * (q - points[0]))
            by (nonlinear_arith);
    }
}

/// Time at which a hold's coverage rises to its full starting weight:
/// 60 ms after the head, clipped at the tail.
pub open spec fn hold_rise_time(n: Note) -> int {
    if n.hit_time + 60 <= n.tail_time {
        n.hit_time + 60
    } else {
        n.tail_time as int
    }
}

/// Time at which a hold's coverage eases to its sustained weight:
/// 120 ms after the head, clipped at the tail.
pub open spec fn hold_settle_time(n: Note) -> int {
    if n.hit_time + 120 <= n.tail_time {
        n.hit_time + 120
    } else {
        n.tail_time as int
    }
}

/// Coverage contribution of one hold at time `q`, in twentieths: 26 from
/// its rise to its settle time, 20 from then to its tail, 0 elsewhere.
pub open spec fn note_coverage_at(n: Note, q: int) -> int {
    (if hold_rise_time(n) <= q { 26int } else { 0int })
        + (if hold_settle_time(n) <= q { -6int } else { 0int })
        + (if n.tail_time <= q { -20int } else { 0int })
}

/// Summed coverage of the first `j` holds at time `q`.
pub open spec fn raw_coverage_prefix(notes: Seq<Note>, j: int, q: int) -> int
    decreases j,
{
    if j <= 0 {
        0
    } else {
        raw_coverage_prefix(notes, j - 1, q) + note_coverage_at(notes[j - 1], q)
    }
}

/// Summed coverage of all holds at time `q`, in twentieths.
pub open spec fn raw_coverage(notes: Seq<Note>, q: int) -> int {
    raw_coverage_prefix(notes, notes.len() as int, q)
}

/// The cap applied to the summed coverage: `min(c, 2.5 + c/2)` in
/// twentieths.
pub open spec fn capped_coverage(c: int) -> int {
    if c <= 50 + c / 2 {
        c
    } else {
        50 + c / 2
    }
}

/// `y` is a breakpoint contributed by note `n`.
pub open spec fn ln_event_of(n: Note, y: int) -> bool {
    y == hold_rise_time(n) || y == hold_settle_time(n) || y == n.tail_time
}

/// `y` is a breakpoint of the coverage curve over the first `k` notes: 0,
/// the total duration `t`, or an event of one of those notes.
pub open spec fn in_ln_points_prefix(notes: Seq<Note>, k: int, t: int, y: int) -> bool {
    y == 0 || y == t || exists|j: int| 0 <= j < k && ln_event_of(#[trigger] notes[j], y)
}

/// `y` is a breakpoint of the chart's coverage curve.
pub open spec fn in_ln_points(notes: Seq<Note>, t: int, y: int) -> bool {
    in_ln_points_prefix(notes, notes.len() as int, t, y)
}

/// Every timestamp of the note lies within the 32-bit millisecond range
/// that chart files can express.
pub open spec fn note_times_small(n: Note) -> bool {
    &&& -0x8000_0000 <= n.hit_time <= 0x8000_0000
    &&& -0x8000_0000 <= n.tail_time <= 0x8000_0000
}

proof fn lemma_note_coverage_bounds(n: Note, q: int)
    ensures
        0 <= note_coverage_at(n, q) <= 26,
{
}

proof fn lemma_raw_prefix_bounds(notes: Seq<Note>, j: int, q: int)
    requires
        0 <= j <= notes.len(),
    ensures
        0 <= raw_coverage_prefix(notes, j, q) <= 26 * j,
    decreases j,
{
    if j > 0 {
        lemma_raw_prefix_bounds(notes, j - 1, q);
        lemma_note_coverage_bounds(notes[j - 1], q);
    }
}

/// Summed coverage of all holds at time `p`, computed by one sweep.
fn raw_coverage_at(notes: &Vec<Note>, p: i64) -> (c: i64)
    requires
        notes@.len() <= 0x0100_0000,
        forall|j: int| 0 <= j < notes@.len() ==> note_times_small(#[trigger] notes@[j]),
    ensures
        c == raw_coverage(notes@, p as int),
        0 <= c <= 26 * notes@.len(),
{
    let mut c: i64 = 0;
    let mut j: usize = 0;
    while j < notes.len()
        invariant
            j <= notes@.len(),
            notes@.len() <= 0x0100_0000,
            forall|j2: int| 0 <= j2 < notes@.len() ==> note_times_small(#[trigger] notes@[j2]),
            c == raw_coverage_prefix(notes@, j as int, p as int),
            0 <= c <= 26 * j,
        decreases notes@.len() - j,
    {
        proof {
            lemma_raw_prefix_bounds(notes@, j as int, p as int);
            lemma_note_coverage_bounds(notes@[j as int], p as int);
        }
        let n = notes[j];
        let rise: i64 = if n.hit_time + 60 <= n.tail_time { n.hit_time + 60 } else { n.tail_time };
        let settle: i64 = if n.hit_time + 120 <= n.tail_time { n.hit_time + 120 } else { n.tail_time };
        let d: i64 = if n.tail_time <= p {
            0
        } else if settle <= p {
            20
        } else if rise <= p {
            26
        } else {
            0
        };
        assert(d == note_coverage_at(n, p as int));
        c = c + d;
        j = j + 1;
    }
    c
}

/// Builds the sparse coverage representation of the hold bodies of a
/// chart: breakpoints at each hold's rise, settle and tail times plus 0
/// and `t`, the capped summed coverage on each segment, and its running
/// integral.
pub fn ln_bodies_count_sparse_representation(long_notes: &Vec<Note>, t: i64) -> (r: LongNoteRepresentation)
    requires
        long_notes@.len() <= 0x0100_0000,
        forall|j: int| 0 <= j < long_notes@.len() ==> note_times_small(#[trigger] long_notes@[j]),
        -0x8000_0000 <= t <= 0x8000_0000,
    ensures
        wf_ln_rep(r),
        forall|y: i64| r.points@.contains(y) <==> in_ln_points(long_notes@, t as int, y as int),
        r.points@.contains(0) && r.points@.contains(t),
        forall|i: int| 0 <= i < r.values@.len() ==>
            #[trigger] r.values@[i] == capped_coverage(raw_coverage(long_notes@, r.points@[i] as int)),
{
    let mut points: Vec<i64> = Vec::new();
    insert_sorted_unique(&mut points, 0);
    insert_sorted_unique(&mut points, t);
    assert forall|y: i64| points@.contains(y) implies in_ln_points_prefix(long_notes@, 0, t as int, y as int) by {}
    let mut j: usize = 0;
    while j < long_notes.len()
        invariant
            j <= long_notes@.len(),
            sorted_lt(points@),
            long_notes@.len() <= 0x0100_0000,
            forall|j2: int| 0 <= j2 < long_notes@.len() ==> note_times_small(#[trigger] long_notes@[j2]),
            -0x8000_0000 <= t <= 0x8000_0000,
            forall|y: i64| points@.contains(y) <==> in_ln_points_prefix(long_notes@, j as int, t as int, y as int),
        decreases long_notes@.len() - j,
    {
        let ghost p = j as int;
        let ghost before = points@;
        let n = long_notes[j];
        let rise: i64 = if n.hit_time + 60 <= n.tail_time { n.hit_time + 60 } else { n.tail_time };
        let settle: i64 = if n.hit_time + 120 <= n.tail_time { n.hit_time + 120 } else { n.tail_time };
        assert(rise == hold_rise_time(n) && settle == hold_settle_time(n));
        insert_sorted_unique(&mut points, rise);
        insert_sorted_unique(&mut points, settle);
        insert_sorted_unique(&mut points, n.tail_time);
        assert forall|y: i64| points@.contains(y) implies
            in_ln_points_prefix(long_notes@, p + 1, t as int, y as int) by {
            if before.contains(y) {
                if !(y == 0 || y == t) {
                    let w = choose|w: int| 0 <= w < p && ln_event_of(#[trigger] long_notes@[w], y as int);
                    assert(0 <= w < p + 1 && ln_event_of(long_notes@[w], y as int));
                }
            } else {
                assert(ln_event_of(long_notes@[p], y as int));
            }
        }
        assert forall|y: i64| in_ln_points_prefix(long_notes@, p + 1, t as int, y as int) implies
            points@.contains(y) by {
            if !in_ln_points_prefix(long_notes@, p, t as int, y as int) {
                let w = choose|w: int| 0 <= w < p + 1 && ln_event_of(#[trigger] long_notes@[w], y as int);
                assert(w == p);
            } else {
                assert(before.contains(y));
            }
        }
        j = j + 1;
    }

    assert(points@.contains(0) && points@.contains(t));
    assert forall|i: int| 0 <= i < points@.len() implies
        -0x8000_0000 <= #[trigger] points@[i] <= 0x8000_0000 by {
        assert(points@.contains(points@[i]));
        let y = points@[i] as int;
        if !(y == 0 || y == t as int) {
            let w = choose|w: int| 0 <= w < long_notes@.len()
                && ln_event_of(#[trigger] long_notes@[w], y);
            assert(note_times_small(long_notes@[w]));
        }
    }

    let m = points.len();
    let mut values: Vec<i64> = Vec::new();
    let mut cumulative_sum: Vec<i64> = Vec::new();
    cumulative_sum.push(0);
    let mut i: usize = 0;
    while i < m - 1
        invariant
            i <= m - 1,
            m == points@.len(),
            m >= 1,
            sorted_lt(points@),
            long_notes@.len() <= 0x0100_0000,
            forall|j2: int| 0 <= j2 < long_notes@.len() ==> note_times_small(#[trigger] long_notes@[j2]),
            forall|i2: int| 0 <= i2 < points@.len() ==> -0x8000_0000 <= #[trigger] points@[i2] <= 0x8000_0000,
            values@.len() == i,
            cumulative_sum@.len() == i + 1,
            cumulative_sum@[0] == 0,
            forall|w: int| 0 <= w < values@.len() ==> 0 <= #[trigger] values@[w] <= 0x1a00_0000,
            forall|w: int| 0 <= w < values@.len() ==> #[trigger] cumulative_sum@[w + 1]
                == cumulative_sum@[w] + (points@[w + 1] - points@[w]) * values@[w],
            forall|w: int| 0 <= w < values@.len() ==>
                #[trigger] values@[w] == capped_coverage(raw_coverage(long_notes@, points@[w] as int)),
            0 <= cumulative_sum@[i as int]
                <= (points@[i as int] - points@[0]) * 0x1a00_0000,
        decreases m - 1 - i,
    {
        let c = raw_coverage_at(long_notes, points[i]);
        let v: i64 = if c <= 50 + c / 2 { c } else { 50 + c / 2 };
        assert(v == capped_coverage(c as int));
        assert(0 <= v <= 0x1a00_0000);
        let seg: i64 = points[i + 1] - points[i];
        let ghost cum_i = cumulative_sum@[i as int] as int;
        assert(0 < seg <= points@[i + 1] - points@[0]);
        assert(seg * v >= 0 && seg * v <= (points@[i + 1] - points@[i as int]) * 0x1a00_0000)
            by (nonlinear_arith)
            requires
                0 < seg,
                0 <= v <= 0x1a00_0000,
                seg == points@[i + 1] - points@[i as int],
        ;
        assert(cum_i + seg * v <= (points@[i + 1] - points@[0]) * 0x1a00_0000) by (nonlinear_arith)
            requires
                cum_i <= (points@[i as int] - points@[0]) * 0x1a00_0000,
                seg * v <= (points@[i + 1] - points@[i as int]) * 0x1a00_0000,
        ;
        assert((points@[i + 1] - points@[0]) * 0x1a00_0000 <= 0x1_0000_0000 * 0x1a00_0000)
            by (nonlinear_arith)
            requires
                points@[i + 1] - points@[0] <= 0x1_0000_0000,
        ;
        let prev = cumulative_sum[i];
        let next = prev + seg * v;
        values.push(v);
        cumulative_sum.push(next);
        i = i + 1;
    }

    let r = LongNoteRepresentation { points, cumulative_sum, values };
    assert(wf_ln_rep(r)) by {
        assert(r.points@[r.points@.len() - 1] - r.points@[0] <= i64::MAX);
    }
    r
}

/// Interval sum of the hold-body coverage over `[a, b]`, in
/// twentieth-milliseconds: two segment lookups and a difference of the
/// running integral.
pub fn ln_sum(a: i64, b: i64, rep: &LongNoteRepresentation) -> (r: i64)
    requires
        wf_ln_rep(*rep),
        rep.points@[0] <= a <= b,
        b < rep.points@[rep.points@.len() - 1],
    ensures
        r == ln_sum_spec(*rep, a as int, b as int),
        r >= 0,
{
    let ghost points = rep.points@;
    let ghost n = points.len() as int;
    proof {
        lemma_cum_at_monotone(*rep, a as int, b as int);
        lemma_cum_at_bounds(*rep, a as int);
        lemma_cum_at_bounds(*rep, b as int);
    }
    let i_raw = upper_bound(rep.points.as_slice(), a);
    let i = if i_raw == 0 { 0 } else { i_raw - 1 };
    let j_raw = upper_bound(rep.points.as_slice(), b);
    let j = if j_raw == 0 { 0 } else { j_raw - 1 };
    proof {
        assert(i_raw >= 1) by {
            if i_raw == 0 {
                assert(points[0] > a);
            }
        }
        assert(j_raw >= 1) by {
            if j_raw == 0 {
                assert(points[0] > b);
            }
        }
        lemma_seg_of_unique(points, a as int, i as int);
        lemma_seg_of_unique(points, b as int, j as int);
        assert(j < n - 1) by {
            if j == n - 1 {
                assert(points[j as int] <= b);
            }
        }
    }
    if i == j {
        proof {
            assert((b - a) * rep.values@[i as int]
                == cum_at(*rep, b as int) - cum_at(*rep, a as int)) by (nonlinear_arith)
                requires
                    cum_at(*rep, a as int) == rep.cumulative_sum@[i as int]
                        + (a - rep.points@[i as int]) * rep.values@[i as int],
                    cum_at(*rep, b as int) == rep.cumulative_sum@[i as int]
                        + (b - rep.points@[i as int]) * rep.values@[i as int],
            ;
        }
        (b - a) * rep.values[i]
    } else {
        proof {
            lemma_cum_at_point(*rep, i + 1);
            lemma_cum_at_point(*rep, j as int);
            lemma_cum_at_monotone(*rep, a as int, points[i + 1] as int);
            lemma_cum_at_monotone(*rep, points[i + 1] as int, points[j as int] as int);
            lemma_cum_at_monotone(*rep, points[j as int] as int, b as int);
            assert((rep.points@[i + 1] - a) * rep.values@[i as int]
                == rep.cumulative_sum@[i + 1] - cum_at(*rep, a as int)) by (nonlinear_arith)
                requires
                    cum_at(*rep, a as int) == rep.cumulative_sum@[i as int]
                        + (a - rep.points@[i as int]) * rep.values@[i as int],
                    rep.cumulative_sum@[i + 1] == rep.cumulative_sum@[i as int]
                        + (rep.points@[i + 1] - rep.points@[i as int]) * rep.values@[i as int],
            ;
            assert((b - rep.points@[j as int]) * rep.values@[j as int]
                == cum_at(*rep, b as int) - rep.cumulative_sum@[j as int]);
        }
        let mut total: i64 = (rep.points[i + 1] - a) * rep.values[i];
        if j > i + 1 {
            proof {
                lemma_cumsum_monotone(*rep, i + 1, j as int);
            }
            total = total + (rep.cumulative_sum[j] - rep.cumulative_sum[i + 1]);
        }
        total = total + (b - rep.points[j]) * rep.values[j];
        total
    }
}

/// On a constant coverage curve, a window of half-width `w` that lies
/// inside the breakpoint span integrates to exactly twice `w` times the
/// value: the closed-form check of the windowed smoothing primitive on a
/// constant signal.
pub proof fn lemma_constant_window_sum(rep: LongNoteRepresentation, c: int, s: int, w: int)
    requires
        wf_ln_rep(rep),
        forall|i: int| 0 <= i < rep.values@.len() ==> #[trigger] rep.values@[i] == c,
        w >= 0,
        rep.points@[0] <= s - w,
        s + w <= rep.points@[rep.points@.len() - 1],
    ensures
        ln_sum_spec(rep, s - w, s + w) == c * 2 * w,
{
    lemma_ln_sum_constant(rep, c, s - w, s + w);
    assert(c * ((s + w) - (s - w)) == c * 2 * w) by (nonlinear_arith);
}

/// On a chart with no holds the coverage curve is zero everywhere.
pub proof fn lemma_empty_chart_coverage(notes: Seq<Note>, q: int)
    requires
        notes.len() == 0,
    ensures
        raw_coverage(notes, q) == 0,
        capped_coverage(raw_coverage(notes, q)) == 0,
{
}

} // verus!
