//! The parsed chart: its notes, their per-column groupings, and the
//! normalization steps that put a chart into the shape the rating pipeline
//! consumes.

use vstd::prelude::*;

use vstd::string::StringSliceAdditionalSpecFns;

use crate::note::Note;

verus! {

/// Note `a` sorts at or before note `b` by `(hit_time, column)`.
pub open spec fn note_le(a: Note, b: Note) -> bool {
    a.hit_time < b.hit_time || (a.hit_time == b.hit_time && a.column <= b.column)
}

/// The sequence is sorted by `(hit_time, column)`.
pub open spec fn sorted_by_hit_col(s: Seq<Note>) -> bool {
    forall|i: int, j: int| 0 <= i < j < s.len() ==> note_le(#[trigger] s[i], #[trigger] s[j])
}

/// Note `a` sorts at or before note `b` by tail time.
pub open spec fn tail_le(a: Note, b: Note) -> bool {
    a.tail_time <= b.tail_time
}

/// The sequence is sorted by tail time.
pub open spec fn sorted_by_tail(s: Seq<Note>) -> bool {
    forall|i: int, j: int| 0 <= i < j < s.len() ==> tail_le(#[trigger] s[i], #[trigger] s[j])
}

/// Selects the notes of one column.
pub open spec fn col_pred(col: int) -> spec_fn(Note) -> bool {
    |n: Note| n.column == col
}

/// Selects the holds.
pub open spec fn hold_pred() -> spec_fn(Note) -> bool {
    |n: Note| n.is_hold()
}

/// Largest timestamp (hit or tail) of the notes; 0 when there are none.
pub open spec fn chart_span(notes: Seq<Note>) -> int
    decreases notes.len(),
{
    if notes.len() == 0 {
        0
    } else {
        let rest = chart_span(notes.drop_last());
        let last = notes.last();
        let m = if last.tail_time >= last.hit_time { last.tail_time as int } else { last.hit_time as int };
        if notes.len() == 1 || m >= rest {
            m
        } else {
            rest
        }
    }
}

/// A parsed chart in the shape the rating pipeline consumes.
#[derive(Debug, Clone)]
pub struct MapData {
    /// Number of columns in the chart.
    pub column_count: usize,
    /// Total duration in milliseconds.
    pub total_duration: i64,
    /// All notes, sorted by `(hit_time, column)`.
    pub notes: Vec<Note>,
    /// Notes organized by column.
    pub notes_by_column: Vec<Vec<Note>>,
    /// Holds only.
    pub long_notes: Vec<Note>,
    /// Holds sorted by tail time.
    pub tail_sequence: Vec<Note>,
    /// Holds organized by column.
    pub long_notes_by_column: Vec<Vec<Note>>,
}

impl MapData {
    /// Creates an empty chart.
    pub fn new() -> (r: MapData)
        ensures
            r.column_count == 0,
            r.total_duration == 0,
            r.notes@.len() == 0,
            r.notes_by_column@.len() == 0,
            r.long_notes@.len() == 0,
            r.tail_sequence@.len() == 0,
            r.long_notes_by_column@.len() == 0,
    {
        MapData {
            column_count: 0,
            total_duration: 0,
            notes: Vec::new(),
            notes_by_column: Vec::new(),
            long_notes: Vec::new(),
            tail_sequence: Vec::new(),
            long_notes_by_column: Vec::new(),
        }
    }

    /// Total number of notes.
    pub fn note_count(&self) -> (r: usize)
        ensures
            r == self.notes@.len(),
    {
        self.notes.len()
    }

    /// Number of holds.
    pub fn long_note_count(&self) -> (r: usize)
        ensures
            r == self.long_notes@.len(),
    {
        self.long_notes.len()
    }

    /// Number of taps.
    pub fn simple_note_count(&self) -> (r: usize)
        requires
            self.long_notes@.len() <= self.notes@.len(),
        ensures
            r == self.notes@.len() - self.long_notes@.len(),
    {
        self.note_count() - self.long_note_count()
    }
}

impl Default for MapData {
    /// The empty chart.
    fn default() -> (r: MapData)
        ensures
            r.column_count == 0,
            r.total_duration == 0,
            r.notes@.len() == 0,
    {
        MapData::new()
    }
}

/// Inserts a note into a vector sorted by `(hit_time, column)`, keeping it
/// sorted; equal keys go after the ones already present.
fn insert_note_by_hit_col(v: &mut Vec<Note>, x: Note)
    requires
        sorted_by_hit_col(old(v)@),
    ensures
        sorted_by_hit_col(final(v)@),
        final(v)@.to_multiset() == old(v)@.to_multiset().insert(x),
        final(v)@.len() == old(v)@.len() + 1,
{
    let mut lo: usize = 0;
    let mut hi: usize = v.len();
    while lo < hi
        invariant
            lo <= hi <= v@.len(),
            sorted_by_hit_col(v@),
            forall|j: int| 0 <= j < lo ==> note_le(#[trigger] v@[j], x),
            forall|j: int| hi <= j < v@.len() ==> !note_le(#[trigger] v@[j], x),
        decreases hi - lo,
    {
        let mid = lo + (hi - lo) / 2;
        let m = v[mid];
        if m.hit_time < x.hit_time || (m.hit_time == x.hit_time && m.column <= x.column) {
            lo = mid + 1;
        } else {
            hi = mid;
        }
    }
    let ghost oldv = v@;
    let i = lo;
    v.insert(i, x);
    proof {
        vstd::seq_lib::to_multiset_insert(oldv, i as int, x);
        assert forall|p: int, q: int| 0 <= p < q < v@.len() implies note_le(v@[p], v@[q]) by {
            if p < i && q == i {
                assert(note_le(oldv[p], x));
            } else if p == i && q > i {
                assert(!note_le(oldv[q - 1], x));
            } else if p < i && q > i {
                assert(v@[p] == oldv[p] && v@[q] == oldv[q - 1]);
            } else if p > i {
                assert(v@[p] == oldv[p - 1] && v@[q] == oldv[q - 1]);
            }
        }
    }
}

/// Inserts a note into a vector sorted by tail time, keeping it sorted.
fn insert_note_by_tail(v: &mut Vec<Note>, x: Note)
    requires
        sorted_by_tail(old(v)@),
    ensures
        sorted_by_tail(final(v)@),
        final(v)@.to_multiset() == old(v)@.to_multiset().insert(x),
        final(v)@.len() == old(v)@.len() + 1,
{
    let mut lo: usize = 0;
    let mut hi: usize = v.len();
    while lo < hi
        invariant
            lo <= hi <= v@.len(),
            sorted_by_tail(v@),
            forall|j: int| 0 <= j < lo ==> tail_le(#[trigger] v@[j], x),
            forall|j: int| hi <= j < v@.len() ==> !tail_le(#[trigger] v@[j], x),
        decreases hi - lo,
    {
        let mid = lo + (hi - lo) / 2;
        let m = v[mid];
        if m.tail_time <= x.tail_time {
            lo = mid + 1;
        } else {
            hi = mid;
        }
    }
    let ghost oldv = v@;
    let i = lo;
    v.insert(i, x);
    proof {
        vstd::seq_lib::to_multiset_insert(oldv, i as int, x);
        assert forall|p: int, q: int| 0 <= p < q < v@.len() implies tail_le(v@[p], v@[q]) by {
            if p < i && q == i {
                assert(tail_le(oldv[p], x));
            } else if p == i && q > i {
                assert(!tail_le(oldv[q - 1], x));
            } else if p < i && q > i {
                assert(v@[p] == oldv[p] && v@[q] == oldv[q - 1]);
            } else if p > i {
                assert(v@[p] == oldv[p - 1] && v@[q] == oldv[q - 1]);
            }
        }
    }
}

/// Filtering a sequence extended by one element keeps the filtered prefix
/// and appends the element exactly when it passes.
proof fn lemma_filter_push<A>(s: Seq<A>, x: A, pred: spec_fn(A) -> bool)
    ensures
        s.push(x).filter(pred) == if pred(x) {
            s.filter(pred).push(x)
        } else {
            s.filter(pred)
        },
{
    reveal(Seq::filter);
    assert(s.push(x).drop_last() =~= s);
    assert(s.push(x).last() == x);
}

/// Collects, in order, the notes that satisfy a predicate decided by
/// whether the note's column equals `col`.
fn notes_of_column(notes: &Vec<Note>, col: usize) -> (r: Vec<Note>)
    ensures
        r@ == notes@.filter(col_pred(col as int)),
{
    let mut out: Vec<Note> = Vec::new();
    let mut j: usize = 0;
    proof {
        reveal(Seq::filter);
        assert(notes@.subrange(0, 0) =~= Seq::<Note>::empty());
    }
    while j < notes.len()
        invariant
            j <= notes@.len(),
            out@ == notes@.subrange(0, j as int).filter(col_pred(col as int)),
        decreases notes@.len() - j,
    {
        let ghost prefix = notes@.subrange(0, j as int);
        proof {
            lemma_filter_push(prefix, notes@[j as int], col_pred(col as int));
            assert(prefix.push(notes@[j as int]) =~= notes@.subrange(0, j + 1));
        }
        let n = notes[j];
        if n.column == col {
            out.push(n);
        }
        j = j + 1;
    }
    proof {
        assert(notes@.subrange(0, notes@.len() as int) =~= notes@);
    }
    out
}

/// Collects, in order, the holds.
fn holds_of(notes: &Vec<Note>) -> (r: Vec<Note>)
    ensures
        r@ == notes@.filter(hold_pred()),
{
    let mut out: Vec<Note> = Vec::new();
    let mut j: usize = 0;
    proof {
        reveal(Seq::filter);
        assert(notes@.subrange(0, 0) =~= Seq::<Note>::empty());
    }
    while j < notes.len()
        invariant
            j <= notes@.len(),
            out@ == notes@.subrange(0, j as int).filter(hold_pred()),
        decreases notes@.len() - j,
    {
        let ghost prefix = notes@.subrange(0, j as int);
        proof {
            lemma_filter_push(prefix, notes@[j as int], hold_pred());
            assert(prefix.push(notes@[j as int]) =~= notes@.subrange(0, j + 1));
        }
        let n = notes[j];
        if n.is_long_note() {
            out.push(n);
        }
        j = j + 1;
    }
    proof {
        assert(notes@.subrange(0, notes@.len() as int) =~= notes@);
    }
    out
}

/// Sorts the chart's notes by `(hit_time, column)` and rebuilds every
/// derived grouping from them: the per-column lists, the holds, the
/// tail-sorted holds and the per-column holds.
pub fn rebuild_groupings(map_data: &mut MapData)
    ensures
        final(map_data).column_count == old(map_data).column_count,
        final(map_data).total_duration == old(map_data).total_duration,
        sorted_by_hit_col(final(map_data).notes@),
        final(map_data).notes@.to_multiset() == old(map_data).notes@.to_multiset(),
        final(map_data).notes@.len() == old(map_data).notes@.len(),
        final(map_data).notes_by_column@.len() == final(map_data).column_count,
        forall|col: int| 0 <= col < final(map_data).column_count ==>
            (#[trigger] final(map_data).notes_by_column@[col])@
                == final(map_data).notes@.filter(col_pred(col)),
        final(map_data).long_notes@ == final(map_data).notes@.filter(hold_pred()),
        sorted_by_tail(final(map_data).tail_sequence@),
        final(map_data).tail_sequence@.to_multiset() == final(map_data).long_notes@.to_multiset(),
        final(map_data).long_notes_by_column@.len() == final(map_data).column_count,
        forall|col: int| 0 <= col < final(map_data).column_count ==>
            (#[trigger] final(map_data).long_notes_by_column@[col])@
                == final(map_data).long_notes@.filter(col_pred(col)),
{
    // Sort the notes by hit time, then column.
    let mut sorted: Vec<Note> = Vec::new();
    let mut j: usize = 0;
    proof {
        assert(old(map_data).notes@.subrange(0, 0) =~= Seq::<Note>::empty());
    }
    while j < map_data.notes.len()
        invariant
            j <= map_data.notes@.len(),
            map_data.notes@ == old(map_data).notes@,
            sorted_by_hit_col(sorted@),
            sorted@.to_multiset() == map_data.notes@.subrange(0, j as int).to_multiset(),
            sorted@.len() == j,
        decreases map_data.notes@.len() - j,
    {
        let ghost prefix = map_data.notes@.subrange(0, j as int);
        let n = map_data.notes[j];
        insert_note_by_hit_col(&mut sorted, n);
        proof {
            vstd::seq_lib::to_multiset_build(prefix, n);
            assert(prefix.push(n) =~= map_data.notes@.subrange(0, j + 1));
        }
        j = j + 1;
    }
    proof {
        assert(map_data.notes@.subrange(0, map_data.notes@.len() as int) =~= map_data.notes@);
    }
    map_data.notes = sorted;

    // Per-column grouping.
    let k = map_data.column_count;
    let mut by_column: Vec<Vec<Note>> = Vec::new();
    let mut col: usize = 0;
    while col < k
        invariant
            col <= k,
            by_column@.len() == col,
            forall|c: int| 0 <= c < col ==>
                (#[trigger] by_column@[c])@ == map_data.notes@.filter(col_pred(c)),
        decreases k - col,
    {
        let bucket = notes_of_column(&map_data.notes, col);
        by_column.push(bucket);
        col = col + 1;
    }
    map_data.notes_by_column = by_column;

    // Holds, in note order.
    map_data.long_notes = holds_of(&map_data.notes);

    // Holds sorted by tail time.
    let mut tails: Vec<Note> = Vec::new();
    let mut j: usize = 0;
    proof {
        assert(map_data.long_notes@.subrange(0, 0) =~= Seq::<Note>::empty());
    }
    while j < map_data.long_notes.len()
        invariant
            j <= map_data.long_notes@.len(),
            sorted_by_tail(tails@),
            tails@.to_multiset() == map_data.long_notes@.subrange(0, j as int).to_multiset(),
        decreases map_data.long_notes@.len() - j,
    {
        let ghost prefix = map_data.long_notes@.subrange(0, j as int);
        let n = map_data.long_notes[j];
        insert_note_by_tail(&mut tails, n);
        proof {
            vstd::seq_lib::to_multiset_build(prefix, n);
            assert(prefix.push(n) =~= map_data.long_notes@.subrange(0, j + 1));
        }
        j = j + 1;
    }
    proof {
        assert(map_data.long_notes@.subrange(0, map_data.long_notes@.len() as int)
            =~= map_data.long_notes@);
    }
    map_data.tail_sequence = tails;

    // Per-column holds.
    let mut ln_by_column: Vec<Vec<Note>> = Vec::new();
    let mut col: usize = 0;
    while col < k
        invariant
            col <= k,
            ln_by_column@.len() == col,
            forall|c: int| 0 <= c < col ==>
                (#[trigger] ln_by_column@[c])@ == map_data.long_notes@.filter(col_pred(c)),
        decreases k - col,
    {
        let bucket = notes_of_column(&map_data.long_notes, col);
        ln_by_column.push(bucket);
        col = col + 1;
    }
    map_data.long_notes_by_column = ln_by_column;
}

/// Recomputes the chart's total duration: one past its largest timestamp,
/// or 1 for an empty chart.
pub fn recompute_total_duration(map_data: &mut MapData)
    requires
        forall|i: int| 0 <= i < old(map_data).notes@.len() ==> {
            &&& (#[trigger] old(map_data).notes@[i]).hit_time < i64::MAX
            &&& old(map_data).notes@[i].tail_time < i64::MAX
        },
    ensures
        *final(map_data) == (MapData {
            total_duration: final(map_data).total_duration,
            ..*old(map_data)
        }),
        final(map_data).total_duration == chart_span(old(map_data).notes@) + 1,
{
    let mut best: i64 = 0;
    let mut j: usize = 0;
    proof {
        assert(map_data.notes@.subrange(0, 0) =~= Seq::<Note>::empty());
    }
    while j < map_data.notes.len()
        invariant
            j <= map_data.notes@.len(),
            map_data == old(map_data),
            forall|i: int| 0 <= i < map_data.notes@.len() ==> {
                &&& (#[trigger] map_data.notes@[i]).hit_time < i64::MAX
                &&& map_data.notes@[i].tail_time < i64::MAX
            },
            j > 0 ==> best == chart_span(map_data.notes@.subrange(0, j as int)),
            j == 0 ==> best == 0,
            best < i64::MAX,
        decreases map_data.notes@.len() - j,
    {
        let ghost prefix = map_data.notes@.subrange(0, j as int);
        let n = map_data.notes[j];
        let m = if n.tail_time >= n.hit_time { n.tail_time } else { n.hit_time };
        if j == 0 || m >= best {
            best = m;
        }
        proof {
            let ext = map_data.notes@.subrange(0, j + 1);
            assert(ext.drop_last() =~= prefix);
            assert(ext.last() == n);
        }
        j = j + 1;
    }
    proof {
        assert(map_data.notes@.subrange(0, map_data.notes@.len() as int) =~= map_data.notes@);
    }
    map_data.total_duration = best + 1;
}

/// The bytes of the double-time modifier name, `DT`.
pub open spec fn dt_tag() -> Seq<u8> {
    seq![0x44u8, 0x54]
}

/// The bytes of the half-time modifier name, `HT`.
pub open spec fn ht_tag() -> Seq<u8> {
    seq![0x48u8, 0x54]
}

/// A note with its times rescaled by `num / den`, floored; a tap keeps its
/// empty tail.
pub open spec fn time_scaled_note(n: Note, num: int, den: int) -> Note {
    Note {
        column: n.column,
        hit_time: ((n.hit_time * num) / den) as i64,
        tail_time: if n.is_hold() {
            ((n.tail_time * num) / den) as i64
        } else {
            n.tail_time
        },
    }
}

/// Floored division by a small positive divisor.
fn floor_div(a: i64, b: i64) -> (r: i64)
    requires
        1 <= b <= 16,
        -0x10_0000_0000 <= a <= 0x10_0000_0000,
    ensures
        r == a as int / b as int,
{
    if a >= 0 {
        a / b
    } else {
        let q = (-a + (b - 1)) / b;
        proof {
            let ai = a as int;
            let bi = b as int;
            vstd::arithmetic::div_mod::lemma_fundamental_div_mod(ai, bi);
            vstd::arithmetic::div_mod::lemma_mod_bound(ai, bi);
            let qa = ai / bi;
            let ra = ai % bi;
            assert((-qa) * bi == -(bi * qa)) by (nonlinear_arith);
            vstd::arithmetic::div_mod::lemma_fundamental_div_mod_converse(
                -ai + bi - 1, bi, -qa, bi - 1 - ra);
        }
        -q
    }
}

/// Applies a rate modifier to the chart's notes: `DT` rescales every
/// timestamp by 2/3, `HT` by 4/3, each floored; any other name leaves the
/// notes alone. The groupings are rebuilt separately.
pub fn apply_mods(map_data: &mut MapData, mod_name: &str)
    requires
        forall|i: int| 0 <= i < old(map_data).notes@.len() ==> {
            &&& -0x8000_0000 <= (#[trigger] old(map_data).notes@[i]).hit_time <= 0x8000_0000
            &&& -0x8000_0000 <= old(map_data).notes@[i].tail_time <= 0x8000_0000
        },
    ensures
        *final(map_data) == (MapData { notes: final(map_data).notes, ..*old(map_data) }),
        final(map_data).notes@.len() == old(map_data).notes@.len(),
        mod_name.spec_bytes() == dt_tag() ==> forall|i: int|
            0 <= i < old(map_data).notes@.len() ==> final(map_data).notes@[i]
                == time_scaled_note(#[trigger] old(map_data).notes@[i], 2, 3),
        mod_name.spec_bytes() == ht_tag() ==> forall|i: int|
            0 <= i < old(map_data).notes@.len() ==> final(map_data).notes@[i]
                == time_scaled_note(#[trigger] old(map_data).notes@[i], 4, 3),
        mod_name.spec_bytes() != dt_tag() && mod_name.spec_bytes() != ht_tag()
            ==> final(map_data).notes@ == old(map_data).notes@,
{
    let bs = mod_name.as_bytes();
    let is_dt = bs.len() == 2 && bs[0] == 0x44 && bs[1] == 0x54;
    let is_ht = !is_dt && bs.len() == 2 && bs[0] == 0x48 && bs[1] == 0x54;
    proof {
        if bs@.len() == 2 {
            assert(bs@ =~= seq![bs@[0], bs@[1]]);
        }
        if is_dt {
            assert(bs@ =~= dt_tag());
        } else {
            assert(bs@ != dt_tag());
        }
        if is_ht {
            assert(bs@ =~= ht_tag());
        } else if !is_dt {
            assert(bs@ != ht_tag());
        }
    }
    if !is_dt && !is_ht {
        return;
    }
    let num: i64 = if is_dt { 2 } else { 4 };
    let ghost numg = num as int;
    let n = map_data.notes.len();
    let mut i: usize = 0;
    while i < n
        invariant
            i <= n,
            n == map_data.notes@.len(),
            map_data.notes@.len() == old(map_data).notes@.len(),
            *map_data == (MapData { notes: map_data.notes, ..*old(map_data) }),
            1 <= num <= 4,
            numg == num,
            forall|j: int| 0 <= j < old(map_data).notes@.len() ==> {
                &&& -0x8000_0000 <= (#[trigger] old(map_data).notes@[j]).hit_time <= 0x8000_0000
                &&& -0x8000_0000 <= old(map_data).notes@[j].tail_time <= 0x8000_0000
            },
            forall|j: int| 0 <= j < i ==> map_data.notes@[j]
                == time_scaled_note(#[trigger] old(map_data).notes@[j], numg, 3),
            forall|j: int| i <= j < n ==> #[trigger] map_data.notes@[j] == old(map_data).notes@[j],
        decreases n - i,
    {
        let note = map_data.notes[i];
        assert(note == old(map_data).notes@[i as int]);
        proof {
            assert(-0x10_0000_0000 <= note.hit_time * num <= 0x10_0000_0000) by (nonlinear_arith)
                requires
                    -0x8000_0000 <= note.hit_time <= 0x8000_0000,
                    1 <= num <= 4,
            ;
            assert(-0x10_0000_0000 <= note.tail_time * num <= 0x10_0000_0000) by (nonlinear_arith)
                requires
                    -0x8000_0000 <= note.tail_time <= 0x8000_0000,
                    1 <= num <= 4,
            ;
        }
        let new_hit = floor_div(note.hit_time * num, 3);
        let new_tail = if note.is_long_note() {
            floor_div(note.tail_time * num, 3)
        } else {
            note.tail_time
        };
        let scaled = Note { column: note.column, hit_time: new_hit, tail_time: new_tail };
        assert(scaled == time_scaled_note(old(map_data).notes@[i as int], numg, 3));
        map_data.notes[i] = scaled;
        i = i + 1;
    }
}

/// The note a row of parsed buffers describes: the column from the raw
/// column index, the hit time, and a tail only for the hold note type 128
/// with a usable end time.
pub open spec fn built_note(c: i32, start: i32, end: i32, ty: i32) -> Note {
    Note {
        column: c as usize,
        hit_time: start as i64,
        tail_time: if ty == 128 && end >= 0 {
            end as i64
        } else {
            -1 as i64
        },
    }
}

/// The notes a set of parsed buffers describes, in buffer order.
pub open spec fn built_notes(cols: Seq<i32>, starts: Seq<i32>, ends: Seq<i32>, tys: Seq<i32>) -> Seq<Note> {
    Seq::new(cols.len(), |i: int| built_note(cols[i], starts[i], ends[i], tys[i]))
}

/// A permutation holds the same elements.
proof fn lemma_permutation_membership(s1: Seq<Note>, s2: Seq<Note>, i: int)
    requires
        s1.to_multiset() == s2.to_multiset(),
        0 <= i < s1.len(),
    ensures
        exists|j: int| 0 <= j < s2.len() && s2[j] == s1[i],
{
    vstd::seq_lib::to_multiset_contains(s1, s1[i]);
    vstd::seq_lib::to_multiset_contains(s2, s1[i]);
    assert(s1.contains(s1[i]));
    assert(s2.contains(s1[i]));
}

/// Builds a chart from the four parsed buffers: one note per row, sorted
/// by `(hit_time, column)`, with every derived grouping and the total
/// duration computed.
pub fn build_map_data(
    columns: &Vec<i32>,
    note_starts: &Vec<i32>,
    note_ends: &Vec<i32>,
    note_types: &Vec<i32>,
    column_count: usize,
) -> (r: MapData)
    requires
        note_starts@.len() == columns@.len(),
        note_ends@.len() == columns@.len(),
        note_types@.len() == columns@.len(),
    ensures
        r.column_count == column_count,
        sorted_by_hit_col(r.notes@),
        r.notes@.to_multiset() == built_notes(columns@, note_starts@, note_ends@, note_types@).to_multiset(),
        r.notes@.len() == columns@.len(),
        r.notes_by_column@.len() == column_count,
        forall|col: int| 0 <= col < column_count ==>
            (#[trigger] r.notes_by_column@[col])@ == r.notes@.filter(col_pred(col)),
        r.long_notes@ == r.notes@.filter(hold_pred()),
        sorted_by_tail(r.tail_sequence@),
        r.tail_sequence@.to_multiset() == r.long_notes@.to_multiset(),
        r.long_notes_by_column@.len() == column_count,
        forall|col: int| 0 <= col < column_count ==>
            (#[trigger] r.long_notes_by_column@[col])@ == r.long_notes@.filter(col_pred(col)),
        r.total_duration == chart_span(r.notes@) + 1,
{
    let ghost target = built_notes(columns@, note_starts@, note_ends@, note_types@);
    let n = columns.len();
    let mut notes: Vec<Note> = Vec::new();
    let mut i: usize = 0;
    while i < n
        invariant
            i <= n,
            n == columns@.len(),
            note_starts@.len() == n,
            note_ends@.len() == n,
            note_types@.len() == n,
            target == built_notes(columns@, note_starts@, note_ends@, note_types@),
            notes@.len() == i,
            forall|j: int| 0 <= j < i ==> #[trigger] notes@[j] == target[j],
        decreases n - i,
    {
        let c = columns[i];
        let hit = note_starts[i] as i64;
        let tail: i64 = if note_types[i] == 128 { note_ends[i] as i64 } else { -1 };
        let note = if tail >= 0 {
            Note::long_note(#[verifier::truncate] (c as usize), hit, tail)
        } else {
            Note::simple(#[verifier::truncate] (c as usize), hit)
        };
        assert(note == target[i as int]);
        notes.push(note);
        i = i + 1;
    }
    assert(notes@ =~= target);

    let mut md = MapData {
        column_count,
        total_duration: 0,
        notes,
        notes_by_column: Vec::new(),
        long_notes: Vec::new(),
        tail_sequence: Vec::new(),
        long_notes_by_column: Vec::new(),
    };
    rebuild_groupings(&mut md);
    proof {
        assert forall|j: int| 0 <= j < md.notes@.len() implies {
            &&& (#[trigger] md.notes@[j]).hit_time < i64::MAX
            &&& md.notes@[j].tail_time < i64::MAX
        } by {
            lemma_permutation_membership(md.notes@, target, j);
            let w = choose|w: int| 0 <= w < target.len() && target[w] == md.notes@[j];
            assert(target[w] == built_note(columns@[w], note_starts@[w], note_ends@[w], note_types@[w]));
        }
    }
    recompute_total_duration(&mut md);
    md
}

} // verus!
