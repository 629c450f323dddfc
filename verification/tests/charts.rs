use star_rating::chart::apply_mods;
use star_rating::chart::build_map_data;
use star_rating::chart::rebuild_groupings;
use star_rating::chart::recompute_total_duration;
use star_rating::chart::MapData;
use star_rating::corners::get_corners;
use star_rating::note::Note;
use star_rating::utils::find_next_note_in_column;

#[test]
fn note_constructors() {
    let tap = Note::simple(1, 250);
    assert_eq!(tap.column, 1);
    assert_eq!(tap.hit_time, 250);
    assert_eq!(tap.tail_time, -1);
    assert!(!tap.is_long_note());
    assert_eq!(tap.duration(), 0);

    let hold = Note::long_note(0, 100, 400);
    assert!(hold.is_long_note());
    assert_eq!(hold.duration(), 300);

    let n = Note::new(2, 5, 9);
    assert_eq!((n.column, n.hit_time, n.tail_time), (2, 5, 9));
}

#[test]
fn build_sorts_and_groups() {
    // Rows out of order: a tap on column 1 and an earlier hold on column 0.
    let columns = vec![1, 0];
    let starts = vec![500, 0];
    let ends = vec![-1, 800];
    let types = vec![1, 128];
    let md = build_map_data(&columns, &starts, &ends, &types, 2);
    assert_eq!(md.column_count, 2);
    assert_eq!(md.notes, vec![Note::long_note(0, 0, 800), Note::simple(1, 500)]);
    assert_eq!(md.notes_by_column.len(), 2);
    assert_eq!(md.notes_by_column[0], vec![Note::long_note(0, 0, 800)]);
    assert_eq!(md.notes_by_column[1], vec![Note::simple(1, 500)]);
    assert_eq!(md.long_notes, vec![Note::long_note(0, 0, 800)]);
    assert_eq!(md.tail_sequence, vec![Note::long_note(0, 0, 800)]);
    assert_eq!(md.long_notes_by_column[0], vec![Note::long_note(0, 0, 800)]);
    assert!(md.long_notes_by_column[1].is_empty());
    // One past the largest timestamp.
    assert_eq!(md.total_duration, 801);
}

#[test]
fn build_of_empty_chart_has_duration_one() {
    let none: Vec<i32> = Vec::new();
    let md = build_map_data(&none, &none, &none, &none, 2);
    assert!(md.notes.is_empty());
    assert_eq!(md.total_duration, 1);
    let (all, base, a) = get_corners(md.total_duration, &md.notes);
    assert_eq!(all, vec![0, 1]);
    assert_eq!(base, vec![0, 1]);
    assert_eq!(a, vec![0, 1]);
}

#[test]
fn hold_type_without_end_time_is_a_tap() {
    let columns = vec![0];
    let starts = vec![100];
    let ends = vec![-5];
    let types = vec![128];
    let md = build_map_data(&columns, &starts, &ends, &types, 1);
    assert_eq!(md.notes, vec![Note::simple(0, 100)]);
    assert!(md.long_notes.is_empty());
}

#[test]
fn two_taps_half_a_second_apart() {
    // A two-column chart whose only notes are two taps in the same
    // column, exactly 500 ms apart: the same-column interval the jack
    // sweep sees spans exactly 500 ms.
    let columns = vec![0, 0];
    let starts = vec![500, 1000];
    let ends = vec![-1, -1];
    let types = vec![1, 1];
    let md = build_map_data(&columns, &starts, &ends, &types, 2);
    assert_eq!(md.total_duration, 1001);
    assert_eq!(md.notes_by_column[0].len(), 2);
    assert!(md.notes_by_column[1].is_empty());
    let gap = md.notes_by_column[0][1].hit_time - md.notes_by_column[0][0].hit_time;
    assert_eq!(gap, 500);
    assert!(md.long_notes.is_empty());
    let (_, base, _) = get_corners(md.total_duration, &md.notes);
    assert_eq!(base, vec![0, 1, 500, 501, 1000, 1001]);
}

#[test]
fn rebuild_restores_groupings() {
    let mut md = MapData::new();
    md.column_count = 2;
    md.notes = vec![
        Note::simple(1, 900),
        Note::long_note(0, 100, 1200),
        Note::long_note(1, 50, 300),
    ];
    rebuild_groupings(&mut md);
    assert_eq!(
        md.notes,
        vec![
            Note::long_note(1, 50, 300),
            Note::long_note(0, 100, 1200),
            Note::simple(1, 900),
        ]
    );
    assert_eq!(md.notes_by_column[0], vec![Note::long_note(0, 100, 1200)]);
    assert_eq!(
        md.notes_by_column[1],
        vec![Note::long_note(1, 50, 300), Note::simple(1, 900)]
    );
    assert_eq!(
        md.long_notes,
        vec![Note::long_note(1, 50, 300), Note::long_note(0, 100, 1200)]
    );
    // Tails sorted by tail time.
    assert_eq!(
        md.tail_sequence,
        vec![Note::long_note(1, 50, 300), Note::long_note(0, 100, 1200)]
    );
    assert_eq!(md.long_notes_by_column[0], vec![Note::long_note(0, 100, 1200)]);
    assert_eq!(md.long_notes_by_column[1], vec![Note::long_note(1, 50, 300)]);
}

#[test]
fn ties_on_hit_time_order_by_column() {
    let mut md = MapData::new();
    md.column_count = 3;
    md.notes = vec![Note::simple(2, 100), Note::simple(0, 100), Note::simple(1, 100)];
    rebuild_groupings(&mut md);
    assert_eq!(
        md.notes,
        vec![Note::simple(0, 100), Note::simple(1, 100), Note::simple(2, 100)]
    );
}

#[test]
fn total_duration_recomputes() {
    let mut md = MapData::new();
    md.notes = vec![Note::simple(0, 700), Note::long_note(0, 100, 900)];
    recompute_total_duration(&mut md);
    assert_eq!(md.total_duration, 901);

    let mut empty = MapData::new();
    recompute_total_duration(&mut empty);
    assert_eq!(empty.total_duration, 1);
}

#[test]
fn double_time_rescales_floored() {
    let mut md = MapData::new();
    md.notes = vec![Note::long_note(0, 1000, 1000), Note::simple(0, 1)];
    apply_mods(&mut md, "DT");
    // 2/3 of each timestamp, floored; taps keep their empty tail.
    assert_eq!(md.notes[0].hit_time, 666);
    assert_eq!(md.notes[0].tail_time, 666);
    assert_eq!(md.notes[1].hit_time, 0);
    assert_eq!(md.notes[1].tail_time, -1);
}

#[test]
fn half_time_rescales_floored() {
    let mut md = MapData::new();
    md.notes = vec![Note::simple(0, 1000)];
    apply_mods(&mut md, "HT");
    assert_eq!(md.notes[0].hit_time, 1333);
}

#[test]
fn unknown_modifier_changes_nothing() {
    let mut md = MapData::new();
    md.notes = vec![Note::simple(0, 1000)];
    apply_mods(&mut md, "NM");
    apply_mods(&mut md, "");
    assert_eq!(md.notes[0].hit_time, 1000);
}

#[test]
fn next_note_lookup() {
    let col: Vec<Note> = vec![
        Note::simple(0, 100),
        Note::long_note(0, 500, 900),
        Note::simple(0, 1200),
    ];
    let by_column = vec![col];
    let times = vec![100, 500, 1200];
    let next = find_next_note_in_column((0, 100, -1), &times, &by_column);
    assert_eq!(next, (0, 500, 900));
    let next = find_next_note_in_column((0, 500, 900), &times, &by_column);
    assert_eq!(next, (0, 1200, -1));
    // The last note has no successor: a sentinel far in the future.
    let next = find_next_note_in_column((0, 1200, -1), &times, &by_column);
    assert_eq!(next, (0, 1_000_000_000, 1_000_000_000));
}

#[test]
fn map_data_counts() {
    let columns = vec![0, 1, 0];
    let starts = vec![0, 100, 200];
    let ends = vec![400, -1, -1];
    let types = vec![128, 1, 1];
    let md = build_map_data(&columns, &starts, &ends, &types, 2);
    assert_eq!(md.note_count(), 3);
    assert_eq!(md.long_note_count(), 1);
    assert_eq!(md.simple_note_count(), 2);
}
