use star_rating::corners::get_corners;
use star_rating::density::compute_c_and_ks;
use star_rating::key_usage::compute_active_columns;
use star_rating::key_usage::get_key_usage;
use star_rating::note::Note;

fn one_hold_chart() -> Vec<Note> {
    vec![Note::long_note(0, 1000, 1500)]
}

#[test]
fn corners_of_one_hold() {
    let notes = one_hold_chart();
    let (all, base, a) = get_corners(2000, &notes);
    assert_eq!(base, vec![0, 501, 1000, 1001, 1500, 1501, 2000]);
    assert_eq!(a, vec![0, 500, 1000, 1500, 2000]);
    assert_eq!(all, vec![0, 500, 501, 1000, 1001, 1500, 1501, 2000]);
}

#[test]
fn corners_clip_to_chart_range() {
    let notes = vec![Note::simple(0, 10)];
    let (all, base, a) = get_corners(100, &notes);
    // 10+501 and 10±1000 fall outside [0, 100] and are dropped.
    assert_eq!(base, vec![0, 10, 11, 100]);
    assert_eq!(a, vec![0, 10, 100]);
    assert_eq!(all, vec![0, 10, 11, 100]);
}

#[test]
fn corners_of_empty_chart() {
    let notes: Vec<Note> = Vec::new();
    let (all, base, a) = get_corners(1, &notes);
    assert_eq!(all, vec![0, 1]);
    assert_eq!(base, vec![0, 1]);
    assert_eq!(a, vec![0, 1]);
}

#[test]
fn key_usage_hard_window() {
    let notes = one_hold_chart();
    let (_, base, _) = get_corners(2000, &notes);
    let usage = get_key_usage(1, 2000, &notes, &base);
    // Window is [1000-150, min(1500+150, 1999)) = [850, 1650).
    assert_eq!(usage, vec![vec![false, false, true, true, true, true, false]]);
}

#[test]
fn key_usage_of_empty_chart_is_all_false() {
    let notes: Vec<Note> = Vec::new();
    let (_, base, _) = get_corners(1, &notes);
    let usage = get_key_usage(2, 1, &notes, &base);
    assert_eq!(usage, vec![vec![false, false], vec![false, false]]);
}

#[test]
fn active_columns_follow_usage() {
    let notes = one_hold_chart();
    let (_, base, _) = get_corners(2000, &notes);
    let usage = get_key_usage(2, 2000, &notes, &base);
    let active = compute_active_columns(&usage, 2, base.len());
    let empty: Vec<usize> = Vec::new();
    assert_eq!(active.len(), 7);
    assert_eq!(active[0], empty);
    assert_eq!(active[2], vec![0]);
    assert_eq!(active[5], vec![0]);
    assert_eq!(active[6], empty);
}

#[test]
fn density_counts_and_key_floor() {
    let notes = one_hold_chart();
    let (_, base, _) = get_corners(2000, &notes);
    let usage = get_key_usage(1, 2000, &notes, &base);
    let (c_step, ks_step) = compute_c_and_ks(1, &notes, &usage, &base);
    // One hit at 1000; counted where |corner - 1000| puts it in
    // [corner-500, corner+500).
    assert_eq!(c_step, vec![0, 1, 1, 1, 1, 0, 0]);
    // The key count floors at 1 even where no column is occupied.
    assert_eq!(ks_step, vec![1, 1, 1, 1, 1, 1, 1]);
}

#[test]
fn density_of_empty_chart() {
    let notes: Vec<Note> = Vec::new();
    let (_, base, _) = get_corners(1, &notes);
    let usage = get_key_usage(1, 1, &notes, &base);
    let (c_step, ks_step) = compute_c_and_ks(1, &notes, &usage, &base);
    assert_eq!(c_step, vec![0, 0]);
    assert_eq!(ks_step, vec![1, 1]);
}
