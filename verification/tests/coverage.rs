use star_rating::ln::ln_bodies_count_sparse_representation;
use star_rating::ln::ln_sum;
use star_rating::ln::LongNoteRepresentation;
use star_rating::note::Note;

fn one_hold_rep() -> LongNoteRepresentation {
    let holds = vec![Note::long_note(0, 1000, 1500)];
    ln_bodies_count_sparse_representation(&holds, 2000)
}

#[test]
fn sparse_representation_of_one_hold() {
    let rep = one_hold_rep();
    // Breakpoints: 0, rise (1060), settle (1120), tail (1500), duration.
    assert_eq!(rep.points, vec![0, 1060, 1120, 1500, 2000]);
    // Values in twentieths: 0, then 1.3, then 1.0, then 0.
    assert_eq!(rep.values, vec![0, 26, 20, 0]);
    assert_eq!(rep.cumulative_sum, vec![0, 0, 1560, 9160, 9160]);
}

#[test]
fn sparse_representation_of_no_holds() {
    let holds: Vec<Note> = Vec::new();
    let rep = ln_bodies_count_sparse_representation(&holds, 1);
    assert_eq!(rep.points, vec![0, 1]);
    assert_eq!(rep.values, vec![0]);
    assert_eq!(rep.cumulative_sum, vec![0, 0]);
}

#[test]
fn sparse_representation_caps_stacked_holds() {
    // Ten simultaneous holds push the raw coverage to 10 * 1.3 = 13,
    // capped at 2.5 + 13/2 = 9 (180 twentieths).
    let mut holds: Vec<Note> = Vec::new();
    for col in 0..10 {
        holds.push(Note::long_note(col, 0, 1000));
    }
    let rep = ln_bodies_count_sparse_representation(&holds, 2000);
    assert_eq!(rep.points, vec![0, 60, 120, 1000, 2000]);
    // raw 260 -> capped 50 + 130 = 180; raw 200 -> capped 50 + 100 = 150.
    assert_eq!(rep.values, vec![0, 180, 150, 0]);
}

#[test]
fn interval_sum_of_one_hold() {
    let rep = one_hold_rep();
    // Over the rise segment: 60 ms at 1.3 = 78, held in twentieths.
    assert_eq!(ln_sum(1060, 1120, &rep), 60 * 26);
    // Over everything that the chart can query.
    assert_eq!(ln_sum(0, 1999, &rep), 9160);
    // A window straddling two segments.
    assert_eq!(ln_sum(1100, 1200, &rep), 20 * 26 + 80 * 20);
}

#[test]
fn interval_sum_is_additive() {
    let rep = one_hold_rep();
    let splits = [0i64, 500, 1060, 1100, 1120, 1400, 1500, 1800, 1999];
    for (ai, &a) in splits.iter().enumerate() {
        for (bi, &b) in splits.iter().enumerate().skip(ai) {
            for &c in splits.iter().skip(bi) {
                assert_eq!(
                    ln_sum(a, c, &rep),
                    ln_sum(a, b, &rep) + ln_sum(b, c, &rep)
                );
            }
        }
    }
}

#[test]
fn interval_sum_of_constant_coverage() {
    // A hand-built representation with constant value 7: the interval sum
    // must be exactly value * width, the closed-form check of the
    // integration primitive.
    let rep = LongNoteRepresentation::new(vec![0, 1000], vec![0, 7000], vec![7]);
    assert_eq!(ln_sum(100, 900, &rep), 7 * 800);
    assert_eq!(ln_sum(0, 999, &rep), 7 * 999);
    assert_eq!(ln_sum(500, 500, &rep), 0);
}
