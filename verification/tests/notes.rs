use lib::geometry::{translate, vector_between};
use lib::notes::{NoteMap, encode_note};
use lib::sort::{contains_sorted, sort_by_key, sort_unique};
use lib::tec::spread_points;
use lib::utils::{count_units, merge_tecs, notes_to_points, points_to_notes};
use lib::TranslationalEquivalence;

#[test]
fn notes_to_points_doc_example() {
    let notes = vec![(0, 0, 1, 60, 100, 0, 0)];
    let (points, mapping) = notes_to_points(&notes);
    assert_eq!(points, vec![(0, 23584)]);
    assert_eq!(mapping.get(&(0, 23584)).unwrap()[0], (0, 0, 1, 60, 100, 0, 0));
    assert_eq!(mapping.len(), 1);
}

#[test]
fn notes_to_points_groups_notes_by_point_in_order() {
    let notes = vec![
        (4, 0, 2, 50, 90, 0, 10),
        (0, 1, 0, 60, 100, 0, 0),
        (4, 3, 2, 50, 10, -5, 10),
        (4, 1, 2, 51, 90, 0, -90),
    ];
    let (points, mapping) = notes_to_points(&notes);
    let y = (2u32 << 14) | 6210;
    assert_eq!(points, vec![(4, y), (0, 7200), (4, y), (4, y)]);
    assert_eq!(mapping.len(), 2);
    assert_eq!(
        mapping.get(&(4, y)).unwrap(),
        &vec![(4, 0, 2, 50, 90, 0, 10), (4, 3, 2, 50, 10, -5, 10), (4, 1, 2, 51, 90, 0, -90)]
    );
    assert_eq!(mapping.get(&(0, 7200)).unwrap(), &vec![(0, 1, 0, 60, 100, 0, 0)]);
    assert!(mapping.get(&(1, 7200)).is_none());
}

#[test]
fn encode_note_packs_instrument_and_pitch() {
    assert_eq!(encode_note((7, 0, 3, 0, 0, 0, 0)), (7, (3 << 14) | 1200));
    assert_eq!(encode_note((0, 0, 0, 127, 0, 0, 99)), (0, 12700 + 99 + 1200));
    // A pitch offset below zero wraps as the cast of an `i16` to `u32` does.
    assert_eq!(encode_note((0, 0, 0, 0, 0, 0, -1300)), (0, 0xffff_ff9c));
}

#[test]
fn note_map_add_and_get() {
    let mut m = NoteMap::new();
    assert_eq!(m.len(), 0);
    m.add((3, 1), (3, 0, 0, 1, 0, 0, 0));
    m.add((1, 1), (1, 0, 0, 1, 0, 0, 0));
    m.add((3, 1), (3, 1, 0, 1, 0, 0, 0));
    assert_eq!(m.len(), 2);
    assert_eq!(m.get(&(3, 1)).unwrap(), &vec![(3, 0, 0, 1, 0, 0, 0), (3, 1, 0, 1, 0, 0, 0)]);
    assert_eq!(m.get(&(1, 1)).unwrap(), &vec![(1, 0, 0, 1, 0, 0, 0)]);
    assert!(m.get(&(2, 1)).is_none());
}

#[test]
fn points_to_notes_doc_example() {
    let notes = vec![(0, 0, 1, 60, 100, 0, 0)];
    let (points, mapping) = notes_to_points(&notes);
    let tecs = vec![TranslationalEquivalence::new(points.clone(), Vec::new(), None)];
    let reconstructed = points_to_notes(&tecs, &mapping);
    assert_eq!(reconstructed, notes);
}

#[test]
fn points_to_notes_sorts_and_skips_unknown_points() {
    let notes = vec![(9, 0, 0, 60, 1, 0, 0), (2, 5, 0, 61, 1, 0, 0), (2, 1, 0, 61, 1, 0, 0)];
    let (_, mapping) = notes_to_points(&notes);
    let tecs = vec![TranslationalEquivalence::new(vec![(2, 7300)], vec![(7, -100), (1, 0)], None)];
    let rebuilt = points_to_notes(&tecs, &mapping);
    assert_eq!(rebuilt, vec![(2, 1, 0, 61, 1, 0, 0), (2, 5, 0, 61, 1, 0, 0), (9, 0, 0, 60, 1, 0, 0)]);
}

#[test]
fn merge_tecs_doc_example() {
    let tec = TranslationalEquivalence::new(vec![(0, 0)], Vec::new(), None);
    let merged = merge_tecs(vec![tec], |t: &TranslationalEquivalence| t.coverage().len() == 1);
    assert_eq!(merged.len(), 1);
    assert_eq!(merged[0].pattern, vec![(0, 0)]);
}

#[test]
fn merge_tecs_joins_selected_after_the_others() {
    let small_a = TranslationalEquivalence::new(vec![(5, 5)], vec![(1, 0)], None);
    let big = TranslationalEquivalence::new(vec![(0, 0), (0, 1), (0, 2)], vec![(10, 0)], None);
    let small_b = TranslationalEquivalence::new(vec![(5, 5), (2, 2)], Vec::new(), None);
    let merged = merge_tecs(vec![small_a, big, small_b], |t: &TranslationalEquivalence| t.coverage().len() <= 2);
    assert_eq!(merged.len(), 2);
    assert_eq!(merged[0].pattern, vec![(0, 0), (0, 1), (0, 2)]);
    assert_eq!(merged[0].translators, vec![(10, 0)]);
    assert_eq!(merged[1].pattern, vec![(2, 2), (5, 5), (6, 5)]);
    assert!(merged[1].translators.is_empty());
}

#[test]
fn merge_tecs_without_selection_keeps_everything() {
    let a = TranslationalEquivalence::new(vec![(1, 1)], Vec::new(), None);
    let b = TranslationalEquivalence::new(vec![(2, 2)], Vec::new(), None);
    let merged = merge_tecs(vec![a, b], |_t: &TranslationalEquivalence| false);
    assert_eq!(merged.len(), 2);
    assert_eq!(merged[0].pattern, vec![(1, 1)]);
    assert_eq!(merged[1].pattern, vec![(2, 2)]);
}

#[test]
fn merge_tecs_of_empty_coverage_keeps_the_others() {
    let a = TranslationalEquivalence::new(vec![(1, 1)], Vec::new(), None);
    let empty = TranslationalEquivalence::new(Vec::new(), vec![(1, 0)], None);
    let merged = merge_tecs(vec![a, empty], |t: &TranslationalEquivalence| t.pattern.is_empty());
    assert_eq!(merged.len(), 1);
    assert_eq!(merged[0].pattern, vec![(1, 1)]);
    assert!(merged[0].translators.is_empty());

    let empty = TranslationalEquivalence::new(Vec::new(), Vec::new(), None);
    let b = TranslationalEquivalence::new(vec![(1, 1)], Vec::new(), None);
    let merged = merge_tecs(vec![empty, b], |t: &TranslationalEquivalence| t.coverage().is_empty());
    assert_eq!(merged.len(), 1);
    assert_eq!(merged[0].pattern, vec![(1, 1)]);
    assert!(merged[0].translators.is_empty());
    assert_eq!(merged[0].coverage(), vec![(1, 1)]);
}

#[test]
fn count_units_counts_translators_and_patterns() {
    let leaf = TranslationalEquivalence::new(vec![(0, 0), (1, 0)], vec![(4, 0)], None);
    let nested = TranslationalEquivalence::new(Vec::new(), vec![(8, 0), (16, 0)], Some(vec![leaf]));
    let plain = TranslationalEquivalence::new(vec![(3, 3)], Vec::new(), None);
    assert_eq!(count_units(&vec![nested, plain]), 2 + 3 + 1);
    assert_eq!(count_units(&vec![]), 0);
}

#[test]
fn coverage_drops_translations_out_of_range() {
    let t = TranslationalEquivalence::new(vec![(1, 0), (0, 0)], vec![(2, 0), (-1, 0)], None);
    assert_eq!(t.coverage(), vec![(0, 0), (1, 0), (2, 0), (3, 0)]);
    let nested = TranslationalEquivalence::new(vec![(99, 99)], vec![(0, 10)], Some(vec![t]));
    assert_eq!(nested.coverage(), vec![(0, 0), (0, 10), (1, 0), (1, 10), (2, 0), (2, 10), (3, 0), (3, 10)]);
}

#[test]
fn spread_points_sorts_and_dedups() {
    let r = spread_points(&vec![(5, 5), (0, 0)], &vec![(5, 5), (0, 0)]);
    assert_eq!(r, vec![(0, 0), (5, 5), (10, 10)]);
}

#[test]
fn vector_and_translation_helpers() {
    assert_eq!(vector_between((1, 10), (4, 3)), (-3, 7));
    assert_eq!(translate((1, 1), (-1, 2)), Some((0, 3)));
    assert_eq!(translate((1, 1), (-2, 0)), None);
    assert_eq!(translate((u32::MAX, 0), (1, 0)), None);
}

#[test]
fn sorting_helpers() {
    let v = vec![(3, 1), (1, 2), (3, 1), (1, 1)];
    assert_eq!(sort_by_key(&v), vec![(1, 1), (1, 2), (3, 1), (3, 1)]);
    let u = sort_unique(&v);
    assert_eq!(u, vec![(1, 1), (1, 2), (3, 1)]);
    assert!(contains_sorted(&u, &(1, 2)));
    assert!(!contains_sorted(&u, &(2, 2)));
    let notes: Vec<(u32, u8, u8, u8, u8, i8, i16)> =
        vec![(1, 0, 0, 0, 0, 5, -3), (1, 0, 0, 0, 0, -5, 7), (0, 9, 9, 9, 9, 9, 9), (1, 0, 0, 0, 0, -5, -7)];
    let mut expected = notes.clone();
    expected.sort();
    assert_eq!(sort_by_key(&notes), expected);
}

#[test]
fn merge_tecs_keeps_what_is_covered() {
    let make = || {
        vec![
            TranslationalEquivalence::new(vec![(0, 0), (1, 0)], vec![(4, 0)], None),
            TranslationalEquivalence::new(vec![(9, 9)], Vec::new(), None),
            TranslationalEquivalence::new(vec![(2, 2)], vec![(0, 3)], None),
        ]
    };
    let before = lib::tec::coverage_of_all(&make());
    let merged = merge_tecs(make(), |t: &TranslationalEquivalence| t.coverage().len() <= 2);
    assert_eq!(merged.len(), 2);
    assert_eq!(lib::tec::coverage_of_all(&merged), before);
}

#[test]
fn encoding_keeps_instrument_and_pitch_apart() {
    let a = encode_note((5, 0, 3, 60, 100, 0, 0));
    let b = encode_note((5, 0, 2, 60, 100, 0, 0));
    let c = encode_note((5, 0, 3, 59, 100, 0, 100));
    assert_ne!(a, b);
    assert_eq!(a, c);
    assert_eq!(a.1 / 16384, 3);
    assert_eq!(a.1 % 16384, 7200);
}

#[test]
fn tec_unit_count_of_one_tec() {
    let leaf = TranslationalEquivalence::new(vec![(0, 0), (1, 0)], vec![(4, 0)], None);
    assert_eq!(lib::utils::tec_unit_count(&leaf), 3);
    let nested = TranslationalEquivalence::new(vec![(7, 7)], vec![(8, 0)], Some(vec![leaf]));
    assert_eq!(lib::utils::tec_unit_count(&nested), 4);
}
