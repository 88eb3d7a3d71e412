use std::collections::HashSet;

use lib::cosiatec::cosiatec_compress;
use lib::recursia::recursive_cosiatec_compress;
use lib::sia::find_mtps;
use lib::siatec::build_tecs_from_mtps;
use lib::tec::coverage_of_all;
use lib::utils::{count_units, notes_to_points, points_to_notes};
use lib::TranslationalEquivalence;

type Note = (u32, u8, u8, u8, u8, i8, i16);

/// A melody of four notes played four times, on two instruments, with one
/// note doubled.
fn load_test_data() -> (Vec<Note>, Vec<(u32, u32)>) {
    let bar: [(u8, u8, i16); 4] = [(0, 60, 0), (0, 64, 0), (1, 67, -50), (0, 72, 25)];
    let mut notes: Vec<Note> = Vec::new();
    for b in 0..4u32 {
        for (k, &(instrument, key, pitch)) in bar.iter().enumerate() {
            notes.push((b * 8 + 2 * k as u32, k as u8, instrument, key, 100, 0, pitch));
        }
    }
    notes.push((0, 3, 0, 60, 80, -10, 0));
    let data: Vec<(u32, u32)> = notes
        .iter()
        .map(|n| {
            let y = ((n.2 as u32) << 14) | ((n.3 as i32 * 100 + n.6 as i32 + 1200) as u32);
            (n.0, y)
        })
        .collect();
    (notes, data)
}

fn overall_coverage(tecs: &Vec<TranslationalEquivalence>) -> HashSet<(u32, u32)> {
    coverage_of_all(tecs).into_iter().collect()
}

fn ratio(tecs: &Vec<TranslationalEquivalence>, data: &Vec<(u32, u32)>) -> f64 {
    let encoded = count_units(tecs);
    if encoded > 0 {
        data.len() as f64 / encoded as f64
    } else {
        0.0
    }
}

#[test]
fn test_recursive_cosiatec_compress() {
    let (mut notes, data) = load_test_data();
    let (points, mapping) = notes_to_points(&notes);
    assert_eq!(points, data);

    let tecs = recursive_cosiatec_compress(&data, true, 2);
    assert!(ratio(&tecs, &data) > 1.0);

    let rebuilt = points_to_notes(&tecs, &mapping);
    notes.sort();
    assert_eq!(rebuilt, notes);

    let dataset: HashSet<_> = data.into_iter().collect();
    let coverage: HashSet<_> = overall_coverage(&tecs);
    assert_eq!(dataset, coverage);
}

#[test]
fn test_cosiatec_compress() {
    let (mut notes, data) = load_test_data();
    let (points, mapping) = notes_to_points(&notes);
    assert_eq!(points, data);

    let tecs = cosiatec_compress(&data, true);
    assert!(ratio(&tecs, &data) > 1.0);

    let rebuilt = points_to_notes(&tecs, &mapping);
    notes.sort();
    assert_eq!(rebuilt, notes);

    let dataset: HashSet<_> = data.into_iter().collect();
    let coverage: HashSet<_> = overall_coverage(&tecs);
    assert_eq!(dataset, coverage);
}

#[test]
fn find_mtps_lists_each_pattern_in_vector_order() {
    let points = vec![(0, 0), (1, 0), (2, 0), (0, 1), (1, 1)];
    let mtps = find_mtps(&points, false);
    let expected: Vec<((i32, i32), Vec<(u32, u32)>)> = vec![
        ((-1, 0), vec![(1, 0), (1, 1), (2, 0)]),
        ((-1, 1), vec![(1, 0), (2, 0)]),
        ((0, -1), vec![(0, 1), (1, 1)]),
        ((0, 1), vec![(0, 0), (1, 0)]),
        ((1, -1), vec![(0, 1), (1, 1)]),
        ((1, 0), vec![(0, 0), (0, 1), (1, 0)]),
    ];
    assert_eq!(mtps, expected);
}

#[test]
fn find_mtps_keeps_only_temporal_vectors_when_restricted() {
    let points = vec![(0, 0), (1, 0), (2, 0), (0, 1), (1, 1)];
    let mtps = find_mtps(&points, true);
    let expected: Vec<((i32, i32), Vec<(u32, u32)>)> = vec![
        ((-1, 0), vec![(1, 0), (1, 1), (2, 0)]),
        ((1, 0), vec![(0, 0), (0, 1), (1, 0)]),
    ];
    assert_eq!(mtps, expected);
}

#[test]
fn find_mtps_ignores_repeated_points_and_single_starts() {
    assert!(find_mtps(&vec![(3, 3), (3, 3)], false).is_empty());
    assert!(find_mtps(&vec![(0, 0), (4, 9)], false).is_empty());
    assert!(find_mtps(&vec![], false).is_empty());
}

#[test]
fn build_tecs_from_mtps_gives_all_translators() {
    let points = vec![(0, 0), (1, 0), (2, 0), (0, 1), (1, 1)];
    let tecs = build_tecs_from_mtps(&points, false);
    let got: Vec<(Vec<(u32, u32)>, Vec<(i32, i32)>)> =
        tecs.iter().map(|t| (t.pattern.clone(), t.translators.clone())).collect();
    let expected: Vec<(Vec<(u32, u32)>, Vec<(i32, i32)>)> = vec![
        (vec![(1, 0), (1, 1), (2, 0)], vec![(-1, 0)]),
        (vec![(1, 0), (2, 0)], vec![(-1, 0), (-1, 1)]),
        (vec![(0, 1), (1, 1)], vec![(0, -1), (1, -1)]),
        (vec![(0, 0), (1, 0)], vec![(0, 1), (1, 0)]),
        (vec![(0, 1), (1, 1)], vec![(0, -1), (1, -1)]),
        (vec![(0, 0), (0, 1), (1, 0)], vec![(1, 0)]),
    ];
    assert_eq!(got, expected);
    assert!(tecs.iter().all(|t| t.sub_tecs.is_empty()));
}

#[test]
fn cosiatec_compress_readme_example() {
    let points = vec![(0, 100), (1, 200), (2, 100), (3, 200)];
    let tecs = cosiatec_compress(&points, true);
    assert_eq!(tecs.len(), 1);
    assert_eq!(tecs[0].pattern, vec![(2, 100), (3, 200)]);
    assert_eq!(tecs[0].translators, vec![(-2, 0)]);
    assert_eq!(tecs[0].coverage(), vec![(0, 100), (1, 200), (2, 100), (3, 200)]);
}

#[test]
fn cosiatec_compress_picks_best_ratio() {
    let points = vec![(0, 0), (1, 0), (2, 0), (0, 1), (1, 1)];
    let tecs = cosiatec_compress(&points, false);
    assert_eq!(tecs.len(), 1);
    assert_eq!(tecs[0].pattern, vec![(1, 0), (1, 1), (2, 0)]);
    assert_eq!(tecs[0].translators, vec![(-1, 0)]);
    assert_eq!(count_units(&tecs), 4);
}

#[test]
fn cosiatec_compress_without_repetition_gives_single_points() {
    let points = vec![(5, 7), (0, 0)];
    let tecs = cosiatec_compress(&points, true);
    assert_eq!(tecs.len(), 2);
    assert_eq!(tecs[0].pattern, vec![(0, 0)]);
    assert_eq!(tecs[1].pattern, vec![(5, 7)]);
    assert!(tecs[0].translators.is_empty() && tecs[1].translators.is_empty());
    assert!(cosiatec_compress(&vec![], true).is_empty());
}

#[test]
fn cosiatec_compress_partitions_the_dataset() {
    let (_, data) = load_test_data();
    let tecs = cosiatec_compress(&data, true);
    let mut seen: HashSet<(u32, u32)> = HashSet::new();
    for t in &tecs {
        for p in t.coverage() {
            assert!(seen.insert(p), "a point is covered twice");
        }
    }
    let dataset: HashSet<_> = data.into_iter().collect();
    assert_eq!(seen, dataset);
}

#[test]
fn recursive_cosiatec_compress_doc_example() {
    let points = vec![(0, 0), (1, 1), (2, 0), (3, 1)];
    let tecs = recursive_cosiatec_compress(&points, true, 2);
    assert_eq!(tecs.len(), 1);
    assert!(tecs[0].pattern.is_empty());
    assert_eq!(tecs[0].translators, vec![(-2, 0)]);
    assert_eq!(tecs[0].sub_tecs.len(), 2);
    assert_eq!(tecs[0].sub_tecs[0].pattern, vec![(2, 0)]);
    assert_eq!(tecs[0].sub_tecs[1].pattern, vec![(3, 1)]);
    assert_eq!(tecs[0].coverage(), vec![(0, 0), (1, 1), (2, 0), (3, 1)]);
    assert_eq!(count_units(&tecs), 3);
}

#[test]
fn recursive_cosiatec_compress_keeps_small_patterns() {
    let points = vec![(0, 0), (1, 1), (2, 0), (3, 1)];
    let tecs = recursive_cosiatec_compress(&points, true, 3);
    assert_eq!(tecs.len(), 1);
    assert_eq!(tecs[0].pattern, vec![(2, 0), (3, 1)]);
    assert!(tecs[0].sub_tecs.is_empty());
}
