use lib::cosiatec::cosiatec_compress;
use lib::recursia::recursive_cosiatec_compress;
use lib::sia::find_mtps;
use lib::siatec::build_tecs_from_mtps;
use lib::utils::{checked_count_units, checked_tec_unit_count, count_units, merge_tecs, tec_unit_count};
use lib::TranslationalEquivalence;

fn dataset() -> Vec<(u32, u32)> {
    vec![(0, 60), (1, 62), (2, 64), (4, 60), (5, 62), (6, 64), (8, 60), (9, 67), (8, 64)]
}

fn shuffled_with_repeats() -> Vec<(u32, u32)> {
    vec![(8, 64), (6, 64), (0, 60), (9, 67), (1, 62), (8, 60), (0, 60), (5, 62), (2, 64), (4, 60), (6, 64)]
}

fn same_tecs(a: &Vec<TranslationalEquivalence>, b: &Vec<TranslationalEquivalence>) -> bool {
    a.len() == b.len()
        && a.iter().zip(b.iter()).all(|(x, y)| {
            x.pattern == y.pattern && x.translators == y.translators && same_tecs(&x.sub_tecs, &y.sub_tecs)
        })
}

#[test]
fn find_mtps_depends_only_on_the_set_of_points() {
    for restrict in [false, true] {
        assert_eq!(find_mtps(&dataset(), restrict), find_mtps(&shuffled_with_repeats(), restrict));
    }
}

#[test]
fn restricted_table_is_the_zero_pitch_part_of_the_full_table() {
    let full = find_mtps(&dataset(), false);
    let temporal = find_mtps(&dataset(), true);
    let zero_pitch: Vec<((i32, i32), Vec<(u32, u32)>)> =
        full.into_iter().filter(|(v, _)| v.1 == 0).collect();
    assert_eq!(temporal, zero_pitch);
    assert!(!temporal.is_empty());
}

#[test]
fn adding_points_only_grows_the_patterns() {
    let small: Vec<(u32, u32)> = vec![(0, 60), (1, 62), (4, 60), (5, 62)];
    let t1 = find_mtps(&small, false);
    let t2 = find_mtps(&dataset(), false);
    for (v, pattern) in &t1 {
        let (_, bigger) = t2.iter().find(|(w, _)| w == v).expect("vector kept");
        assert!(pattern.iter().all(|p| bigger.contains(p)));
    }
    assert!(t2.len() > t1.len());
}

#[test]
fn cosiatec_depends_only_on_the_set_of_points() {
    for restrict in [false, true] {
        let a = cosiatec_compress(&dataset(), restrict);
        let b = cosiatec_compress(&shuffled_with_repeats(), restrict);
        assert!(same_tecs(&a, &b));
    }
}

#[test]
fn recursia_is_built_on_the_cosiatec_result() {
    let data = dataset();
    let c = cosiatec_compress(&data, false);
    let r = recursive_cosiatec_compress(&data, false, 2);
    assert_eq!(r.len(), c.len());
    for (t, ci) in r.iter().zip(c.iter()) {
        assert_eq!(t.translators, ci.translators);
        if ci.pattern.len() >= 2 {
            assert!(t.pattern.is_empty());
            let sub = recursive_cosiatec_compress(&ci.pattern, false, 2);
            assert!(same_tecs(&t.sub_tecs, &sub));
        } else {
            assert_eq!(t.pattern, ci.pattern);
            assert!(t.sub_tecs.is_empty());
        }
    }
}

#[test]
fn recursia_with_a_large_minimum_is_cosiatec() {
    let data = dataset();
    let c = cosiatec_compress(&data, false);
    let r = recursive_cosiatec_compress(&data, false, data.len() + 1);
    assert!(same_tecs(&r, &c));
}

#[test]
fn merging_twice_is_merging_once() {
    let tecs = || {
        vec![
            TranslationalEquivalence::new(vec![(0, 0)], Vec::new(), None),
            TranslationalEquivalence::new(vec![(1, 1), (2, 2)], vec![(4, 0)], None),
            TranslationalEquivalence::new(vec![(9, 9)], Vec::new(), None),
        ]
    };
    let small = |t: &TranslationalEquivalence| t.coverage().len() == 1;
    let once = merge_tecs(tecs(), small);
    let twice = merge_tecs(merge_tecs(tecs(), small), small);
    assert!(same_tecs(&once, &twice));
    assert_eq!(once.len(), 2);
    assert_eq!(once[1].pattern, vec![(0, 0), (9, 9)]);

    let big = |t: &TranslationalEquivalence| t.coverage().len() > 1;
    let once = merge_tecs(tecs(), big);
    let twice = merge_tecs(merge_tecs(tecs(), big), big);
    assert!(same_tecs(&once, &twice));
    assert_eq!(once[2].pattern, vec![(1, 1), (2, 2), (5, 1), (6, 2)]);
}

#[test]
fn unit_count_adds_up_over_concatenation() {
    let a = vec![
        TranslationalEquivalence::new(vec![(0, 0), (1, 0)], vec![(4, 0)], None),
        TranslationalEquivalence::new(vec![(3, 3)], Vec::new(), None),
    ];
    let leaf = TranslationalEquivalence::new(vec![(0, 0), (1, 0)], vec![(2, 0)], None);
    let b = vec![TranslationalEquivalence::new(Vec::new(), vec![(8, 0)], Some(vec![leaf]))];
    let both: Vec<TranslationalEquivalence> = a.iter().chain(b.iter()).map(|t| copy_tec(t)).collect();
    assert_eq!(count_units(&both), count_units(&a) + count_units(&b));
    assert_eq!(count_units(&both), 3 + 1 + 4);
}

fn copy_tec(t: &TranslationalEquivalence) -> TranslationalEquivalence {
    let subs: Vec<TranslationalEquivalence> = t.sub_tecs.iter().map(copy_tec).collect();
    TranslationalEquivalence::new(t.pattern.clone(), t.translators.clone(), Some(subs))
}

#[test]
fn checked_unit_counts_agree_with_the_plain_ones() {
    let leaf = TranslationalEquivalence::new(vec![(0, 0), (1, 0)], vec![(4, 0)], None);
    let nested = TranslationalEquivalence::new(Vec::new(), vec![(8, 0), (16, 0)], Some(vec![leaf]));
    assert_eq!(checked_tec_unit_count(&nested), Some(tec_unit_count(&nested)));
    assert_eq!(checked_tec_unit_count(&nested), Some(5));
    let tecs = vec![nested, TranslationalEquivalence::new(vec![(3, 3)], Vec::new(), None)];
    assert_eq!(checked_count_units(&tecs), Some(count_units(&tecs)));
    assert_eq!(checked_count_units(&tecs), Some(6));
    assert_eq!(checked_count_units(&Vec::new()), Some(0));
}

#[test]
fn siatec_depends_only_on_the_set_of_points() {
    for restrict in [false, true] {
        let a = build_tecs_from_mtps(&dataset(), restrict);
        let b = build_tecs_from_mtps(&shuffled_with_repeats(), restrict);
        assert!(same_tecs(&a, &b));
        assert!(!a.is_empty());
    }
}

#[test]
fn recursia_depends_only_on_the_set_of_points() {
    for min in [2usize, 3, 4] {
        let a = recursive_cosiatec_compress(&dataset(), false, min);
        let b = recursive_cosiatec_compress(&shuffled_with_repeats(), false, min);
        assert!(same_tecs(&a, &b));
    }
}
