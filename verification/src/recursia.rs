//! RecurSIA: COSIATEC applied again to the pattern of each TEC.

use vstd::prelude::*;
use crate::cosiatec::{
    cosiatec_compress, is_cosiatec, lemma_cosiatec_flat, lemma_cosiatec_pattern, lemma_cosiatec_unique,
};
use crate::geometry::{Point, within_i32};
use crate::sort::copy_vec;
use crate::tec::{
    TranslationalEquivalence, lemma_union_coverage_eq, same_tec, same_tree, same_trees, union_coverage,
};

verus! {

/// The result of RecurSIA on `d`: a COSIATEC cover `c` of `d` in which every
/// pattern of at least `min_pattern_size` points is replaced by the
/// RecurSIA result on that pattern (held in `sub_tecs`, the pattern itself
/// left empty), and every smaller pattern is kept.
pub open spec fn is_recursia(
    d: Set<Point>,
    restrict_dpitch_zero: bool,
    min_pattern_size: int,
    tecs: Seq<TranslationalEquivalence>,
) -> bool
    decreases tecs, 1int,
{
    exists|c: Seq<TranslationalEquivalence>|
        #[trigger] is_cosiatec(d, restrict_dpitch_zero, c) && c.len() == tecs.len() && forall|k: int|
            0 <= k < tecs.len() ==> recursia_entry(restrict_dpitch_zero, min_pattern_size, c[k], #[trigger] tecs[k])
}

/// `t` is what RecurSIA makes of the COSIATEC TEC `ci`.
pub open spec fn recursia_entry(
    restrict_dpitch_zero: bool,
    min_pattern_size: int,
    ci: TranslationalEquivalence,
    t: TranslationalEquivalence,
) -> bool
    decreases t, 0int,
{
    &&& t.translators@ == ci.translators@
    &&& if ci.pattern@.len() >= min_pattern_size {
        &&& t.pattern@.len() == 0
        &&& is_recursia(ci.pattern@.to_set(), restrict_dpitch_zero, min_pattern_size, t.sub_tecs@)
    } else {
        &&& t.pattern@ == ci.pattern@
        &&& t.sub_tecs@.len() == 0
    }
}

/// RecurSIA is lossless: the TECs it returns for `d`, with their sub-TECs
/// standing for their patterns, cover exactly the points of `d`.
pub proof fn lemma_recursia_covers(
    d: Set<Point>,
    restrict_dpitch_zero: bool,
    min_pattern_size: int,
    tecs: Seq<TranslationalEquivalence>,
)
    requires
        is_recursia(d, restrict_dpitch_zero, min_pattern_size, tecs),
    ensures
        union_coverage(tecs) == d,
    decreases tecs,
{
    let c = choose|c: Seq<TranslationalEquivalence>|
        #[trigger] is_cosiatec(d, restrict_dpitch_zero, c) && c.len() == tecs.len() && forall|k: int|
            0 <= k < tecs.len() ==> recursia_entry(restrict_dpitch_zero, min_pattern_size, c[k], #[trigger] tecs[k]);
    assert forall|k: int| 0 <= k < tecs.len() implies (#[trigger] tecs[k]).coverage_set() == c[k].coverage_set() by {
        let t = tecs[k];
        assert(recursia_entry(restrict_dpitch_zero, min_pattern_size, c[k], t));
        lemma_cosiatec_flat(d, restrict_dpitch_zero, c, k);
        if c[k].pattern@.len() >= min_pattern_size {
            lemma_recursia_covers(c[k].pattern@.to_set(), restrict_dpitch_zero, min_pattern_size, t.sub_tecs@);
            if t.sub_tecs@.len() == 0 {
                assert(t.pattern@.to_set() =~= Set::<Point>::empty());
            }
            assert(t.pattern_points() == c[k].pattern_points());
        } else {
            assert(t.pattern_points() == c[k].pattern_points());
        }
    }
    lemma_union_coverage_eq(tecs, c);
}

/// RecurSIA is built on the COSIATEC result itself: for the result `c` of
/// COSIATEC on `d` (that of `cosiatec_compress`), a RecurSIA result on `d`
/// has one TEC per TEC of `c`, made from it: the same translators, and the
/// pattern replaced by a RecurSIA result on it where it has at least
/// `min_pattern_size` points, kept otherwise.
pub proof fn lemma_recursia_of_cosiatec(
    d: Set<Point>,
    restrict_dpitch_zero: bool,
    min_pattern_size: int,
    tecs: Seq<TranslationalEquivalence>,
    c: Seq<TranslationalEquivalence>,
)
    requires
        d.finite(),
        is_recursia(d, restrict_dpitch_zero, min_pattern_size, tecs),
        is_cosiatec(d, restrict_dpitch_zero, c),
    ensures
        tecs.len() == c.len(),
        forall|k: int|
            0 <= k < c.len() ==> recursia_entry(restrict_dpitch_zero, min_pattern_size, #[trigger] c[k], tecs[k]),
{
    let c0 = choose|c0: Seq<TranslationalEquivalence>|
        #[trigger] is_cosiatec(d, restrict_dpitch_zero, c0) && c0.len() == tecs.len() && forall|k: int|
            0 <= k < tecs.len() ==> recursia_entry(restrict_dpitch_zero, min_pattern_size, c0[k], #[trigger] tecs[k]);
    lemma_cosiatec_unique(d, restrict_dpitch_zero, c, c0);
    assert forall|k: int| 0 <= k < c.len() implies recursia_entry(
        restrict_dpitch_zero,
        min_pattern_size,
        #[trigger] c[k],
        tecs[k],
    ) by {
        assert(same_tec(c[k], c0[k]));
        assert(recursia_entry(restrict_dpitch_zero, min_pattern_size, c0[k], tecs[k]));
    }
}

/// Where `min_pattern_size` exceeds the number of points, RecurSIA recurses
/// into no pattern: its result is the COSIATEC result `c` unchanged.
pub proof fn lemma_recursia_shallow(
    d: Set<Point>,
    restrict_dpitch_zero: bool,
    min_pattern_size: int,
    tecs: Seq<TranslationalEquivalence>,
    c: Seq<TranslationalEquivalence>,
)
    requires
        d.finite(),
        min_pattern_size >= 2,
        min_pattern_size > d.len(),
        is_recursia(d, restrict_dpitch_zero, min_pattern_size, tecs),
        is_cosiatec(d, restrict_dpitch_zero, c),
    ensures
        tecs.len() == c.len(),
        forall|k: int| 0 <= k < c.len() ==> same_tec(#[trigger] tecs[k], c[k]),
{
    lemma_recursia_of_cosiatec(d, restrict_dpitch_zero, min_pattern_size, tecs, c);
    assert forall|k: int| 0 <= k < c.len() implies same_tec(#[trigger] tecs[k], c[k]) by {
        assert(recursia_entry(restrict_dpitch_zero, min_pattern_size, c[k], tecs[k]));
        lemma_cosiatec_flat(d, restrict_dpitch_zero, c, k);
        if c[k].pattern@.len() >= 2 {
            lemma_cosiatec_pattern(d, restrict_dpitch_zero, c, k);
        }
        assert(tecs[k].sub_tecs@ =~= c[k].sub_tecs@);
    }
}

/// Sequences whose TECs are, one by one, the same trees are the same trees.
proof fn lemma_same_trees_from_entries(a: Seq<TranslationalEquivalence>, b: Seq<TranslationalEquivalence>)
    requires
        a.len() == b.len(),
        forall|k: int| 0 <= k < a.len() ==> same_tree(#[trigger] a[k], b[k]),
    ensures
        same_trees(a, b),
    decreases a.len(),
{
    if a.len() > 0 {
        let a0 = a.drop_last();
        let b0 = b.drop_last();
        assert forall|k: int| 0 <= k < a0.len() implies same_tree(#[trigger] a0[k], b0[k]) by {
            assert(a0[k] == a[k]);
            assert(b0[k] == b[k]);
        }
        lemma_same_trees_from_entries(a0, b0);
        assert(a.last() == a[a.len() - 1]);
        assert(b.last() == b[b.len() - 1]);
    }
}

/// RecurSIA has one result: two TEC sequences that both qualify as the
/// RecurSIA result on `d` are the same trees. So `recursive_cosiatec_compress`
/// depends only on the set of points of its input, and the sub-TECs of each
/// TEC it returns are what it returns for that TEC's COSIATEC pattern.
pub proof fn lemma_recursia_unique(
    d: Set<Point>,
    restrict_dpitch_zero: bool,
    min_pattern_size: int,
    t1: Seq<TranslationalEquivalence>,
    t2: Seq<TranslationalEquivalence>,
)
    requires
        d.finite(),
        is_recursia(d, restrict_dpitch_zero, min_pattern_size, t1),
        is_recursia(d, restrict_dpitch_zero, min_pattern_size, t2),
    ensures
        same_trees(t1, t2),
    decreases t1,
{
    let c1 = choose|c: Seq<TranslationalEquivalence>|
        #[trigger] is_cosiatec(d, restrict_dpitch_zero, c) && c.len() == t1.len() && forall|k: int|
            0 <= k < t1.len() ==> recursia_entry(restrict_dpitch_zero, min_pattern_size, c[k], #[trigger] t1[k]);
    let c2 = choose|c: Seq<TranslationalEquivalence>|
        #[trigger] is_cosiatec(d, restrict_dpitch_zero, c) && c.len() == t2.len() && forall|k: int|
            0 <= k < t2.len() ==> recursia_entry(restrict_dpitch_zero, min_pattern_size, c[k], #[trigger] t2[k]);
    lemma_cosiatec_unique(d, restrict_dpitch_zero, c1, c2);
    assert forall|k: int| 0 <= k < t1.len() implies same_tree(#[trigger] t1[k], t2[k]) by {
        let a = t1[k];
        let b = t2[k];
        assert(recursia_entry(restrict_dpitch_zero, min_pattern_size, c1[k], a));
        assert(recursia_entry(restrict_dpitch_zero, min_pattern_size, c2[k], b));
        assert(same_tec(c1[k], c2[k]));
        if c1[k].pattern@.len() >= min_pattern_size {
            vstd::seq_lib::seq_to_set_is_finite(c1[k].pattern@);
            lemma_recursia_unique(
                c1[k].pattern@.to_set(),
                restrict_dpitch_zero,
                min_pattern_size,
                a.sub_tecs@,
                b.sub_tecs@,
            );
            assert(a.pattern@ =~= b.pattern@);
        }
    }
    lemma_same_trees_from_entries(t1, t2);
}

/// RECURSIA applied to COSIATEC.
///
/// Computes the COSIATEC cover of the dataset, then replaces the pattern of
/// every TEC that has at least `min_pattern_size` points by the RecurSIA
/// compression of that pattern, stored in the TEC's `sub_tecs`, and clears
/// the pattern. Smaller patterns are kept, with no sub-TECs. The result still
/// covers exactly the points of the dataset.
pub fn recursive_cosiatec_compress(
    dataset: &Vec<Point>,
    restrict_dpitch_zero: bool,
    min_pattern_size: usize,
) -> (tecs: Vec<TranslationalEquivalence>)
    requires
        within_i32(dataset@),
        dataset.len() <= 0x7fff_ffff_ffff_ffff,
        min_pattern_size >= 2,
    ensures
        is_recursia(dataset@.to_set(), restrict_dpitch_zero, min_pattern_size as int, tecs@),
        union_coverage(tecs@) == dataset@.to_set(),
    decreases dataset.len(),
{
    let ghost d = dataset@.to_set();
    let top = cosiatec_compress(dataset, restrict_dpitch_zero);
    proof {
        dataset@.lemma_cardinality_of_set();
        vstd::seq_lib::seq_to_set_is_finite(dataset@);
    }
    let mut out: Vec<TranslationalEquivalence> = Vec::new();
    let mut i: usize = 0;
    while i < top.len()
        invariant
            d == dataset@.to_set(),
            d.finite(),
            d.len() <= dataset.len(),
            within_i32(dataset@),
            dataset.len() <= 0x7fff_ffff_ffff_ffff,
            min_pattern_size >= 2,
            is_cosiatec(d, restrict_dpitch_zero, top@),
            i <= top.len(),
            out.len() == i,
            forall|k: int|
                0 <= k < i ==> recursia_entry(restrict_dpitch_zero, min_pattern_size as int, top@[k], #[trigger] out@[k]),
        decreases top.len() - i,
    {
        let t = &top[i];
        let translators = copy_vec(&t.translators);
        if t.pattern.len() >= min_pattern_size {
            proof {
                lemma_cosiatec_pattern(d, restrict_dpitch_zero, top@, i as int);
                assert forall|m: int| 0 <= m < t.pattern.len() implies #[trigger] t.pattern@[m].0 <= i32::MAX
                    && t.pattern@[m].1 <= i32::MAX by {
                    assert(t.pattern@.to_set().contains(t.pattern@[m]));
                    assert(d.contains(t.pattern@[m]));
                    let k = choose|k: int| 0 <= k < dataset.len() && dataset@[k] == t.pattern@[m];
                }
            }
            let subs = recursive_cosiatec_compress(&t.pattern, restrict_dpitch_zero, min_pattern_size);
            out.push(TranslationalEquivalence::new(Vec::new(), translators, Some(subs)));
        } else {
            let pattern = copy_vec(&t.pattern);
            out.push(TranslationalEquivalence::new(pattern, translators, None));
        }
        i = i + 1;
    }
    proof {
        assert(is_recursia(d, restrict_dpitch_zero, min_pattern_size as int, out@));
        lemma_recursia_covers(d, restrict_dpitch_zero, min_pattern_size as int, out@);
    }
    out
}

} // verus!
