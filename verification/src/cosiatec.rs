//! COSIATEC: greedy lossless compression of a point set by the TECs with the
//! best compression ratio.

use vstd::prelude::*;
use crate::geometry::{
    Point, Vector, admissible, has_two, lands_in, mtp, point_key, shifted, vector_key, within_i32,
};
use crate::siatec::{is_siatec, is_tec_for, siatec_sorted, siatec_witness, translator_set};
use crate::utils::tec_units;
use crate::sort::{contains_sorted, lemma_strictly_sorted_len, sort_unique, strictly_sorted, SortKey};
use crate::tec::{
    TranslationalEquivalence, lemma_spread_is_cover, lemma_union_coverage_eq, lemma_union_coverage_member,
    lemma_union_coverage_push, reached_from, same_tec, tec_cover, union_coverage,
};

verus! {

/// The points covered by the TEC of the MTP of `r` for `w`.
pub open spec fn cand_cover(r: Set<Point>, restrict_dpitch_zero: bool, w: Vector) -> Set<Point> {
    tec_cover(mtp(r, w), translator_set(mtp(r, w), r, restrict_dpitch_zero))
}

/// The size of the encoding of that TEC: its pattern points and its
/// translators.
pub open spec fn cand_units(r: Set<Point>, restrict_dpitch_zero: bool, w: Vector) -> nat {
    mtp(r, w).len() + translator_set(mtp(r, w), r, restrict_dpitch_zero).len()
}

/// The size of the encoding of a TEC: its pattern points and translators.
pub open spec fn units(t: TranslationalEquivalence) -> nat {
    t.pattern@.len() + t.translators@.len()
}

/// Some admissible vector of `r` has an MTP of two points or more.
pub open spec fn has_mtp(r: Set<Point>, restrict_dpitch_zero: bool) -> bool {
    exists|w: Vector| admissible(w, restrict_dpitch_zero) && #[trigger] has_two(mtp(r, w))
}

/// `t` is the TEC of the MTP of `r` for `v`, and the TEC of the MTP of every
/// admissible vector below `v` compresses strictly worse.
pub open spec fn chosen_for(r: Set<Point>, restrict_dpitch_zero: bool, v: Vector, t: TranslationalEquivalence) -> bool {
    &&& admissible(v, restrict_dpitch_zero)
    &&& has_two(mtp(r, v))
    &&& is_tec_for(r, restrict_dpitch_zero, v, t)
    &&& forall|w: Vector|
        admissible(w, restrict_dpitch_zero) && #[trigger] has_two(mtp(r, w)) && vector_key(w) < vector_key(v)
            ==> cand_cover(r, restrict_dpitch_zero, w).len() * units(t) < t.coverage_set().len() * cand_units(
            r,
            restrict_dpitch_zero,
            w,
        )
}

/// `t` is the TEC of an MTP of `r` whose compression ratio (points covered
/// per unit of encoding) is at least that of the TEC of every MTP of `r`,
/// and the first such in vector order.
pub open spec fn is_best_tec(r: Set<Point>, restrict_dpitch_zero: bool, t: TranslationalEquivalence) -> bool {
    &&& exists|v: Vector| #[trigger] chosen_for(r, restrict_dpitch_zero, v, t)
    &&& forall|w: Vector|
        admissible(w, restrict_dpitch_zero) && #[trigger] has_two(mtp(r, w)) ==> cand_cover(
            r,
            restrict_dpitch_zero,
            w,
        ).len() * units(t) <= t.coverage_set().len() * cand_units(r, restrict_dpitch_zero, w)
}

/// `t` holds the first point of `r`, in `(tick, pitch)` order, as a bare
/// pattern of one point.
pub open spec fn is_point_tec(r: Set<Point>, t: TranslationalEquivalence) -> bool {
    &&& t.pattern@.len() == 1
    &&& r.contains(t.pattern@[0])
    &&& forall|q: Point| #[trigger] r.contains(q) ==> point_key(t.pattern@[0]) <= point_key(q)
    &&& t.translators@.len() == 0
    &&& t.sub_tecs@.len() == 0
}

/// The TEC that COSIATEC extracts from the points `r` not yet covered: the
/// best TEC of an MTP or, where no MTP has two points, the first point.
pub open spec fn step_ok(r: Set<Point>, restrict_dpitch_zero: bool, t: TranslationalEquivalence) -> bool {
    if has_mtp(r, restrict_dpitch_zero) {
        is_best_tec(r, restrict_dpitch_zero, t)
    } else {
        is_point_tec(r, t)
    }
}

/// The points of `d` not covered by the first `i` TECs.
pub open spec fn remaining(d: Set<Point>, tecs: Seq<TranslationalEquivalence>, i: int) -> Set<Point> {
    d.difference(union_coverage(tecs.take(i)))
}

/// The coverages of the TECs are pairwise disjoint.
pub open spec fn coverages_disjoint(tecs: Seq<TranslationalEquivalence>) -> bool {
    forall|i: int, j: int|
        0 <= i < j < tecs.len() ==> (#[trigger] tecs[i]).coverage_set().disjoint(
            (#[trigger] tecs[j]).coverage_set(),
        )
}

/// The result of COSIATEC on `d`: TECs whose coverages partition `d`, each
/// extracted greedily from the points that the earlier ones left.
pub open spec fn is_cosiatec(d: Set<Point>, restrict_dpitch_zero: bool, tecs: Seq<TranslationalEquivalence>) -> bool {
    &&& union_coverage(tecs) == d
    &&& coverages_disjoint(tecs)
    &&& forall|i: int|
        0 <= i < tecs.len() ==> step_ok(remaining(d, tecs, i), restrict_dpitch_zero, #[trigger] tecs[i])
}

/// Ratios compare transitively: `a/b <= c/d <= e/f` gives `a/b <= e/f`.
proof fn lemma_ratio_trans(a: int, b: int, c: int, d: int, e: int, f: int)
    requires
        b > 0,
        d > 0,
        f > 0,
        a >= 0,
        c >= 0,
        e >= 0,
        a * d <= c * b,
        c * f <= e * d,
    ensures
        a * f <= e * b,
{
    assert(a * d * f <= c * b * f) by (nonlinear_arith)
        requires
            a * d <= c * b,
            f > 0,
    ;
    assert(c * b * f <= e * d * b) by (nonlinear_arith)
        requires
            c * f <= e * d,
            b > 0,
    ;
    assert(a * f <= e * b) by (nonlinear_arith)
        requires
            a * d * f <= e * d * b,
            d > 0,
    ;
}

/// Ratios compare transitively: `a/b <= c/d < e/f` gives `a/b < e/f`.
proof fn lemma_ratio_trans_strict(a: int, b: int, c: int, d: int, e: int, f: int)
    requires
        b > 0,
        d > 0,
        f > 0,
        a >= 0,
        c >= 0,
        e >= 0,
        a * d <= c * b,
        c * f < e * d,
    ensures
        a * f < e * b,
{
    assert(a * d * f <= c * b * f) by (nonlinear_arith)
        requires
            a * d <= c * b,
            f > 0,
    ;
    assert(c * b * f < e * d * b) by (nonlinear_arith)
        requires
            c * f < e * d,
            b > 0,
    ;
    assert(a * f < e * b) by (nonlinear_arith)
        requires
            a * d * f < e * d * b,
            d > 0,
    ;
}

/// What the TEC of an MTP covers lies within the points it was built from;
/// its coverage and encoding size are those of the candidate.
pub proof fn lemma_tec_for_facts(r: Set<Point>, restrict_dpitch_zero: bool, v: Vector, t: TranslationalEquivalence)
    requires
        is_tec_for(r, restrict_dpitch_zero, v, t),
        r.finite(),
    ensures
        t.coverage_set() == cand_cover(r, restrict_dpitch_zero, v),
        t.coverage_set().subset_of(r),
        t.coverage_set().finite(),
        units(t) == cand_units(r, restrict_dpitch_zero, v),
        t.pattern@.to_set().subset_of(t.coverage_set()),
{
    let p = mtp(r, v);
    let ts = translator_set(p, r, restrict_dpitch_zero);
    assert(t.pattern_points() == p);
    lemma_spread_is_cover(p, t.translators@);
    assert(t.coverage_set() == tec_cover(p, ts));
    lemma_strictly_sorted_len(t.pattern@);
    lemma_strictly_sorted_len(t.translators@);
    assert forall|q: Point| tec_cover(p, ts).contains(q) implies r.contains(q) by {
        if !p.contains(q) {
            let w = choose|w: Vector| ts.contains(w) && reached_from(q, p, w);
            let x: Point = ((q.0 - w.0) as u32, (q.1 - w.1) as u32);
            assert(p.contains(x));
            assert(lands_in(x, w, r));
            assert(shifted(x, w) == q);
        }
    }
    assert(tec_cover(p, ts).subset_of(r));
    vstd::set_lib::lemma_len_subset(tec_cover(p, ts), r);
}

/// The index of a TEC with the best compression ratio (the first such),
/// with that TEC's coverage.
fn pick_best(cands: &Vec<TranslationalEquivalence>) -> (res: (usize, Vec<Point>))
    requires
        cands.len() > 0,
        forall|k: int|
            0 <= k < cands.len() ==> 0 < units(#[trigger] cands@[k]) <= 0x1_0000_0000_0000_0000
                && cands@[k].coverage_set().len() <= 0x8000_0000_0000_0000,
    ensures
        res.0 < cands.len(),
        strictly_sorted(res.1@),
        res.1@.to_set() == cands@[res.0 as int].coverage_set(),
        forall|k: int|
            0 <= k < cands.len() ==> (#[trigger] cands@[k]).coverage_set().len() * units(cands@[res.0 as int])
                <= cands@[res.0 as int].coverage_set().len() * units(cands@[k]),
        forall|k: int|
            0 <= k < res.0 ==> (#[trigger] cands@[k]).coverage_set().len() * units(cands@[res.0 as int])
                < cands@[res.0 as int].coverage_set().len() * units(cands@[k]),
{
    let mut best: usize = 0;
    let mut bcov = cands[0].coverage();
    let mut bunits: u128 = cands[0].pattern.len() as u128 + cands[0].translators.len() as u128;
    proof {
        lemma_strictly_sorted_len(bcov@);
        assert(cands@[0].coverage_set().len() * units(cands@[0]) <= cands@[0].coverage_set().len() * units(
            cands@[0],
        ));
    }
    let mut k: usize = 1;
    while k < cands.len()
        invariant
            1 <= k <= cands.len(),
            best < k,
            forall|m: int|
                0 <= m < cands.len() ==> 0 < units(#[trigger] cands@[m]) <= 0x1_0000_0000_0000_0000
                    && cands@[m].coverage_set().len() <= 0x8000_0000_0000_0000,
            strictly_sorted(bcov@),
            bcov@.to_set() == cands@[best as int].coverage_set(),
            bcov@.len() == cands@[best as int].coverage_set().len(),
            bunits == units(cands@[best as int]),
            forall|m: int|
                0 <= m < k ==> (#[trigger] cands@[m]).coverage_set().len() * units(cands@[best as int])
                    <= cands@[best as int].coverage_set().len() * units(cands@[m]),
            forall|m: int|
                0 <= m < best ==> (#[trigger] cands@[m]).coverage_set().len() * units(cands@[best as int])
                    < cands@[best as int].coverage_set().len() * units(cands@[m]),
        decreases cands.len() - k,
    {
        let c = cands[k].coverage();
        let cu: u128 = cands[k].pattern.len() as u128 + cands[k].translators.len() as u128;
        proof {
            lemma_strictly_sorted_len(c@);
            assert(units(cands@[k as int]) <= 0x1_0000_0000_0000_0000);
            assert(units(cands@[best as int]) <= 0x1_0000_0000_0000_0000);
            let cl = c.len() as int;
            let bl = bcov.len() as int;
            let x = bunits as int;
            let y = cu as int;
            assert(cl * x <= 0x8000_0000_0000_0000 * 0x1_0000_0000_0000_0000) by (nonlinear_arith)
                requires
                    0 <= cl <= 0x8000_0000_0000_0000,
                    0 <= x <= 0x1_0000_0000_0000_0000,
            ;
            assert(bl * y <= 0x8000_0000_0000_0000 * 0x1_0000_0000_0000_0000) by (nonlinear_arith)
                requires
                    0 <= bl <= 0x8000_0000_0000_0000,
                    0 <= y <= 0x1_0000_0000_0000_0000,
            ;
        }
        let lhs: u128 = (c.len() as u128) * bunits;
        let rhs: u128 = (bcov.len() as u128) * cu;
        if lhs > rhs {
            proof {
                let e = cands@[k as int].coverage_set().len() as int;
                let f = units(cands@[k as int]) as int;
                let cc = cands@[best as int].coverage_set().len() as int;
                let d = units(cands@[best as int]) as int;
                assert forall|m: int| 0 <= m < k + 1 implies (#[trigger] cands@[m]).coverage_set().len() * units(
                    cands@[k as int],
                ) <= cands@[k as int].coverage_set().len() * units(cands@[m]) by {
                    if m < k {
                        lemma_ratio_trans(
                            cands@[m].coverage_set().len() as int,
                            units(cands@[m]) as int,
                            cc,
                            d,
                            e,
                            f,
                        );
                    }
                }
                assert forall|m: int| 0 <= m < k implies (#[trigger] cands@[m]).coverage_set().len() * units(
                    cands@[k as int],
                ) < cands@[k as int].coverage_set().len() * units(cands@[m]) by {
                    lemma_ratio_trans_strict(
                        cands@[m].coverage_set().len() as int,
                        units(cands@[m]) as int,
                        cc,
                        d,
                        e,
                        f,
                    );
                }
            }
            best = k;
            bcov = c;
            bunits = cu;
        }
        k = k + 1;
    }
    (best, bcov)
}

/// The points of `rest` that are not points of `cov`.
fn remove_points(rest: &Vec<Point>, cov: &Vec<Point>) -> (r: Vec<Point>)
    requires
        strictly_sorted(rest@),
        strictly_sorted(cov@),
    ensures
        strictly_sorted(r@),
        r@.to_set() == rest@.to_set().difference(cov@.to_set()),
        r.len() <= rest.len(),
        (exists|x: Point| rest@.contains(x) && cov@.contains(x)) ==> r.len() < rest.len(),
{
    let mut r: Vec<Point> = Vec::new();
    let mut i: usize = 0;
    while i < rest.len()
        invariant
            i <= rest.len(),
            strictly_sorted(rest@),
            strictly_sorted(cov@),
            strictly_sorted(r@),
            i < rest.len() ==> forall|m: int| 0 <= m < r.len() ==> #[trigger] r@[m].key() < rest@[i as int].key(),
            forall|x: Point| r@.contains(x) <==> (rest@.take(i as int).contains(x) && !cov@.contains(x)),
            r.len() <= i,
            (exists|j: int| 0 <= j < i && cov@.contains(#[trigger] rest@[j])) ==> r.len() < i,
        decreases rest.len() - i,
    {
        let x = rest[i];
        let ghost old_r = r@;
        assert(rest@.take(i + 1) =~= rest@.take(i as int).push(x));
        proof {
            assert forall|y: Point| rest@.take(i + 1).contains(y) <==> (rest@.take(i as int).contains(y) || y == x) by {
                if rest@.take(i + 1).contains(y) {
                    let t1 = rest@.take(i + 1);
                    let m = choose|m: int| 0 <= m < t1.len() && t1[m] == y;
                    if m < i {
                        assert(rest@.take(i as int)[m] == y);
                    }
                }
                if rest@.take(i as int).contains(y) {
                    let t0 = rest@.take(i as int);
                    let m = choose|m: int| 0 <= m < t0.len() && t0[m] == y;
                    assert(rest@.take(i + 1)[m] == y);
                }
                if y == x {
                    assert(rest@.take(i + 1)[i as int] == y);
                }
            }
        }
        if !contains_sorted(cov, &x) {
            r.push(x);
            assert(r@ == old_r.push(x));
            assert forall|y: Point| r@.contains(y) <==> (old_r.contains(y) || y == x) by {
                if r@.contains(y) {
                    let m = choose|m: int| 0 <= m < r.len() && r@[m] == y;
                    if m < old_r.len() {
                        assert(old_r[m] == y);
                    }
                }
                if old_r.contains(y) {
                    let m = choose|m: int| 0 <= m < old_r.len() && old_r[m] == y;
                    assert(r@[m] == y);
                }
                if y == x {
                    assert(r@[r.len() - 1] == y);
                }
            }
        } else {
            assert(cov@.contains(rest@[i as int]));
        }
        assert forall|y: Point| r@.contains(y) <==> (rest@.take(i + 1).contains(y) && !cov@.contains(y)) by {
            assert(old_r.contains(y) <==> (rest@.take(i as int).contains(y) && !cov@.contains(y)));
        }
        if i + 1 < rest.len() {
            assert(rest@[i as int].key() < rest@[i + 1].key());
        }
        i = i + 1;
    }
    proof {
        assert(rest@.take(rest.len() as int) =~= rest@);
        assert(r@.to_set() =~= rest@.to_set().difference(cov@.to_set()));
        if exists|x: Point| rest@.contains(x) && cov@.contains(x) {
            let x = choose|x: Point| rest@.contains(x) && cov@.contains(x);
            let j = choose|j: int| 0 <= j < rest.len() && rest@[j] == x;
            assert(cov@.contains(rest@[j]));
        }
    }
    r
}

/// The candidates of SIATEC can be compared without overflow.
proof fn lemma_candidate_bounds(r: Set<Point>, restrict_dpitch_zero: bool, cands: Seq<TranslationalEquivalence>)
    requires
        is_siatec(r, restrict_dpitch_zero, cands),
        r.finite(),
        r.len() <= 0x7fff_ffff_ffff_ffff,
        forall|k: int|
            0 <= k < cands.len() ==> (#[trigger] cands[k]).pattern.len() <= r.len() && cands[k].translators.len()
                <= r.len(),
    ensures
        forall|k: int|
            0 <= k < cands.len() ==> 0 < units(#[trigger] cands[k]) <= 0x1_0000_0000_0000_0000
                && cands[k].coverage_set().len() <= 0x8000_0000_0000_0000,
{
    let vs = choose|vs: Seq<Vector>| siatec_witness(r, restrict_dpitch_zero, cands, vs);
    assert forall|k: int| 0 <= k < cands.len() implies 0 < units(#[trigger] cands[k]) <= 0x1_0000_0000_0000_0000
        && cands[k].coverage_set().len() <= 0x8000_0000_0000_0000 by {
        assert(admissible(vs[k], restrict_dpitch_zero));
        lemma_tec_for_facts(r, restrict_dpitch_zero, vs[k], cands[k]);
        vstd::set_lib::lemma_len_subset(cands[k].coverage_set(), r);
        crate::sia::lemma_two_points_len(cands[k].pattern@);
    }
}

/// The candidate that compresses best among those of SIATEC is a best TEC.
proof fn lemma_best_of_siatec(r: Set<Point>, restrict_dpitch_zero: bool, cands: Seq<TranslationalEquivalence>, bi: int)
    requires
        is_siatec(r, restrict_dpitch_zero, cands),
        r.finite(),
        0 <= bi < cands.len(),
        forall|k: int|
            0 <= k < cands.len() ==> (#[trigger] cands[k]).coverage_set().len() * units(cands[bi])
                <= cands[bi].coverage_set().len() * units(cands[k]),
        forall|k: int|
            0 <= k < bi ==> (#[trigger] cands[k]).coverage_set().len() * units(cands[bi])
                < cands[bi].coverage_set().len() * units(cands[k]),
    ensures
        is_best_tec(r, restrict_dpitch_zero, cands[bi]),
        cands[bi].coverage_set().subset_of(r),
        cands[bi].pattern@.to_set().subset_of(cands[bi].coverage_set()),
        cands[bi].pattern@.len() >= 2,
{
    let vs = choose|vs: Seq<Vector>| siatec_witness(r, restrict_dpitch_zero, cands, vs);
    let t = cands[bi];
    assert(admissible(vs[bi], restrict_dpitch_zero));
    lemma_tec_for_facts(r, restrict_dpitch_zero, vs[bi], t);
    crate::sia::lemma_two_points_len(t.pattern@);
    assert forall|w: Vector| admissible(w, restrict_dpitch_zero) && #[trigger] has_two(mtp(r, w)) implies cand_cover(
        r,
        restrict_dpitch_zero,
        w,
    ).len() * units(t) <= t.coverage_set().len() * cand_units(r, restrict_dpitch_zero, w) by {
        let k = choose|k: int| 0 <= k < vs.len() && vs[k] == w;
        assert(admissible(vs[k], restrict_dpitch_zero));
        lemma_tec_for_facts(r, restrict_dpitch_zero, vs[k], cands[k]);
    }
    assert forall|w: Vector|
        admissible(w, restrict_dpitch_zero) && #[trigger] has_two(mtp(r, w)) && vector_key(w) < vector_key(vs[bi])
            implies cand_cover(r, restrict_dpitch_zero, w).len() * units(t) < t.coverage_set().len() * cand_units(
            r,
            restrict_dpitch_zero,
            w,
        ) by {
        let k = choose|k: int| 0 <= k < vs.len() && vs[k] == w;
        assert(admissible(vs[k], restrict_dpitch_zero));
        lemma_tec_for_facts(r, restrict_dpitch_zero, vs[k], cands[k]);
        if k >= bi {
            if k > bi {
                assert(vector_key(vs[bi]) < vector_key(vs[k]));
            }
            assert(false);
        }
    }
    assert(chosen_for(r, restrict_dpitch_zero, vs[bi], t));
}

/// A subset of a set without MTPs of two points has none either.
proof fn lemma_no_mtp_subset(r: Set<Point>, s: Set<Point>, restrict_dpitch_zero: bool)
    requires
        !has_mtp(r, restrict_dpitch_zero),
        s.subset_of(r),
    ensures
        !has_mtp(s, restrict_dpitch_zero),
{
    if has_mtp(s, restrict_dpitch_zero) {
        let w = choose|w: Vector| admissible(w, restrict_dpitch_zero) && #[trigger] has_two(mtp(s, w));
        let (p, q) = choose|p: Point, q: Point| mtp(s, w).contains(p) && mtp(s, w).contains(q) && p != q;
        assert(mtp(r, w).contains(p));
        assert(mtp(r, w).contains(q));
        assert(has_two(mtp(r, w)));
    }
}

/// Appending the TEC extracted from the remaining points keeps the
/// invariants of COSIATEC.
proof fn lemma_step_push(
    d: Set<Point>,
    restrict_dpitch_zero: bool,
    tecs: Seq<TranslationalEquivalence>,
    t: TranslationalEquivalence,
)
    requires
        union_coverage(tecs).subset_of(d),
        coverages_disjoint(tecs),
        forall|i: int|
            0 <= i < tecs.len() ==> step_ok(remaining(d, tecs, i), restrict_dpitch_zero, #[trigger] tecs[i]),
        t.coverage_set().subset_of(d.difference(union_coverage(tecs))),
        step_ok(d.difference(union_coverage(tecs)), restrict_dpitch_zero, t),
    ensures
        union_coverage(tecs.push(t)).subset_of(d),
        coverages_disjoint(tecs.push(t)),
        forall|i: int|
            0 <= i < tecs.push(t).len() ==> step_ok(
                remaining(d, tecs.push(t), i),
                restrict_dpitch_zero,
                #[trigger] tecs.push(t)[i],
            ),
        d.difference(union_coverage(tecs.push(t))) == d.difference(union_coverage(tecs)).difference(
            t.coverage_set(),
        ),
{
    let u = union_coverage(tecs);
    let nt = tecs.push(t);
    lemma_union_coverage_push(tecs, t);
    assert forall|i: int| 0 <= i < nt.len() implies step_ok(remaining(d, nt, i), restrict_dpitch_zero, #[trigger] nt[i]) by {
        if i < tecs.len() {
            assert(nt.take(i) =~= tecs.take(i));
            assert(nt[i] == tecs[i]);
        } else {
            assert(nt.take(i) =~= tecs);
        }
    }
    assert forall|i: int, j: int| 0 <= i < j < nt.len() implies (#[trigger] nt[i]).coverage_set().disjoint(
        (#[trigger] nt[j]).coverage_set(),
    ) by {
        if j < tecs.len() {
            assert(nt[i] == tecs[i]);
            assert(nt[j] == tecs[j]);
        } else {
            assert(nt[i] == tecs[i]);
            lemma_union_coverage_member(tecs, i);
        }
    }
    assert(d.difference(union_coverage(nt)) =~= d.difference(u).difference(t.coverage_set()));
}

/// The TEC of an MTP covers more points than its pattern holds.
proof fn lemma_tec_pattern_smaller(r: Set<Point>, restrict_dpitch_zero: bool, v: Vector, t: TranslationalEquivalence)
    requires
        is_tec_for(r, restrict_dpitch_zero, v, t),
        admissible(v, restrict_dpitch_zero),
        has_two(mtp(r, v)),
        r.finite(),
    ensures
        t.pattern@.len() < t.coverage_set().len(),
{
    lemma_tec_for_facts(r, restrict_dpitch_zero, v, t);
    let p = mtp(r, v);
    let cov = t.coverage_set();
    let ps = t.pattern@;
    let n = ps.len() as int;
    lemma_strictly_sorted_len(ps);
    crate::sia::lemma_two_points_len(ps);
    let x: Point = if v.0 > 0 || (v.0 == 0 && v.1 > 0) {
        ps[n - 1]
    } else {
        ps[0]
    };
    assert(ps.to_set().contains(x));
    assert(lands_in(x, v, r));
    let q = shifted(x, v);
    assert(translator_set(p, r, restrict_dpitch_zero).contains(v));
    assert(reached_from(q, p, v));
    assert(cov.contains(q));
    if ps.to_set().contains(q) {
        let m = choose|m: int| 0 <= m < n && ps[m] == q;
        if v.0 > 0 || (v.0 == 0 && v.1 > 0) {
            if m < n - 1 {
                assert(ps[m].key() < ps[n - 1].key());
            }
        } else {
            if m > 0 {
                assert(ps[0].key() < ps[m].key());
            }
        }
        assert(false);
    }
    assert(ps.to_set().subset_of(cov.remove(q)));
    vstd::set_lib::lemma_len_subset(ps.to_set(), cov.remove(q));
}

/// The TECs of COSIATEC hold their patterns themselves: none has sub-TECs.
pub proof fn lemma_cosiatec_flat(d: Set<Point>, restrict_dpitch_zero: bool, tecs: Seq<TranslationalEquivalence>, i: int)
    requires
        is_cosiatec(d, restrict_dpitch_zero, tecs),
        0 <= i < tecs.len(),
    ensures
        tecs[i].sub_tecs@.len() == 0,
        tecs[i].pattern_points() == tecs[i].pattern@.to_set(),
{
    let r = remaining(d, tecs, i);
    assert(step_ok(r, restrict_dpitch_zero, tecs[i]));
    if has_mtp(r, restrict_dpitch_zero) {
        let v = choose|v: Vector| #[trigger] chosen_for(r, restrict_dpitch_zero, v, tecs[i]);
    }
}

/// A pattern of two points or more in the result of COSIATEC is the pattern
/// of a TEC with translators: it has fewer points than the dataset.
pub proof fn lemma_cosiatec_pattern(
    d: Set<Point>,
    restrict_dpitch_zero: bool,
    tecs: Seq<TranslationalEquivalence>,
    i: int,
)
    requires
        is_cosiatec(d, restrict_dpitch_zero, tecs),
        d.finite(),
        0 <= i < tecs.len(),
        tecs[i].pattern@.len() >= 2,
    ensures
        tecs[i].pattern@.len() < d.len(),
        tecs[i].pattern@.to_set().subset_of(d),
        strictly_sorted(tecs[i].pattern@),
        tecs[i].sub_tecs@.len() == 0,
{
    let r = remaining(d, tecs, i);
    let t = tecs[i];
    assert(step_ok(r, restrict_dpitch_zero, t));
    assert(r.subset_of(d));
    vstd::set_lib::lemma_len_subset(r, d);
    assert(has_mtp(r, restrict_dpitch_zero));
    let v = choose|v: Vector| #[trigger] chosen_for(r, restrict_dpitch_zero, v, t);
    lemma_tec_for_facts(r, restrict_dpitch_zero, v, t);
    lemma_tec_pattern_smaller(r, restrict_dpitch_zero, v, t);
    vstd::set_lib::lemma_len_subset(t.coverage_set(), r);
}

/// Compresses a point set with COSIATEC.
///
/// Repeatedly builds the TECs of the maximal translatable patterns of the
/// points not yet covered (SIATEC), extracts the one with the best
/// compression ratio (points covered per pattern point and translator; the
/// first in vector order among equals), and removes the points it covers.
/// Where no pattern of two points or more is left, each remaining point, in
/// `(tick, pitch)` order, becomes a TEC of its own without translators. The
/// coverages of the result partition the dataset: the compression is
/// lossless.
pub fn cosiatec_compress(dataset: &Vec<Point>, restrict_dpitch_zero: bool) -> (tecs: Vec<TranslationalEquivalence>)
    requires
        within_i32(dataset@),
        dataset.len() <= 0x7fff_ffff_ffff_ffff,
    ensures
        is_cosiatec(dataset@.to_set(), restrict_dpitch_zero, tecs@),
{
    let ghost d = dataset@.to_set();
    let mut rest = sort_unique(dataset);
    proof {
        lemma_strictly_sorted_len(rest@);
        dataset@.lemma_cardinality_of_set();
        assert forall|i: int| 0 <= i < rest.len() implies #[trigger] rest@[i].0 <= i32::MAX && rest@[i].1 <= i32::MAX by {
            assert(rest@.to_set().contains(rest@[i]));
            let k = choose|k: int| 0 <= k < dataset.len() && dataset@[k] == rest@[i];
        }
    }
    let mut tecs: Vec<TranslationalEquivalence> = Vec::new();
    assert(union_coverage(tecs@) =~= Set::<Point>::empty());
    assert(rest@.to_set() =~= d.difference(union_coverage(tecs@)));
    while rest.len() > 0
        invariant
            d == dataset@.to_set(),
            strictly_sorted(rest@),
            within_i32(rest@),
            rest.len() <= 0x7fff_ffff_ffff_ffff,
            rest@.to_set() == d.difference(union_coverage(tecs@)),
            union_coverage(tecs@).subset_of(d),
            coverages_disjoint(tecs@),
            forall|i: int|
                0 <= i < tecs.len() ==> step_ok(remaining(d, tecs@, i), restrict_dpitch_zero, #[trigger] tecs@[i]),
        decreases rest.len(),
    {
        let ghost r = rest@.to_set();
        let ghost old_tecs = tecs@;
        proof {
            lemma_strictly_sorted_len(rest@);
        }
        let mut cands = siatec_sorted(&rest, restrict_dpitch_zero);
        if cands.len() == 0 {
            proof {
                if has_mtp(r, restrict_dpitch_zero) {
                    let w = choose|w: Vector| admissible(w, restrict_dpitch_zero) && #[trigger] has_two(mtp(r, w));
                    assert(is_siatec(r, restrict_dpitch_zero, cands@));
                    let vs = choose|vs: Seq<Vector>| siatec_witness(r, restrict_dpitch_zero, cands@, vs);
                    assert(false);
                }
            }
            let mut j: usize = 0;
            assert(rest@.skip(0) =~= rest@);
            while j < rest.len()
                invariant
                    d == dataset@.to_set(),
                    r == rest@.to_set(),
                    strictly_sorted(rest@),
                    j <= rest.len(),
                    !has_mtp(r, restrict_dpitch_zero),
                    rest@.skip(j as int).to_set() == d.difference(union_coverage(tecs@)),
                    union_coverage(tecs@).subset_of(d),
                    coverages_disjoint(tecs@),
                    forall|i: int|
                        0 <= i < tecs.len() ==> step_ok(remaining(d, tecs@, i), restrict_dpitch_zero, #[trigger] tecs@[i]),
                decreases rest.len() - j,
            {
                let p = rest[j];
                let mut pat: Vec<Point> = Vec::new();
                pat.push(p);
                let t = TranslationalEquivalence::new(pat, Vec::new(), None);
                proof {
                    let rj = rest@.skip(j as int).to_set();
                    assert(rest@.skip(j as int)[0] == p);
                    assert(t.pattern@ =~= seq![p]);
                    assert(t.translators@.len() == 0);
                    assert(t.sub_tecs@.len() == 0);
                    assert(t.pattern_points() == t.pattern@.to_set());
                    assert(t.pattern@.to_set() =~= set![p]) by {
                        assert(t.pattern@[0] == p);
                    }
                    assert(t.coverage_set() =~= set![p]);
                    assert forall|q: Point| #[trigger] rj.contains(q) implies point_key(p) <= point_key(q) by {
                        let s0 = rest@.skip(j as int);
                        let m = choose|m: int| 0 <= m < s0.len() && s0[m] == q;
                        if m > 0 {
                            assert(rest@[j as int].key() < rest@[j + m].key());
                        }
                    }
                    lemma_no_mtp_subset(r, rj, restrict_dpitch_zero);
                    assert(is_point_tec(rj, t));
                    lemma_step_push(d, restrict_dpitch_zero, tecs@, t);
                    assert(rj.remove(p) =~= rest@.skip(j + 1).to_set()) by {
                        assert forall|q: Point| rest@.skip(j + 1).to_set().contains(q) implies rj.remove(p).contains(q) by {
                            let s1 = rest@.skip(j + 1);
                            let m = choose|m: int| 0 <= m < s1.len() && s1[m] == q;
                            assert(rest@.skip(j as int)[m + 1] == q);
                            assert(rest@[j as int].key() < rest@[j + 1 + m].key());
                        }
                        assert forall|q: Point| rj.remove(p).contains(q) implies rest@.skip(j + 1).to_set().contains(q) by {
                            let s0 = rest@.skip(j as int);
                            let m = choose|m: int| 0 <= m < s0.len() && s0[m] == q;
                            assert(m != 0);
                            assert(rest@.skip(j + 1)[m - 1] == q);
                        }
                    }
                }
                tecs.push(t);
                j = j + 1;
            }
            proof {
                assert(rest@.skip(rest.len() as int).to_set() =~= Set::<Point>::empty());
            }
            rest = Vec::new();
            assert(rest@.to_set() =~= d.difference(union_coverage(tecs@)));
        } else {
            proof {
                lemma_candidate_bounds(r, restrict_dpitch_zero, cands@);
            }
            let (bi, bcov) = pick_best(&cands);
            let ghost old_cands = cands@;
            let best = cands.remove(bi);
            proof {
                lemma_best_of_siatec(r, restrict_dpitch_zero, old_cands, bi as int);
                assert(best == old_cands[bi as int]);
                lemma_step_push(d, restrict_dpitch_zero, old_tecs, best);
                assert(best.pattern@.to_set().contains(best.pattern@[0]));
                assert(rest@.contains(best.pattern@[0]));
                assert(bcov@.contains(best.pattern@[0]));
            }
            let new_rest = remove_points(&rest, &bcov);
            proof {
                assert forall|i: int| 0 <= i < new_rest.len() implies #[trigger] new_rest@[i].0 <= i32::MAX
                    && new_rest@[i].1 <= i32::MAX by {
                    assert(new_rest@.to_set().contains(new_rest@[i]));
                    let k = choose|k: int| 0 <= k < rest.len() && rest@[k] == new_rest@[i];
                }
            }
            tecs.push(best);
            rest = new_rest;
        }
    }
    proof {
        assert(rest@.to_set() =~= Set::<Point>::empty());
        assert(union_coverage(tecs@) =~= d);
    }
    tecs
}


/// One step of COSIATEC has one outcome: two TECs that both qualify as the
/// TEC extracted from the points `r` are the same TEC.
proof fn lemma_step_unique(
    r: Set<Point>,
    restrict_dpitch_zero: bool,
    t1: TranslationalEquivalence,
    t2: TranslationalEquivalence,
)
    requires
        r.finite(),
        step_ok(r, restrict_dpitch_zero, t1),
        step_ok(r, restrict_dpitch_zero, t2),
    ensures
        same_tec(t1, t2),
{
    if has_mtp(r, restrict_dpitch_zero) {
        let v1 = choose|v: Vector| #[trigger] chosen_for(r, restrict_dpitch_zero, v, t1);
        let v2 = choose|v: Vector| #[trigger] chosen_for(r, restrict_dpitch_zero, v, t2);
        lemma_tec_for_facts(r, restrict_dpitch_zero, v1, t1);
        lemma_tec_for_facts(r, restrict_dpitch_zero, v2, t2);
        if vector_key(v1) < vector_key(v2) {
            assert(has_two(mtp(r, v1)));
            assert(has_two(mtp(r, v2)));
            assert(false);
        }
        if vector_key(v2) < vector_key(v1) {
            assert(has_two(mtp(r, v1)));
            assert(has_two(mtp(r, v2)));
            assert(false);
        }
        <Vector as SortKey>::lemma_key_injective(v1, v2);
        assert(v1 == v2);
        crate::sort::lemma_strictly_sorted_unique(t1.pattern@, t2.pattern@);
        crate::sort::lemma_strictly_sorted_unique(t1.translators@, t2.translators@);
    } else {
        let p1 = t1.pattern@[0];
        let p2 = t2.pattern@[0];
        assert(point_key(p1) <= point_key(p2));
        assert(point_key(p2) <= point_key(p1));
        <Point as SortKey>::lemma_key_injective(p1, p2);
        assert(t1.pattern@ =~= t2.pattern@);
        assert(t1.translators@ =~= t2.translators@);
    }
    assert(t1.sub_tecs@ =~= t2.sub_tecs@);
}

/// Two results of COSIATEC on `d` agree on their first `i` TECs.
proof fn lemma_cosiatec_prefix_unique(
    d: Set<Point>,
    restrict_dpitch_zero: bool,
    c1: Seq<TranslationalEquivalence>,
    c2: Seq<TranslationalEquivalence>,
    i: int,
)
    requires
        d.finite(),
        is_cosiatec(d, restrict_dpitch_zero, c1),
        is_cosiatec(d, restrict_dpitch_zero, c2),
        0 <= i <= c1.len(),
        i <= c2.len(),
    ensures
        forall|k: int| 0 <= k < i ==> same_tec(#[trigger] c1[k], c2[k]),
        remaining(d, c1, i) == remaining(d, c2, i),
    decreases i,
{
    if i == 0 {
        assert(c1.take(0) =~= c2.take(0));
    } else {
        lemma_cosiatec_prefix_unique(d, restrict_dpitch_zero, c1, c2, i - 1);
        let r = remaining(d, c1, i - 1);
        assert(r.subset_of(d));
        vstd::set_lib::lemma_len_subset(r, d);
        lemma_step_unique(r, restrict_dpitch_zero, c1[i - 1], c2[i - 1]);
        let a = c1.take(i);
        let b = c2.take(i);
        assert forall|k: int| 0 <= k < a.len() implies (#[trigger] a[k]).coverage_set() == b[k].coverage_set() by {
            assert(a[k] == c1[k]);
            assert(b[k] == c2[k]);
            assert(same_tec(c1[k], c2[k]));
        }
        lemma_union_coverage_eq(a, b);
    }
}

/// COSIATEC has one result: two TEC sequences that both qualify as the
/// result of COSIATEC on `d` hold the same TECs in the same order. So
/// `cosiatec_compress` depends only on the set of points of its input.
pub proof fn lemma_cosiatec_unique(
    d: Set<Point>,
    restrict_dpitch_zero: bool,
    c1: Seq<TranslationalEquivalence>,
    c2: Seq<TranslationalEquivalence>,
)
    requires
        d.finite(),
        is_cosiatec(d, restrict_dpitch_zero, c1),
        is_cosiatec(d, restrict_dpitch_zero, c2),
    ensures
        c1.len() == c2.len(),
        forall|k: int| 0 <= k < c1.len() ==> same_tec(#[trigger] c1[k], c2[k]),
{
    if c1.len() <= c2.len() {
        lemma_cosiatec_same_len(d, restrict_dpitch_zero, c1, c2);
    } else {
        lemma_cosiatec_same_len(d, restrict_dpitch_zero, c2, c1);
    }
    lemma_cosiatec_prefix_unique(d, restrict_dpitch_zero, c1, c2, c1.len() as int);
}

/// A result of COSIATEC is not a proper prefix of another.
proof fn lemma_cosiatec_same_len(
    d: Set<Point>,
    restrict_dpitch_zero: bool,
    c1: Seq<TranslationalEquivalence>,
    c2: Seq<TranslationalEquivalence>,
)
    requires
        d.finite(),
        is_cosiatec(d, restrict_dpitch_zero, c1),
        is_cosiatec(d, restrict_dpitch_zero, c2),
        c1.len() <= c2.len(),
    ensures
        c1.len() == c2.len(),
{
    if c1.len() < c2.len() {
        let n = c1.len() as int;
        lemma_cosiatec_prefix_unique(d, restrict_dpitch_zero, c1, c2, n);
        assert(c1.take(n) =~= c1);
        let r = remaining(d, c2, n);
        assert(r =~= Set::<Point>::empty());
        assert(step_ok(r, restrict_dpitch_zero, c2[n]));
        if has_mtp(r, restrict_dpitch_zero) {
            let w = choose|w: Vector| admissible(w, restrict_dpitch_zero) && #[trigger] has_two(mtp(r, w));
            let (p, q) = choose|p: Point, q: Point| mtp(r, w).contains(p) && mtp(r, w).contains(q) && p != q;
            assert(r.contains(p));
        }
        assert(r.contains(c2[n].pattern@[0]));
    }
}


/// The TEC that COSIATEC extracts at a step maximises the compression
/// ratio, points covered per unit of encoding, where a TEC's encoding counts
/// its pattern points and its translators (the count of `count_units`):
/// among the TECs of the MTPs of the points left, none covers more points
/// per unit. A step where no MTP has two points extracts one point.
pub proof fn lemma_cosiatec_best_ratio(
    d: Set<Point>,
    restrict_dpitch_zero: bool,
    c: Seq<TranslationalEquivalence>,
    i: int,
)
    requires
        d.finite(),
        is_cosiatec(d, restrict_dpitch_zero, c),
        0 <= i < c.len(),
    ensures
        tec_units(c[i]) == c[i].pattern@.len() + c[i].translators@.len(),
        has_mtp(remaining(d, c, i), restrict_dpitch_zero) ==> forall|w: Vector|
            admissible(w, restrict_dpitch_zero) && #[trigger] has_two(mtp(remaining(d, c, i), w)) ==> ({
                let r = remaining(d, c, i);
                let ts = translator_set(mtp(r, w), r, restrict_dpitch_zero);
                tec_cover(mtp(r, w), ts).len() * (c[i].pattern@.len() + c[i].translators@.len())
                    <= c[i].coverage_set().len() * (mtp(r, w).len() + ts.len())
            }),
        !has_mtp(remaining(d, c, i), restrict_dpitch_zero) ==> c[i].pattern@.len() == 1
            && c[i].translators@.len() == 0 && c[i].coverage_set().len() == 1,
{
    let r = remaining(d, c, i);
    lemma_cosiatec_flat(d, restrict_dpitch_zero, c, i);
    assert(step_ok(r, restrict_dpitch_zero, c[i]));
    if !has_mtp(r, restrict_dpitch_zero) {
        let p = c[i].pattern@[0];
        assert(c[i].pattern@.to_set() =~= set![p]);
        assert(c[i].coverage_set() == c[i].pattern@.to_set());
        assert(set![p].len() == 1);
    }
}

} // verus!
