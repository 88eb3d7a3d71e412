//! Translational equivalence classes (TECs): a pattern together with the
//! vectors that translate it within a dataset.

use vstd::prelude::*;
use crate::geometry::{Point, Vector, fits, shifted, translate};
use crate::sort::{sort_unique, strictly_sorted};

verus! {

/// `q - v` is a point of `s`.
pub open spec fn reached_from(q: Point, s: Set<Point>, v: Vector) -> bool {
    0 <= q.0 - v.0 <= u32::MAX && 0 <= q.1 - v.1 <= u32::MAX && s.contains(
        ((q.0 - v.0) as u32, (q.1 - v.1) as u32),
    )
}

/// The translation of `s` by `v` (the translated points that have
/// coordinates in the range of `u32`).
pub open spec fn image(s: Set<Point>, v: Vector) -> Set<Point> {
    Set::new(|q: Point| reached_from(q, s, v))
}

/// `s` together with its translations by every vector of `ts`.
pub open spec fn spread(s: Set<Point>, ts: Seq<Vector>) -> Set<Point>
    decreases ts.len(),
{
    if ts.len() == 0 {
        s
    } else {
        spread(s, ts.drop_last()).union(image(s, ts.last()))
    }
}

/// A translational equivalence class: a pattern and the vectors that
/// translate it. Where `sub_tecs` is not empty, it encodes the pattern
/// (RecurSIA), and `pattern` itself is not read.
#[derive(Debug)]
pub struct TranslationalEquivalence {
    pub pattern: Vec<Point>,
    pub translators: Vec<Vector>,
    pub sub_tecs: Vec<TranslationalEquivalence>,
}

impl TranslationalEquivalence {
    /// The points of the pattern, as encoded by `pattern` or by `sub_tecs`.
    pub open spec fn pattern_points(self) -> Set<Point>
        decreases self, 0int,
    {
        if self.sub_tecs@.len() == 0 {
            self.pattern@.to_set()
        } else {
            union_coverage(self.sub_tecs@)
        }
    }

    /// The points that the TEC covers: its pattern and every translated copy.
    pub open spec fn coverage_set(self) -> Set<Point>
        decreases self, 1int,
    {
        spread(self.pattern_points(), self.translators@)
    }
}

/// The two TECs hold the same pattern, the same translators and the same
/// sub-TECs, in the same order.
pub open spec fn same_tec(a: TranslationalEquivalence, b: TranslationalEquivalence) -> bool {
    &&& a.pattern@ == b.pattern@
    &&& a.translators@ == b.translators@
    &&& a.sub_tecs@ == b.sub_tecs@
}

/// The two TECs hold the same pattern and translators, and sub-TECs that
/// are the same trees in turn.
pub open spec fn same_tree(a: TranslationalEquivalence, b: TranslationalEquivalence) -> bool
    decreases a, 0int,
{
    &&& a.pattern@ == b.pattern@
    &&& a.translators@ == b.translators@
    &&& same_trees(a.sub_tecs@, b.sub_tecs@)
}

/// The two sequences hold, one by one, TECs that are the same trees.
pub open spec fn same_trees(a: Seq<TranslationalEquivalence>, b: Seq<TranslationalEquivalence>) -> bool
    decreases a, 1int,
{
    &&& a.len() == b.len()
    &&& a.len() > 0 ==> same_trees(a.drop_last(), b.drop_last()) && same_tree(a.last(), b.last())
}

/// The points covered by any TEC of the sequence.
pub open spec fn union_coverage(tecs: Seq<TranslationalEquivalence>) -> Set<Point>
    decreases tecs, 2int,
{
    if tecs.len() == 0 {
        Set::empty()
    } else {
        union_coverage(tecs.drop_last()).union(tecs.last().coverage_set())
    }
}

/// The points covered by a pattern `p` and its translators `t`.
pub open spec fn tec_cover(p: Set<Point>, t: Set<Vector>) -> Set<Point> {
    Set::new(|q: Point| p.contains(q) || exists|v: Vector| t.contains(v) && reached_from(q, p, v))
}

/// Spreading a pattern by a sequence of vectors covers what the pattern and
/// the set of those vectors cover.
pub proof fn lemma_spread_is_cover(p: Set<Point>, ts: Seq<Vector>)
    ensures
        spread(p, ts) == tec_cover(p, ts.to_set()),
    decreases ts.len(),
{
    if ts.len() == 0 {
        assert(spread(p, ts) =~= tec_cover(p, ts.to_set()));
    } else {
        lemma_spread_is_cover(p, ts.drop_last());
        assert forall|q: Point| spread(p, ts).contains(q) <==> tec_cover(p, ts.to_set()).contains(q) by {
            if tec_cover(p, ts.to_set()).contains(q) && !p.contains(q) {
                let v = choose|v: Vector| ts.to_set().contains(v) && reached_from(q, p, v);
                let k = choose|k: int| 0 <= k < ts.len() && ts[k] == v;
                if k < ts.len() - 1 {
                    assert(ts.drop_last()[k] == v);
                    assert(ts.drop_last().to_set().contains(v));
                } else {
                    assert(image(p, ts.last()).contains(q));
                }
            }
            if spread(p, ts).contains(q) && !p.contains(q) {
                if spread(p, ts.drop_last()).contains(q) {
                    let v = choose|v: Vector| ts.drop_last().to_set().contains(v) && reached_from(q, p, v);
                    let k = choose|k: int| 0 <= k < ts.drop_last().len() && ts.drop_last()[k] == v;
                    assert(ts[k] == v);
                    assert(ts.to_set().contains(v));
                } else {
                    assert(ts[ts.len() - 1] == ts.last());
                    assert(ts.to_set().contains(ts.last()));
                }
            }
        }
        assert(spread(p, ts) =~= tec_cover(p, ts.to_set()));
    }
}

/// Sequences of TECs with the same coverage, one by one, cover the same
/// points.
pub proof fn lemma_union_coverage_eq(a: Seq<TranslationalEquivalence>, b: Seq<TranslationalEquivalence>)
    requires
        a.len() == b.len(),
        forall|k: int| 0 <= k < a.len() ==> (#[trigger] a[k]).coverage_set() == b[k].coverage_set(),
    ensures
        union_coverage(a) == union_coverage(b),
    decreases a.len(),
{
    if a.len() > 0 {
        lemma_union_coverage_eq(a.drop_last(), b.drop_last());
        assert(a.last() == a[a.len() - 1]);
        assert(b.last() == b[b.len() - 1]);
    }
}

/// Every TEC of a sequence covers part of what the sequence covers.
pub proof fn lemma_union_coverage_member(tecs: Seq<TranslationalEquivalence>, j: int)
    requires
        0 <= j < tecs.len(),
    ensures
        tecs[j].coverage_set().subset_of(union_coverage(tecs)),
    decreases tecs.len(),
{
    if j < tecs.len() - 1 {
        lemma_union_coverage_member(tecs.drop_last(), j);
        assert(tecs.drop_last()[j] == tecs[j]);
    }
}

/// Appending a TEC adds its coverage.
pub proof fn lemma_union_coverage_push(tecs: Seq<TranslationalEquivalence>, t: TranslationalEquivalence)
    ensures
        union_coverage(tecs.push(t)) == union_coverage(tecs).union(t.coverage_set()),
{
    assert(tecs.push(t).drop_last() =~= tecs);
}

/// The translation of the points by `v`.
fn translate_all(pts: &Vec<Point>, v: Vector) -> (r: Vec<Point>)
    ensures
        r@.to_set() == image(pts@.to_set(), v),
{
    let mut r: Vec<Point> = Vec::new();
    let mut i: usize = 0;
    while i < pts.len()
        invariant
            i <= pts.len(),
            forall|q: Point|
                r@.contains(q) <==> exists|m: int|
                    0 <= m < i && fits(#[trigger] pts@[m], v) && shifted(pts@[m], v) == q,
        decreases pts.len() - i,
    {
        let ghost old_r = r@;
        match translate(pts[i], v) {
            Some(q) => {
                r.push(q);
                assert forall|y: Point|
                    r@.contains(y) <==> exists|m: int|
                        0 <= m < i + 1 && fits(#[trigger] pts@[m], v) && shifted(pts@[m], v) == y by {
                    assert(r@ == old_r.push(q));
                    if r@.contains(y) {
                        let k = choose|k: int| 0 <= k < r@.len() && r@[k] == y;
                        if k < old_r.len() {
                            assert(old_r[k] == y);
                            assert(old_r.contains(y));
                        }
                    }
                    if exists|m: int| 0 <= m < i + 1 && fits(#[trigger] pts@[m], v) && shifted(pts@[m], v) == y {
                        let m = choose|m: int| 0 <= m < i + 1 && fits(#[trigger] pts@[m], v) && shifted(pts@[m], v) == y;
                        if m < i {
                            assert(old_r.contains(y));
                            let k = choose|k: int| 0 <= k < old_r.len() && old_r[k] == y;
                            assert(r@[k] == y);
                        } else {
                            assert(r@[r@.len() - 1] == y);
                        }
                    }
                }
            },
            None => {
                assert forall|y: Point|
                    r@.contains(y) <==> exists|m: int|
                        0 <= m < i + 1 && fits(#[trigger] pts@[m], v) && shifted(pts@[m], v) == y by {
                    if exists|m: int| 0 <= m < i + 1 && fits(#[trigger] pts@[m], v) && shifted(pts@[m], v) == y {
                        let m = choose|m: int| 0 <= m < i + 1 && fits(#[trigger] pts@[m], v) && shifted(pts@[m], v) == y;
                        assert(m < i);
                    }
                }
            },
        }
        i = i + 1;
    }
    proof {
        let s = pts@.to_set();
        assert forall|q: Point| r@.to_set().contains(q) <==> image(s, v).contains(q) by {
            if image(s, v).contains(q) {
                let p: Point = ((q.0 - v.0) as u32, (q.1 - v.1) as u32);
                assert(s.contains(p));
                let m = choose|m: int| 0 <= m < pts.len() && pts@[m] == p;
                assert(fits(pts@[m], v) && shifted(pts@[m], v) == q);
                assert(r@.contains(q));
            }
            if r@.contains(q) {
                let m = choose|m: int| 0 <= m < i && fits(#[trigger] pts@[m], v) && shifted(pts@[m], v) == q;
                assert(s.contains(pts@[m]));
            }
        }
        assert(r@.to_set() =~= image(s, v));
    }
    r
}

/// The points of `pts` together with their translations by every vector of `ts`.
pub fn spread_points(pts: &Vec<Point>, ts: &Vec<Vector>) -> (r: Vec<Point>)
    ensures
        strictly_sorted(r@),
        r@.to_set() == spread(pts@.to_set(), ts@),
{
    let mut all: Vec<Point> = crate::sort::copy_vec(pts);
    let mut k: usize = 0;
    while k < ts.len()
        invariant
            k <= ts.len(),
            all@.to_set() == spread(pts@.to_set(), ts@.take(k as int)),
        decreases ts.len() - k,
    {
        let mut moved = translate_all(pts, ts[k]);
        let ghost old_all = all@;
        let ghost old_moved = moved@;
        all.append(&mut moved);
        proof {
            vstd::seq_lib::seq_to_set_distributes_over_add(old_all, old_moved);
            assert(ts@.take(k + 1).drop_last() =~= ts@.take(k as int));
            assert(ts@.take(k + 1).last() == ts@[k as int]);
        }
        k = k + 1;
    }
    assert(ts@.take(ts.len() as int) =~= ts@);
    sort_unique(&all)
}

impl TranslationalEquivalence {
    /// Builds a TEC from its pattern, its translators and, optionally, the
    /// TECs that encode its pattern.
    pub fn new(
        pattern: Vec<Point>,
        translators: Vec<Vector>,
        sub_tecs: Option<Vec<TranslationalEquivalence>>,
    ) -> (t: Self)
        ensures
            t.pattern@ == pattern@,
            t.translators@ == translators@,
            t.sub_tecs@ == match sub_tecs {
                Some(s) => s@,
                None => Seq::<TranslationalEquivalence>::empty(),
            },
    {
        let sub_tecs = match sub_tecs {
            Some(s) => s,
            None => Vec::new(),
        };
        TranslationalEquivalence { pattern, translators, sub_tecs }
    }

    /// The points of the pattern, sorted and without repetition.
    pub fn pattern_point_list(&self) -> (r: Vec<Point>)
        ensures
            strictly_sorted(r@),
            r@.to_set() == self.pattern_points(),
        decreases self, 0int,
    {
        if self.sub_tecs.len() == 0 {
            sort_unique(&self.pattern)
        } else {
            coverage_of_all(&self.sub_tecs)
        }
    }

    /// The points that the TEC covers (its pattern and every translated
    /// copy of it), sorted and without repetition.
    pub fn coverage(&self) -> (r: Vec<Point>)
        ensures
            strictly_sorted(r@),
            r@.to_set() == self.coverage_set(),
        decreases self, 1int,
    {
        let pts = self.pattern_point_list();
        let r = spread_points(&pts, &self.translators);
        r
    }
}

/// The points covered by any of the TECs, sorted and without repetition.
pub fn coverage_of_all(tecs: &Vec<TranslationalEquivalence>) -> (r: Vec<Point>)
    ensures
        strictly_sorted(r@),
        r@.to_set() == union_coverage(tecs@),
    decreases tecs@, 2int,
{
    let mut all: Vec<Point> = Vec::new();
    let mut i: usize = 0;
    assert(tecs@.take(0) =~= Seq::<TranslationalEquivalence>::empty());
    assert(all@.to_set() =~= Set::<Point>::empty());
    while i < tecs.len()
        invariant
            i <= tecs.len(),
            all@.to_set() == union_coverage(tecs@.take(i as int)),
        decreases tecs.len() - i,
    {
        let mut c = tecs[i].coverage();
        let ghost old_all = all@;
        let ghost old_c = c@;
        all.append(&mut c);
        proof {
            vstd::seq_lib::seq_to_set_distributes_over_add(old_all, old_c);
            assert(tecs@.take(i + 1).drop_last() =~= tecs@.take(i as int));
            assert(tecs@.take(i + 1).last() == tecs@[i as int]);
        }
        i = i + 1;
    }
    assert(tecs@.take(tecs.len() as int) =~= tecs@);
    sort_unique(&all)
}

} // verus!
