//! SIATEC: the translational equivalence class of every maximal
//! translatable pattern.

use vstd::prelude::*;
use crate::geometry::{
    Point, Vector, admissible, diff, has_two, lands_in, mtp, point_key, shifted,
    translate, vector_between, vector_key, within_i32,
};
use crate::sia::{find_mtps, is_mtp_table};
use crate::sort::{
    SortKey, contains_sorted, copy_vec, lemma_strictly_sorted_len, sort_unique, strictly_sorted,
};
use crate::tec::{TranslationalEquivalence, same_tec};

verus! {

/// The translators of `pattern` within `d`: the admissible vectors that map
/// every point of the pattern to a point of `d`.
pub open spec fn translator_set(pattern: Set<Point>, d: Set<Point>, restrict_dpitch_zero: bool) -> Set<Vector> {
    Set::new(
        |v: Vector|
            admissible(v, restrict_dpitch_zero) && forall|p: Point| #[trigger]
                pattern.contains(p) ==> lands_in(p, v, d),
    )
}

/// The TEC that SIATEC builds for the vector `v` of `d`: the MTP of `v` as
/// its pattern, with all of that pattern's translators, both strictly
/// sorted, and no sub-TECs.
pub open spec fn is_tec_for(
    d: Set<Point>,
    restrict_dpitch_zero: bool,
    v: Vector,
    t: TranslationalEquivalence,
) -> bool {
    &&& strictly_sorted(t.pattern@)
    &&& t.pattern@.to_set() == mtp(d, v)
    &&& strictly_sorted(t.translators@)
    &&& t.translators@.to_set() == translator_set(mtp(d, v), d, restrict_dpitch_zero)
    &&& t.sub_tecs@.len() == 0
}

/// `vs` lists the vectors for which `tecs` holds the TECs of SIATEC on `d`:
/// every admissible vector whose MTP has two points or more, once each, in
/// increasing order, with the TEC of `vs[i]` at `tecs[i]`.
pub open spec fn siatec_witness(
    d: Set<Point>,
    restrict_dpitch_zero: bool,
    tecs: Seq<TranslationalEquivalence>,
    vs: Seq<Vector>,
) -> bool {
    &&& vs.len() == tecs.len()
    &&& forall|i: int, j: int| 0 <= i < j < vs.len() ==> vector_key(#[trigger] vs[i]) < vector_key(#[trigger] vs[j])
    &&& forall|i: int|
        0 <= i < vs.len() ==> admissible(#[trigger] vs[i], restrict_dpitch_zero) && has_two(mtp(d, vs[i]))
            && is_tec_for(d, restrict_dpitch_zero, vs[i], tecs[i])
    &&& forall|v: Vector|
        admissible(v, restrict_dpitch_zero) && #[trigger] has_two(mtp(d, v)) ==> exists|i: int|
            0 <= i < vs.len() && vs[i] == v
}

/// The result of SIATEC on `d`: one TEC per admissible vector whose MTP has
/// two points or more, in increasing vector order.
pub open spec fn is_siatec(d: Set<Point>, restrict_dpitch_zero: bool, tecs: Seq<TranslationalEquivalence>) -> bool {
    exists|vs: Seq<Vector>| #[trigger] siatec_witness(d, restrict_dpitch_zero, tecs, vs)
}

/// Tells whether `v` maps every point of `pattern` to a point of `data`.
fn moves_into(pattern: &Vec<Point>, v: Vector, data: &Vec<Point>) -> (r: bool)
    requires
        strictly_sorted(data@),
    ensures
        r == forall|p: Point| #[trigger] pattern@.to_set().contains(p) ==> lands_in(p, v, data@.to_set()),
{
    let mut i: usize = 0;
    while i < pattern.len()
        invariant
            i <= pattern.len(),
            strictly_sorted(data@),
            forall|m: int| 0 <= m < i ==> lands_in(#[trigger] pattern@[m], v, data@.to_set()),
        decreases pattern.len() - i,
    {
        match translate(pattern[i], v) {
            Some(q) => {
                if !contains_sorted(data, &q) {
                    assert(pattern@.to_set().contains(pattern@[i as int]));
                    return false;
                }
            },
            None => {
                assert(pattern@.to_set().contains(pattern@[i as int]));
                return false;
            },
        }
        i = i + 1;
    }
    assert forall|p: Point| #[trigger] pattern@.to_set().contains(p) implies lands_in(p, v, data@.to_set()) by {
        let m = choose|m: int| 0 <= m < pattern.len() && pattern@[m] == p;
    }
    true
}

/// The translators of a pattern within a dataset, in increasing order.
///
/// Both vectors are strictly sorted, the pattern is not empty and its
/// points belong to the dataset.
pub fn find_translators(pattern: &Vec<Point>, data: &Vec<Point>, restrict_dpitch_zero: bool) -> (r: Vec<Vector>)
    requires
        strictly_sorted(data@),
        within_i32(data@),
        pattern.len() > 0,
        forall|m: int| 0 <= m < pattern.len() ==> data@.contains(#[trigger] pattern@[m]),
    ensures
        strictly_sorted(r@),
        r@.to_set() == translator_set(pattern@.to_set(), data@.to_set(), restrict_dpitch_zero),
        r.len() <= data.len(),
{
    let ghost d = data@.to_set();
    let ghost ps = pattern@.to_set();
    let p0 = pattern[0];
    proof {
        let k = choose|k: int| 0 <= k < data.len() && data@[k] == p0;
        assert(p0.0 <= i32::MAX && p0.1 <= i32::MAX);
    }
    let mut r: Vec<Vector> = Vec::new();
    let mut j: usize = 0;
    while j < data.len()
        invariant
            j <= data.len(),
            strictly_sorted(data@),
            within_i32(data@),
            p0.0 <= i32::MAX && p0.1 <= i32::MAX,
            p0 == pattern@[0],
            pattern.len() > 0,
            d == data@.to_set(),
            ps == pattern@.to_set(),
            strictly_sorted(r@),
            r.len() <= j,
            forall|m: int|
                0 <= m < r.len() && j < data.len() ==> vector_key(#[trigger] r@[m]) < point_key(data@[j as int]) - point_key(
                    p0,
                ) + 0x8000_0000 * 0x1_0000_0000 + 0x8000_0000,
            forall|w: Vector| r@.contains(w) ==> translator_set(ps, d, restrict_dpitch_zero).contains(w),
            forall|k: int|
                0 <= k < j && translator_set(ps, d, restrict_dpitch_zero).contains(diff(#[trigger] data@[k], p0))
                    ==> r@.contains(diff(data@[k], p0)),
        decreases data.len() - j,
    {
        let q = data[j];
        assert(q.0 <= i32::MAX && q.1 <= i32::MAX);
        let v = vector_between(q, p0);
        let ghost old_r = r@;
        if !(v.0 == 0 && v.1 == 0) && (!restrict_dpitch_zero || v.1 == 0) && moves_into(pattern, v, data) {
            r.push(v);
            proof {
                assert(r@ == old_r.push(v));
                assert(translator_set(ps, d, restrict_dpitch_zero).contains(v));
                assert forall|w: Vector| r@.contains(w) implies translator_set(ps, d, restrict_dpitch_zero).contains(w) by {
                    let m = choose|m: int| 0 <= m < r.len() && r@[m] == w;
                    if m < old_r.len() {
                        assert(old_r[m] == w);
                        assert(old_r.contains(w));
                    }
                }
                assert forall|k: int|
                    0 <= k < j + 1 && translator_set(ps, d, restrict_dpitch_zero).contains(diff(#[trigger] data@[k], p0))
                        implies r@.contains(diff(data@[k], p0)) by {
                    if k < j {
                        assert(old_r.contains(diff(data@[k], p0)));
                        let m = choose|m: int| 0 <= m < old_r.len() && old_r[m] == diff(data@[k], p0);
                        assert(r@[m] == diff(data@[k], p0));
                    } else {
                        assert(r@[r.len() - 1] == diff(data@[k], p0));
                    }
                }
                if j + 1 < data.len() {
                    assert(data@[j as int].key() < data@[j + 1].key());
                }
            }
        } else {
            proof {
                if !(v.0 == 0 && v.1 == 0) && (!restrict_dpitch_zero || v.1 == 0) {
                    assert(ps.contains(p0));
                    assert(!translator_set(ps, d, restrict_dpitch_zero).contains(v));
                }
                if j + 1 < data.len() {
                    assert(data@[j as int].key() < data@[j + 1].key());
                }
            }
        }
        j = j + 1;
    }
    proof {
        assert forall|w: Vector| translator_set(ps, d, restrict_dpitch_zero).contains(w) implies r@.contains(w) by {
            assert(ps.contains(p0));
            assert(lands_in(p0, w, d));
            let q = shifted(p0, w);
            let k = choose|k: int| 0 <= k < data.len() && data@[k] == q;
            assert(data@[k].0 <= i32::MAX && data@[k].1 <= i32::MAX);
            assert(diff(data@[k], p0) == w);
        }
        assert(r@.to_set() =~= translator_set(ps, d, restrict_dpitch_zero));
    }
    r
}

/// SIATEC on a strictly sorted dataset.
pub fn siatec_sorted(u: &Vec<Point>, restrict_dpitch_zero: bool) -> (tecs: Vec<TranslationalEquivalence>)
    requires
        strictly_sorted(u@),
        within_i32(u@),
    ensures
        is_siatec(u@.to_set(), restrict_dpitch_zero, tecs@),
        forall|k: int|
            0 <= k < tecs.len() ==> (#[trigger] tecs@[k]).pattern.len() <= u.len() && tecs@[k].translators.len()
                <= u.len(),
{
    let ghost d = u@.to_set();
    let table = find_mtps(u, restrict_dpitch_zero);
    let mut tecs: Vec<TranslationalEquivalence> = Vec::new();
    let mut i: usize = 0;
    while i < table.len()
        invariant
            i <= table.len(),
            strictly_sorted(u@),
            within_i32(u@),
            d == u@.to_set(),
            is_mtp_table(d, restrict_dpitch_zero, table@),
            tecs.len() == i,
            forall|m: int| 0 <= m < i ==> is_tec_for(d, restrict_dpitch_zero, table@[m].0, #[trigger] tecs@[m]),
            forall|m: int|
                0 <= m < i ==> (#[trigger] tecs@[m]).pattern.len() <= u.len() && tecs@[m].translators.len() <= u.len(),
        decreases table.len() - i,
    {
        let pattern = copy_vec(&table[i].1);
        proof {
            let v = table@[i as int].0;
            assert(admissible(v, restrict_dpitch_zero));
            assert(pattern@.to_set() == mtp(d, v));
            assert(pattern.len() >= 2);
            assert forall|m: int| 0 <= m < pattern.len() implies u@.contains(#[trigger] pattern@[m]) by {
                assert(pattern@.to_set().contains(pattern@[m]));
                assert(d.contains(pattern@[m]));
            }
        }
        proof {
            lemma_strictly_sorted_len(pattern@);
            lemma_strictly_sorted_len(u@);
            assert(pattern@.to_set().subset_of(d));
            vstd::set_lib::lemma_len_subset(pattern@.to_set(), d);
        }
        let translators = find_translators(&pattern, u, restrict_dpitch_zero);
        let t = TranslationalEquivalence::new(pattern, translators, None);
        tecs.push(t);
        i = i + 1;
    }
    proof {
        let vs = Seq::new(table.len() as nat, |m: int| table@[m].0);
        assert(vs.len() == tecs@.len());
        assert forall|v: Vector| admissible(v, restrict_dpitch_zero) && #[trigger] has_two(mtp(d, v)) implies exists|m: int|
            0 <= m < vs.len() && vs[m] == v by {
            let m = choose|m: int| 0 <= m < table.len() && #[trigger] table@[m].0 == v;
            assert(vs[m] == v);
        }
        assert forall|m: int| 0 <= m < vs.len() implies admissible(#[trigger] vs[m], restrict_dpitch_zero) && has_two(
            mtp(d, vs[m]),
        ) && is_tec_for(d, restrict_dpitch_zero, vs[m], tecs@[m]) by {
            let s = table@[m].1@;
            assert(vs[m] == table@[m].0);
            assert(admissible(table@[m].0, restrict_dpitch_zero));
            assert(s.len() >= 2);
            assert(s[0].key() < s[1].key());
            assert(s.to_set().contains(s[0]));
            assert(s.to_set().contains(s[1]));
        }
        assert(siatec_witness(d, restrict_dpitch_zero, tecs@, vs));
    }
    tecs
}

/// Builds the translational equivalence classes of a dataset from its
/// maximal translatable patterns (SIATEC): for every admissible vector whose
/// MTP has two points or more, in increasing vector order, the TEC whose
/// pattern is that MTP and whose translators are all the admissible vectors
/// that map the pattern into the dataset.
pub fn build_tecs_from_mtps(dataset: &Vec<Point>, restrict_dpitch_zero: bool) -> (tecs: Vec<TranslationalEquivalence>)
    requires
        within_i32(dataset@),
    ensures
        is_siatec(dataset@.to_set(), restrict_dpitch_zero, tecs@),
{
    let u = sort_unique(dataset);
    proof {
        assert forall|i: int| 0 <= i < u.len() implies #[trigger] u@[i].0 <= i32::MAX && u@[i].1 <= i32::MAX by {
            assert(u@.to_set().contains(u@[i]));
            let k = choose|k: int| 0 <= k < dataset.len() && dataset@[k] == u@[i];
        }
    }
    siatec_sorted(&u, restrict_dpitch_zero)
}


/// SIATEC has one result: two TEC sequences that both qualify as the result
/// of SIATEC on `d` hold the same TECs in the same order. So
/// `build_tecs_from_mtps` depends only on the set of points of its input.
pub proof fn lemma_siatec_unique(
    d: Set<Point>,
    restrict_dpitch_zero: bool,
    t1: Seq<TranslationalEquivalence>,
    t2: Seq<TranslationalEquivalence>,
)
    requires
        is_siatec(d, restrict_dpitch_zero, t1),
        is_siatec(d, restrict_dpitch_zero, t2),
    ensures
        t1.len() == t2.len(),
        forall|k: int| 0 <= k < t1.len() ==> same_tec(#[trigger] t1[k], t2[k]),
{
    let vs1 = choose|vs: Seq<Vector>| siatec_witness(d, restrict_dpitch_zero, t1, vs);
    let vs2 = choose|vs: Seq<Vector>| siatec_witness(d, restrict_dpitch_zero, t2, vs);
    assert(strictly_sorted(vs1)) by {
        assert forall|i: int, j: int| 0 <= i < j < vs1.len() implies #[trigger] vs1[i].key() < #[trigger] vs1[j].key() by {
            assert(vector_key(vs1[i]) < vector_key(vs1[j]));
        }
    }
    assert(strictly_sorted(vs2)) by {
        assert forall|i: int, j: int| 0 <= i < j < vs2.len() implies #[trigger] vs2[i].key() < #[trigger] vs2[j].key() by {
            assert(vector_key(vs2[i]) < vector_key(vs2[j]));
        }
    }
    assert forall|v: Vector| vs1.to_set().contains(v) implies vs2.to_set().contains(v) by {
        let i = choose|i: int| 0 <= i < vs1.len() && vs1[i] == v;
        assert(admissible(vs1[i], restrict_dpitch_zero));
        let j = choose|j: int| 0 <= j < vs2.len() && vs2[j] == v;
    }
    assert forall|v: Vector| vs2.to_set().contains(v) implies vs1.to_set().contains(v) by {
        let i = choose|i: int| 0 <= i < vs2.len() && vs2[i] == v;
        assert(admissible(vs2[i], restrict_dpitch_zero));
        let j = choose|j: int| 0 <= j < vs1.len() && vs1[j] == v;
    }
    assert(vs1.to_set() =~= vs2.to_set());
    crate::sort::lemma_strictly_sorted_unique(vs1, vs2);
    assert forall|k: int| 0 <= k < t1.len() implies same_tec(#[trigger] t1[k], t2[k]) by {
        assert(admissible(vs1[k], restrict_dpitch_zero));
        assert(admissible(vs2[k], restrict_dpitch_zero));
        crate::sort::lemma_strictly_sorted_unique(t1[k].pattern@, t2[k].pattern@);
        crate::sort::lemma_strictly_sorted_unique(t1[k].translators@, t2[k].translators@);
        assert(t1[k].sub_tecs@ =~= t2[k].sub_tecs@);
    }
}


/// The translators of a pattern are every vector that maps each of its
/// points to a point of `d`, but zero: without the restriction whatever
/// their pitch component, with it only those with no pitch component.
pub proof fn lemma_translator_set_vectors(pattern: Set<Point>, d: Set<Point>, v: Vector)
    ensures
        translator_set(pattern, d, false).contains(v) <==> ((v.0 != 0 || v.1 != 0) && forall|p: Point|
            #[trigger] pattern.contains(p) ==> lands_in(p, v, d)),
        translator_set(pattern, d, true).contains(v) <==> (v.0 != 0 && v.1 == 0 && forall|p: Point|
            #[trigger] pattern.contains(p) ==> lands_in(p, v, d)),
{
    crate::geometry::lemma_admissible_vectors(v);
}

} // verus!
