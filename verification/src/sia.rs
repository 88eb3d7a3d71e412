//! SIA (Structure Induction Algorithm): all maximal translatable patterns.

use vstd::prelude::*;
use crate::geometry::{
    Point, Vector, admissible, diff, has_two, lands_in, lemma_pair_key_vector, mtp, point_key,
    shifted, vector_between, vector_key, within_i32,
};
use crate::sort::{SortKey, sort_unique, strictly_sorted};

verus! {

broadcast use vstd::seq_lib::lemma_seq_contains_after_push;

/// The table that SIA computes for `d`: one entry per admissible vector whose
/// maximal translatable pattern has at least two points, in increasing
/// vector order, each with the strictly sorted points of that pattern.
pub open spec fn is_mtp_table(d: Set<Point>, restrict_dpitch_zero: bool, t: Seq<(Vector, Vec<Point>)>) -> bool {
    &&& forall|i: int, j: int|
        0 <= i < j < t.len() ==> vector_key(#[trigger] t[i].0) < vector_key(#[trigger] t[j].0)
    &&& forall|i: int|
        0 <= i < t.len() ==> {
            &&& admissible(#[trigger] t[i].0, restrict_dpitch_zero)
            &&& strictly_sorted(t[i].1@)
            &&& t[i].1@.to_set() == mtp(d, t[i].0)
            &&& t[i].1@.len() >= 2
        }
    &&& forall|v: Vector|
        admissible(v, restrict_dpitch_zero) && #[trigger] has_two(mtp(d, v)) ==> exists|i: int|
            0 <= i < t.len() && #[trigger] t[i].0 == v
}

/// A `(vector, start point)` pair that SIA records for `d`.
pub open spec fn pair_ok(d: Set<Point>, restrict_dpitch_zero: bool, x: (Vector, Point)) -> bool {
    d.contains(x.1) && lands_in(x.1, x.0, d) && admissible(x.0, restrict_dpitch_zero)
}

/// The start points recorded for `v` in a sequence of pairs.
pub open spec fn starts_in(s: Seq<(Vector, Point)>, v: Vector) -> Set<Point> {
    Set::new(|p: Point| s.contains((v, p)))
}

/// A strictly sorted sequence whose set has two different points has at
/// least two elements.
pub proof fn lemma_two_points_len(s: Seq<Point>)
    requires
        has_two(s.to_set()),
    ensures
        s.len() >= 2,
{
    let (p, q) = choose|p: Point, q: Point| s.to_set().contains(p) && s.to_set().contains(q) && p != q;
    let i = choose|i: int| 0 <= i < s.len() && s[i] == p;
    let j = choose|j: int| 0 <= j < s.len() && s[j] == q;
    assert(i != j);
}

/// The pair that SIA records for the points at positions `a` and `b`.
pub open spec fn pair_at(u: Seq<Point>, a: int, b: int) -> (Vector, Point) {
    (diff(u[b], u[a]), u[a])
}

/// The points at positions `a` and `b` give a pair that SIA records.
pub open spec fn wanted_at(u: Seq<Point>, restrict_dpitch_zero: bool, a: int, b: int) -> bool {
    a != b && admissible(diff(u[b], u[a]), restrict_dpitch_zero)
}

/// Collects every `(q - p, p)` for two different points `p`, `q` of the
/// strictly sorted `u` whose vector is admissible.
fn collect_pairs(u: &Vec<Point>, restrict_dpitch_zero: bool) -> (pairs: Vec<(Vector, Point)>)
    requires
        strictly_sorted(u@),
        within_i32(u@),
    ensures
        forall|x: (Vector, Point)| pairs@.contains(x) <==> pair_ok(u@.to_set(), restrict_dpitch_zero, x),
{
    let ghost d = u@.to_set();
    let n: usize = u.len();
    let mut pairs: Vec<(Vector, Point)> = Vec::new();
    let mut i: usize = 0;
    while i < n
        invariant
            n == u.len(),
            i <= n,
            strictly_sorted(u@),
            within_i32(u@),
            d == u@.to_set(),
            forall|x: (Vector, Point)| pairs@.contains(x) ==> pair_ok(d, restrict_dpitch_zero, x),
            forall|a: int, b: int|
                0 <= a < i && 0 <= b < n && wanted_at(u@, restrict_dpitch_zero, a, b) ==> pairs@.contains(
                    #[trigger] pair_at(u@, a, b),
                ),
        decreases n - i,
    {
        let mut j: usize = 0;
        while j < n
            invariant
                n == u.len(),
                i < n,
                j <= n,
                strictly_sorted(u@),
                within_i32(u@),
                d == u@.to_set(),
                forall|x: (Vector, Point)| pairs@.contains(x) ==> pair_ok(d, restrict_dpitch_zero, x),
                forall|a: int, b: int|
                    0 <= a < n && 0 <= b < n && (a < i || (a == i && b < j)) && wanted_at(
                        u@,
                        restrict_dpitch_zero,
                        a,
                        b,
                    ) ==> pairs@.contains(#[trigger] pair_at(u@, a, b)),
            decreases n - j,
        {
            if i != j {
                let p = u[i];
                let q = u[j];
                let v = vector_between(q, p);
                if !restrict_dpitch_zero || v.1 == 0 {
                    proof {
                        assert(u@[i as int].0 <= i32::MAX && u@[j as int].0 <= i32::MAX);
                        if i < j {
                            assert(u@[i as int].key() < u@[j as int].key());
                        } else {
                            assert(u@[j as int].key() < u@[i as int].key());
                        }
                        assert(shifted(p, v) == q);
                        assert(d.contains(p));
                        assert(d.contains(q));
                        assert(pair_ok(d, restrict_dpitch_zero, (v, p)));
                    }
                    let ghost old_pairs = pairs@;
                    pairs.push((v, p));
                    proof {
                        assert(pairs@ == old_pairs.push((v, p)));
                        assert(pair_at(u@, i as int, j as int) == (v, p));
                        assert(old_pairs.push((v, p)).contains((v, p)));
                        assert forall|w: (Vector, Point)| old_pairs.contains(w) implies pairs@.contains(w) by {
                            assert(old_pairs.push((v, p)).contains(w));
                        }
                        assert forall|w: (Vector, Point)| pairs@.contains(w) implies pair_ok(
                            d,
                            restrict_dpitch_zero,
                            w,
                        ) by {
                            assert(old_pairs.push((v, p)).contains(w));
                        }
                    }
                } else {
                    assert(!wanted_at(u@, restrict_dpitch_zero, i as int, j as int));
                }
            } else {
                assert(!wanted_at(u@, restrict_dpitch_zero, i as int, j as int));
            }
            assert(wanted_at(u@, restrict_dpitch_zero, i as int, j as int) ==> pairs@.contains(
                pair_at(u@, i as int, j as int),
            ));
            j = j + 1;
        }
        i = i + 1;
    }
    proof {
        assert forall|x: (Vector, Point)| pair_ok(d, restrict_dpitch_zero, x) implies pairs@.contains(x) by {
            let (v, p) = x;
            let q = shifted(p, v);
            let a = choose|a: int| 0 <= a < u.len() && u@[a] == p;
            let b = choose|b: int| 0 <= b < u.len() && u@[b] == q;
            assert(u@[a].0 <= i32::MAX && u@[b].0 <= i32::MAX);
            assert(diff(u@[b], u@[a]) == v);
            if a == b {
                assert(false);
            }
            assert(pair_at(u@, a, b) == x);
        }
    }
    pairs
}

/// A table entry for `v` built from the sorted pairs `ss`.
pub open spec fn entry_ok(ss: Seq<(Vector, Point)>, e: (Vector, Vec<Point>)) -> bool {
    &&& exists|m: int| 0 <= m < ss.len() && #[trigger] ss[m].0 == e.0
    &&& strictly_sorted(e.1@)
    &&& e.1@.to_set() == starts_in(ss, e.0)
    &&& e.1@.len() >= 2
}

/// Finds all maximal translatable patterns (MTPs) of a point set (SIA).
///
/// For every non-zero vector `v` (with a zero pitch component where
/// `restrict_dpitch_zero` holds), the MTP of `v` is the set of points `p` of
/// the dataset such that `p + v` is a point of the dataset too. The result
/// holds one entry per vector whose MTP has at least two points, in
/// increasing vector order, with the MTP's points sorted by `(tick, pitch)`.
pub fn find_mtps(dataset: &Vec<Point>, restrict_dpitch_zero: bool) -> (table: Vec<(Vector, Vec<Point>)>)
    requires
        within_i32(dataset@),
    ensures
        is_mtp_table(dataset@.to_set(), restrict_dpitch_zero, table@),
{
    let u = sort_unique(dataset);
    let ghost d = dataset@.to_set();
    proof {
        assert(u@.to_set() =~= d);
        assert forall|i: int| 0 <= i < u.len() implies #[trigger] u@[i].0 <= i32::MAX && u@[i].1 <= i32::MAX by {
            assert(d.contains(u@[i]));
            let k = choose|k: int| 0 <= k < dataset.len() && dataset@[k] == u@[i];
        }
    }
    let pairs = collect_pairs(&u, restrict_dpitch_zero);
    let s = sort_unique(&pairs);
    let ghost ss = s@;
    assert(forall|x: (Vector, Point)| ss.contains(x) <==> pair_ok(d, restrict_dpitch_zero, x)) by {
        assert forall|x: (Vector, Point)| ss.contains(x) <==> pair_ok(d, restrict_dpitch_zero, x) by {
            assert(ss.to_set().contains(x) == pairs@.to_set().contains(x));
        }
    }
    let n: usize = s.len();
    let mut table: Vec<(Vector, Vec<Point>)> = Vec::new();
    let mut k: usize = 0;
    while k < n
        invariant
            n == s.len(),
            ss == s@,
            k <= n,
            strictly_sorted(ss),
            0 < k < n ==> s@[k - 1].0 != s@[k as int].0,
            forall|i: int, j: int|
                0 <= i < j < table.len() ==> vector_key(#[trigger] table@[i].0) < vector_key(#[trigger] table@[j].0),
            forall|i: int|
                0 <= i < table.len() && k < n ==> vector_key(#[trigger] table@[i].0) < vector_key(ss[k as int].0),
            forall|i: int| 0 <= i < table.len() ==> entry_ok(ss, #[trigger] table@[i]),
            forall|m: int|
                0 <= m < k && #[trigger] has_two(starts_in(ss, ss[m].0)) ==> exists|i: int|
                    0 <= i < table.len() && #[trigger] table@[i].0 == ss[m].0,
        decreases n - k,
    {
        let a: usize = k;
        let v = s[k].0;
        let mut starts: Vec<Point> = Vec::new();
        while k < n && s[k].0.0 == v.0 && s[k].0.1 == v.1
            invariant
                n == s.len(),
                ss == s@,
                a <= k <= n,
                a < n,
                ss[a as int].0 == v,
                strictly_sorted(ss),
                starts.len() == k - a,
                forall|m: int| a <= m < k ==> #[trigger] ss[m].0 == v,
                forall|m: int| 0 <= m < starts.len() ==> #[trigger] starts@[m] == ss[a + m].1,
            decreases n - k,
        {
            starts.push(s[k].1);
            k = k + 1;
        }
        proof {
            assert(strictly_sorted(starts@)) by {
                assert forall|x: int, y: int| 0 <= x < y < starts.len() implies #[trigger] point_key(starts@[x])
                    < #[trigger] point_key(starts@[y]) by {
                    assert(ss[a + x].key() < ss[a + y].key());
                    lemma_pair_key_vector(ss[a + x], ss[a + y]);
                }
            }
            assert(starts@.to_set() =~= starts_in(ss, v)) by {
                assert forall|p: Point| starts@.to_set().contains(p) implies starts_in(ss, v).contains(p) by {
                    let m = choose|m: int| 0 <= m < starts.len() && starts@[m] == p;
                    assert(ss[a + m] == (v, p));
                }
                assert forall|p: Point| starts_in(ss, v).contains(p) implies starts@.to_set().contains(p) by {
                    let m = choose|m: int| 0 <= m < ss.len() && ss[m] == (v, p);
                    if m < a {
                        assert(ss[a - 1].0 != v);
                        assert(ss[m].key() <= ss[a - 1].key());
                        lemma_pair_key_vector(ss[m], ss[a - 1]);
                        lemma_pair_key_vector(ss[a - 1], ss[a as int]);
                        assert(false);
                    }
                    if m >= k {
                        assert(ss[k as int].0 != v);
                        assert(m > k);
                        assert(ss[k as int].key() < ss[m].key());
                        assert(k > a);
                        assert(ss[k - 1].key() < ss[k as int].key());
                        lemma_pair_key_vector(ss[k as int], ss[m]);
                        lemma_pair_key_vector(ss[k - 1], ss[k as int]);
                        assert(false);
                    }
                    assert(starts@[m - a] == p);
                }
            }
            if k < n {
                assert(ss[k as int].0 != v);
                assert(ss[k - 1].key() < ss[k as int].key());
                lemma_pair_key_vector(ss[k - 1], ss[k as int]);
            }
        }
        if starts.len() >= 2 {
            let ghost old_table = table@;
            table.push((v, starts));
            proof {
                assert forall|i: int| 0 <= i < table.len() implies entry_ok(ss, #[trigger] table@[i]) by {
                    if i < old_table.len() {
                        assert(table@[i] == old_table[i]);
                    } else {
                        assert(ss[a as int].0 == table@[i].0);
                    }
                }
                assert forall|m: int| 0 <= m < k && #[trigger] has_two(starts_in(ss, ss[m].0)) implies exists|i: int|
                    0 <= i < table.len() && #[trigger] table@[i].0 == ss[m].0 by {
                    if m < a {
                        let i = choose|i: int| 0 <= i < old_table.len() && #[trigger] old_table[i].0 == ss[m].0;
                        assert(table@[i] == old_table[i]);
                    } else {
                        assert(table@[table.len() - 1].0 == ss[m].0);
                    }
                }
            }
        } else {
            proof {
                assert forall|m: int| 0 <= m < k && #[trigger] has_two(starts_in(ss, ss[m].0)) implies exists|i: int|
                    0 <= i < table.len() && #[trigger] table@[i].0 == ss[m].0 by {
                    if m >= a {
                        assert(ss[m].0 == v);
                        lemma_two_points_len(starts@);
                    }
                }
            }
        }
    }
    proof {
        assert forall|i: int| 0 <= i < table.len() implies {
            &&& admissible(#[trigger] table@[i].0, restrict_dpitch_zero)
            &&& strictly_sorted(table@[i].1@)
            &&& table@[i].1@.to_set() == mtp(d, table@[i].0)
            &&& table@[i].1@.len() >= 2
        } by {
            let v = table@[i].0;
            assert(entry_ok(ss, table@[i]));
            let m = choose|m: int| 0 <= m < ss.len() && #[trigger] ss[m].0 == v;
            assert(ss.contains(ss[m]));
            assert(pair_ok(d, restrict_dpitch_zero, ss[m]));
            assert forall|p: Point| starts_in(ss, v).contains(p) <==> mtp(d, v).contains(p) by {
                assert(ss.contains((v, p)) <==> pair_ok(d, restrict_dpitch_zero, (v, p)));
                assert(starts_in(ss, v).contains(p) <==> ss.contains((v, p)));
            }
            assert(starts_in(ss, v) =~= mtp(d, v));
        }
        assert forall|v: Vector| admissible(v, restrict_dpitch_zero) && #[trigger] has_two(mtp(d, v)) implies exists|i: int|
            0 <= i < table.len() && #[trigger] table@[i].0 == v by {
            let (p, q) = choose|p: Point, q: Point| mtp(d, v).contains(p) && mtp(d, v).contains(q) && p != q;
            assert(ss.contains((v, p)) <==> pair_ok(d, restrict_dpitch_zero, (v, p)));
            assert(ss.contains((v, q)) <==> pair_ok(d, restrict_dpitch_zero, (v, q)));
            assert(starts_in(ss, v).contains(p));
            assert(starts_in(ss, v).contains(q));
            let m = choose|m: int| 0 <= m < ss.len() && ss[m] == (v, p);
            assert(has_two(starts_in(ss, ss[m].0)));
        }
    }
    table
}


/// A strictly sorted sequence of two points or more holds two different
/// points.
proof fn lemma_sorted_has_two(s: Seq<Point>)
    requires
        strictly_sorted(s),
        s.len() >= 2,
    ensures
        has_two(s.to_set()),
{
    assert(s[0].key() < s[1].key());
    assert(s.to_set().contains(s[0]));
    assert(s.to_set().contains(s[1]));
}

/// Every vector of an MTP table of `d1` has an entry in every MTP table of
/// `d2`, with the same pattern where `d1` and `d2` are the same set.
proof fn lemma_table_entry_in(
    d1: Set<Point>,
    d2: Set<Point>,
    r1: bool,
    r2: bool,
    t1: Seq<(Vector, Vec<Point>)>,
    t2: Seq<(Vector, Vec<Point>)>,
    i: int,
) -> (j: int)
    requires
        is_mtp_table(d1, r1, t1),
        is_mtp_table(d2, r2, t2),
        d1.subset_of(d2),
        0 <= i < t1.len(),
        admissible(t1[i].0, r2),
    ensures
        0 <= j < t2.len(),
        t2[j].0 == t1[i].0,
        t1[i].1@.to_set().subset_of(t2[j].1@.to_set()),
        d1 == d2 ==> t2[j].1@ == t1[i].1@,
{
    let v = t1[i].0;
    lemma_sorted_has_two(t1[i].1@);
    assert(mtp(d1, v).subset_of(mtp(d2, v)));
    let (p, q) = choose|p: Point, q: Point| mtp(d1, v).contains(p) && mtp(d1, v).contains(q) && p != q;
    assert(mtp(d2, v).contains(p) && mtp(d2, v).contains(q));
    assert(has_two(mtp(d2, v)));
    let j = choose|j: int| 0 <= j < t2.len() && #[trigger] t2[j].0 == v;
    if d1 == d2 {
        crate::sort::lemma_strictly_sorted_unique(t2[j].1@, t1[i].1@);
    }
    j
}

/// SIA depends only on the set of points: two MTP tables of the same set
/// (whatever the order and repetitions of the points it was given as) hold
/// the same vectors with the same patterns, entry by entry.
pub proof fn lemma_mtp_table_unique(
    d: Set<Point>,
    restrict_dpitch_zero: bool,
    t1: Seq<(Vector, Vec<Point>)>,
    t2: Seq<(Vector, Vec<Point>)>,
)
    requires
        is_mtp_table(d, restrict_dpitch_zero, t1),
        is_mtp_table(d, restrict_dpitch_zero, t2),
    ensures
        t1.len() == t2.len(),
        forall|i: int| 0 <= i < t1.len() ==> (#[trigger] t1[i]).0 == t2[i].0 && t1[i].1@ == t2[i].1@,
{
    let vs1 = t1.map_values(|e: (Vector, Vec<Point>)| e.0);
    let vs2 = t2.map_values(|e: (Vector, Vec<Point>)| e.0);
    assert(strictly_sorted(vs1)) by {
        assert forall|i: int, j: int| 0 <= i < j < vs1.len() implies #[trigger] vs1[i].key() < #[trigger] vs1[j].key() by {
            assert(vector_key(t1[i].0) < vector_key(t1[j].0));
        }
    }
    assert(strictly_sorted(vs2)) by {
        assert forall|i: int, j: int| 0 <= i < j < vs2.len() implies #[trigger] vs2[i].key() < #[trigger] vs2[j].key() by {
            assert(vector_key(t2[i].0) < vector_key(t2[j].0));
        }
    }
    assert forall|v: Vector| vs1.to_set().contains(v) implies vs2.to_set().contains(v) by {
        let i = choose|i: int| 0 <= i < vs1.len() && vs1[i] == v;
        let j = lemma_table_entry_in(d, d, restrict_dpitch_zero, restrict_dpitch_zero, t1, t2, i);
        assert(vs2[j] == v);
    }
    assert forall|v: Vector| vs2.to_set().contains(v) implies vs1.to_set().contains(v) by {
        let i = choose|i: int| 0 <= i < vs2.len() && vs2[i] == v;
        let j = lemma_table_entry_in(d, d, restrict_dpitch_zero, restrict_dpitch_zero, t2, t1, i);
        assert(vs1[j] == v);
    }
    assert(vs1.to_set() =~= vs2.to_set());
    crate::sort::lemma_strictly_sorted_unique(vs1, vs2);
    assert forall|i: int| 0 <= i < t1.len() implies (#[trigger] t1[i]).0 == t2[i].0 && t1[i].1@ == t2[i].1@ by {
        assert(vs1[i] == vs2[i]);
        let j = lemma_table_entry_in(d, d, restrict_dpitch_zero, restrict_dpitch_zero, t1, t2, i);
        if j != i {
            if j < i {
                assert(vector_key(t2[j].0) < vector_key(t2[i].0));
            } else {
                assert(vector_key(t2[i].0) < vector_key(t2[j].0));
            }
        }
    }
}

/// Restricting SIA to temporal vectors keeps exactly the entries whose
/// vector has no pitch component, with their patterns: every entry of the
/// restricted table `tt` is an entry of the full table `tf` with a zero
/// pitch component, and every such entry of `tf` is an entry of `tt`.
pub proof fn lemma_mtp_table_restrict(
    d: Set<Point>,
    tf: Seq<(Vector, Vec<Point>)>,
    tt: Seq<(Vector, Vec<Point>)>,
)
    requires
        is_mtp_table(d, false, tf),
        is_mtp_table(d, true, tt),
    ensures
        forall|i: int|
            0 <= i < tt.len() ==> (#[trigger] tt[i]).0.1 == 0 && exists|j: int|
                0 <= j < tf.len() && #[trigger] tf[j].0 == tt[i].0 && tf[j].1@ == tt[i].1@,
        forall|j: int|
            0 <= j < tf.len() && (#[trigger] tf[j]).0.1 == 0 ==> exists|i: int|
                0 <= i < tt.len() && #[trigger] tt[i].0 == tf[j].0 && tt[i].1@ == tf[j].1@,
{
    assert forall|i: int| 0 <= i < tt.len() implies (#[trigger] tt[i]).0.1 == 0 && exists|j: int|
        0 <= j < tf.len() && #[trigger] tf[j].0 == tt[i].0 && tf[j].1@ == tt[i].1@ by {
        let j = lemma_table_entry_in(d, d, true, false, tt, tf, i);
    }
    assert forall|j: int| 0 <= j < tf.len() && (#[trigger] tf[j]).0.1 == 0 implies exists|i: int|
        0 <= i < tt.len() && #[trigger] tt[i].0 == tf[j].0 && tt[i].1@ == tf[j].1@ by {
        let i = lemma_table_entry_in(d, d, false, true, tf, tt, j);
    }
}

/// The table `t` has an entry for the vector of `e` whose pattern holds
/// every point of the pattern of `e`.
pub open spec fn grows_into(e: (Vector, Vec<Point>), t: Seq<(Vector, Vec<Point>)>) -> bool {
    exists|j: int| 0 <= j < t.len() && #[trigger] t[j].0 == e.0 && e.1@.to_set().subset_of(t[j].1@.to_set())
}

/// Adding points only makes the MTPs grow: every vector of the table of
/// `d1` has an entry in the table of any superset `d2`, whose pattern holds
/// every point of its pattern in the table of `d1`.
pub proof fn lemma_mtp_table_monotone(
    d1: Set<Point>,
    d2: Set<Point>,
    restrict_dpitch_zero: bool,
    t1: Seq<(Vector, Vec<Point>)>,
    t2: Seq<(Vector, Vec<Point>)>,
)
    requires
        d1.subset_of(d2),
        is_mtp_table(d1, restrict_dpitch_zero, t1),
        is_mtp_table(d2, restrict_dpitch_zero, t2),
    ensures
        forall|i: int| 0 <= i < t1.len() ==> grows_into(#[trigger] t1[i], t2),
{
    assert forall|i: int| 0 <= i < t1.len() implies grows_into(#[trigger] t1[i], t2) by {
        let j = lemma_table_entry_in(d1, d2, restrict_dpitch_zero, restrict_dpitch_zero, t1, t2, i);
        assert(t2[j].0 == t1[i].0);
    }
}


/// The table of SIA is complete over the vectors it may consider: without
/// the restriction, it has an entry for every non-zero vector whose MTP has
/// two points, whatever its pitch component; with it, for every such vector
/// with no pitch component. Its entries are all of that kind.
pub proof fn lemma_mtp_table_vectors(
    d: Set<Point>,
    restrict_dpitch_zero: bool,
    t: Seq<(Vector, Vec<Point>)>,
    v: Vector,
)
    requires
        is_mtp_table(d, restrict_dpitch_zero, t),
    ensures
        (v.0 != 0 || v.1 != 0) && (restrict_dpitch_zero ==> v.1 == 0) && has_two(mtp(d, v)) ==> exists|i: int|
            0 <= i < t.len() && #[trigger] t[i].0 == v,
        forall|i: int|
            0 <= i < t.len() ==> ((#[trigger] t[i]).0.0 != 0 || t[i].0.1 != 0) && (restrict_dpitch_zero ==> t[i].0.1
                == 0) && t[i].1@.to_set() == d.filter(|p: Point| lands_in(p, t[i].0, d)),
{
    crate::geometry::lemma_admissible_vectors(v);
    if (v.0 != 0 || v.1 != 0) && (restrict_dpitch_zero ==> v.1 == 0) && has_two(mtp(d, v)) {
        assert(admissible(v, restrict_dpitch_zero));
    }
    assert forall|i: int| 0 <= i < t.len() implies ((#[trigger] t[i]).0.0 != 0 || t[i].0.1 != 0) && (
    restrict_dpitch_zero ==> t[i].0.1 == 0) && t[i].1@.to_set() == d.filter(|p: Point| lands_in(p, t[i].0, d)) by {
        crate::geometry::lemma_admissible_vectors(t[i].0);
        assert(admissible(t[i].0, restrict_dpitch_zero));
    }
}

} // verus!
