//! Conversions between note events and points, merging of TECs, and the
//! size of a compressed encoding.

use vstd::prelude::*;
use crate::geometry::{Point, Vector};
use crate::notes::{Note, NoteMap, encodable, encode_note, lemma_note_order, note_lt, note_point};
use crate::sort::{SortKey, copy_vec, lemma_strictly_sorted_unique, sort_by_key, sort_unique, sorted_by_key, strictly_sorted};
use crate::tec::{TranslationalEquivalence, coverage_of_all, union_coverage};

verus! {

/// The notes of `s` that produce the point `p`, in order.
pub open spec fn notes_with_point(s: Seq<Note>, p: Point) -> Seq<Note> {
    s.filter(|n: Note| note_point(n) == p)
}

/// The map from every point produced by the notes of `s` to those notes, in
/// order.
pub open spec fn group_notes(s: Seq<Note>) -> Map<Point, Seq<Note>> {
    Map::new(
        |p: Point| exists|i: int| 0 <= i < s.len() && note_point(s[i]) == p,
        |p: Point| notes_with_point(s, p),
    )
}

/// The notes that `m` records for the points of `ps`, point after point.
pub open spec fn notes_at(ps: Seq<Point>, m: Map<Point, Seq<Note>>) -> Seq<Note>
    decreases ps.len(),
{
    if ps.len() == 0 {
        Seq::empty()
    } else {
        notes_at(ps.drop_last(), m) + if m.dom().contains(ps.last()) {
            m[ps.last()]
        } else {
            Seq::empty()
        }
    }
}

/// Converts note events into points `(tick, encoded_y)`, where `encoded_y`
/// packs the instrument above `PITCH_BITS` bits and the pitch in cents
/// (shifted by `OFFSET`) below, together with the map from each point to all
/// the notes that produced it, in the order of the notes.
pub fn notes_to_points(notes: &Vec<Note>) -> (r: (Vec<Point>, NoteMap))
    requires
        forall|i: int| 0 <= i < notes.len() ==> encodable(#[trigger] notes@[i]),
    ensures
        r.0@ == notes@.map_values(|n: Note| note_point(n)),
        r.0.len() == notes.len(),
        forall|i: int| 0 <= i < notes.len() ==> (#[trigger] r.0@[i]).0 == notes@[i].0,
        r.1.wf(),
        r.1.view() == group_notes(notes@),
{
    let mut points: Vec<Point> = Vec::new();
    let mut mapping = NoteMap::new();
    let mut k: usize = 0;
    assert(group_notes(notes@.take(0)) =~= Map::<Point, Seq<Note>>::empty());
    while k < notes.len()
        invariant
            k <= notes.len(),
            forall|i: int| 0 <= i < notes.len() ==> encodable(#[trigger] notes@[i]),
            points@ == notes@.take(k as int).map_values(|n: Note| note_point(n)),
            mapping.wf(),
            mapping.view() == group_notes(notes@.take(k as int)),
        decreases notes.len() - k,
    {
        let n = notes[k];
        let p = encode_note(n);
        let ghost old_map = mapping.view();
        let ghost s = notes@.take(k as int);
        let ghost s1 = notes@.take(k + 1);
        proof {
            assert(s1 =~= s.push(n));
        }
        points.push(p);
        mapping.add(p, n);
        proof {
            assert(points@ =~= s1.map_values(|n: Note| note_point(n)));
            let pred = |x: Note| note_point(x) == p;
            s.lemma_filter_push(n, pred);
            if !old_map.dom().contains(p) {
                if s.filter(pred).len() > 0 {
                    let x = s.filter(pred)[0];
                    s.lemma_filter_pred(pred, 0);
                    assert(s.filter(pred).contains(x));
                    s.lemma_filter_contains_rev(pred, x);
                    let i = choose|i: int| 0 <= i < s.len() && s[i] == x;
                    assert(old_map.dom().contains(p));
                }
                assert(s.filter(pred) =~= Seq::<Note>::empty());
            }
            assert forall|q: Point| #[trigger] mapping.view().dom().contains(q) <==> group_notes(s1).dom().contains(q) by {
                if old_map.dom().contains(q) {
                    let i = choose|i: int| 0 <= i < s.len() && note_point(s[i]) == q;
                    assert(s1[i] == s[i]);
                }
                if q == p {
                    assert(s1[k as int] == n);
                }
                if group_notes(s1).dom().contains(q) {
                    let i = choose|i: int| 0 <= i < s1.len() && note_point(s1[i]) == q;
                    if i < k {
                        assert(s[i] == s1[i]);
                    }
                }
            }
            assert forall|q: Point| #[trigger] mapping.view().dom().contains(q) implies mapping.view()[q] == group_notes(
                s1,
            )[q] by {
                let pq = |x: Note| note_point(x) == q;
                s.lemma_filter_push(n, pq);
                assert(pq == (|x: Note| note_point(x) == q));
            }
            assert(mapping.view() =~= group_notes(s1));
        }
        k = k + 1;
    }
    proof {
        assert(notes@.take(notes.len() as int) =~= notes@);
        assert forall|i: int| 0 <= i < notes.len() implies (#[trigger] points@[i]).0 == notes@[i].0 by {
            assert(points@[i] == note_point(notes@[i]));
        }
    }
    (points, mapping)
}

/// Rebuilds the note events from TECs and the map of `notes_to_points`.
///
/// Computes the points covered by the TECs, then collects, for each covered
/// point in `(tick, pitch)` order, the notes that the map records for it
/// (points it does not know are skipped), and returns all of them sorted.
pub fn points_to_notes(tecs: &Vec<TranslationalEquivalence>, mapping: &NoteMap) -> (r: Vec<Note>)
    requires
        mapping.wf(),
    ensures
        sorted_by_key(r@),
        forall|i: int, j: int| 0 <= i < j < r.len() ==> !note_lt(#[trigger] r@[j], #[trigger] r@[i]),
        forall|ps: Seq<Point>|
            strictly_sorted(ps) && #[trigger] ps.to_set() == union_coverage(tecs@) ==> r@.to_multiset()
                == notes_at(ps, mapping.view()).to_multiset(),
{
    let cov = coverage_of_all(tecs);
    let ghost m = mapping.view();
    let mut all: Vec<Note> = Vec::new();
    let mut i: usize = 0;
    assert(cov@.take(0) =~= Seq::<Point>::empty());
    while i < cov.len()
        invariant
            i <= cov.len(),
            mapping.wf(),
            m == mapping.view(),
            all@ == notes_at(cov@.take(i as int), m),
        decreases cov.len() - i,
    {
        let ghost before = all@;
        let p = cov[i];
        proof {
            assert(cov@.take(i + 1).drop_last() =~= cov@.take(i as int));
            assert(cov@.take(i + 1).last() == p);
        }
        match mapping.get(&p) {
            Some(v) => {
                let mut c = copy_vec(v);
                all.append(&mut c);
            },
            None => {
                assert(before + Seq::<Note>::empty() =~= before);
            },
        }
        i = i + 1;
    }
    assert(cov@.take(cov.len() as int) =~= cov@);
    let r = sort_by_key(&all);
    proof {
        assert forall|ps: Seq<Point>|
            strictly_sorted(ps) && #[trigger] ps.to_set() == union_coverage(tecs@) implies r@.to_multiset()
                == notes_at(ps, mapping.view()).to_multiset() by {
            lemma_strictly_sorted_unique(ps, cov@);
        }
        assert forall|i: int, j: int| 0 <= i < j < r.len() implies !note_lt(#[trigger] r@[j], #[trigger] r@[i]) by {
            lemma_note_order(r@[j], r@[i]);
            assert(r@[i].key() <= r@[j].key());
        }
    }
    r
}

/// The TECs for which the flag is not set, in order.
pub open spec fn kept_tecs(tecs: Seq<TranslationalEquivalence>, flags: Seq<bool>) -> Seq<TranslationalEquivalence>
    decreases tecs.len(),
{
    if tecs.len() == 0 {
        Seq::empty()
    } else {
        let k = kept_tecs(tecs.drop_last(), flags);
        if flags[tecs.len() - 1] {
            k
        } else {
            k.push(tecs.last())
        }
    }
}

/// The points covered by the TECs for which the flag is set.
pub open spec fn flagged_coverage(tecs: Seq<TranslationalEquivalence>, flags: Seq<bool>) -> Set<Point>
    decreases tecs.len(),
{
    if tecs.len() == 0 {
        Set::empty()
    } else {
        let c = flagged_coverage(tecs.drop_last(), flags);
        if flags[tecs.len() - 1] {
            c.union(tecs.last().coverage_set())
        } else {
            c
        }
    }
}

/// Some TEC is flagged.
pub open spec fn any_flagged(tecs: Seq<TranslationalEquivalence>, flags: Seq<bool>) -> bool {
    exists|i: int| 0 <= i < tecs.len() && flags[i]
}

/// `r` is the result of merging the flagged TECs of `tecs`: the TECs that
/// are not flagged, unchanged and in order, followed by one TEC whose
/// pattern is every point that the flagged TECs cover, sorted, with no
/// translators. Where no TEC is flagged, or the flagged TECs cover no
/// point, there is nothing to merge and `r` is the unflagged TECs alone.
pub open spec fn is_merge_result(
    tecs: Seq<TranslationalEquivalence>,
    flags: Seq<bool>,
    r: Seq<TranslationalEquivalence>,
) -> bool {
    let kept = kept_tecs(tecs, flags);
    let merged = flagged_coverage(tecs, flags);
    if !any_flagged(tecs, flags) || merged == Set::<Point>::empty() {
        r == kept
    } else {
        &&& r.len() == kept.len() + 1
        &&& r.drop_last() == kept
        &&& strictly_sorted(r.last().pattern@)
        &&& r.last().pattern@.to_set() == merged
        &&& r.last().translators@.len() == 0
        &&& r.last().sub_tecs@.len() == 0
    }
}

/// Only the flags of the TECs themselves matter.
proof fn lemma_flags_prefix(tecs: Seq<TranslationalEquivalence>, f1: Seq<bool>, f2: Seq<bool>)
    requires
        forall|j: int| 0 <= j < tecs.len() ==> f1[j] == f2[j],
    ensures
        kept_tecs(tecs, f1) == kept_tecs(tecs, f2),
        flagged_coverage(tecs, f1) == flagged_coverage(tecs, f2),
    decreases tecs.len(),
{
    if tecs.len() > 0 {
        lemma_flags_prefix(tecs.drop_last(), f1, f2);
    }
}

/// A copy of the vector in reverse order.
fn reversed<T>(v: Vec<T>) -> (r: Vec<T>)
    ensures
        r@ == v@.reverse(),
{
    let ghost orig = v@;
    let mut v = v;
    let mut r: Vec<T> = Vec::new();
    while v.len() > 0
        invariant
            v.len() <= orig.len(),
            v@ == orig.take(v.len() as int),
            r@ == orig.subrange(v.len() as int, orig.len() as int).reverse(),
        decreases v.len(),
    {
        let x = v.pop().unwrap();
        r.push(x);
        assert(v@ =~= orig.take(v.len() as int));
        assert(r@ =~= orig.subrange(v.len() as int, orig.len() as int).reverse());
    }
    assert(orig.subrange(0, orig.len() as int) =~= orig);
    r
}

/// Merges all TECs that the filter selects into one TEC that holds all the
/// points they cover, sorted, as its pattern, with no translators; the other
/// TECs are kept unchanged, in order, before it. Where no TEC is selected,
/// or the selected TECs cover no point, no merged TEC is added and the
/// result is the TECs that were not selected.
pub fn merge_tecs<F: Fn(&TranslationalEquivalence) -> bool>(
    tecs: Vec<TranslationalEquivalence>,
    filter: F,
) -> (r: Vec<TranslationalEquivalence>)
    requires
        forall|i: int| 0 <= i < tecs.len() ==> call_requires(filter, (&tecs@[i],)),
    ensures
        exists|flags: Seq<bool>|
            {
                &&& flags.len() == tecs.len()
                &&& forall|i: int| 0 <= i < tecs.len() ==> call_ensures(filter, (&tecs@[i],), #[trigger] flags[i])
                &&& is_merge_result(tecs@, flags, r@)
            },
{
    let ghost orig = tecs@;
    let n: usize = tecs.len();
    let mut rev = reversed(tecs);
    let mut to_keep: Vec<TranslationalEquivalence> = Vec::new();
    let mut merged_points: Vec<Point> = Vec::new();
    let mut any: bool = false;
    let ghost mut flags: Seq<bool> = Seq::empty();
    let mut i: usize = 0;
    assert(orig.subrange(0, n as int).reverse() =~= rev@);
    assert(orig.take(0) =~= Seq::<TranslationalEquivalence>::empty());
    assert(merged_points@.to_set() =~= Set::<Point>::empty());
    while i < n
        invariant
            n == orig.len(),
            i <= n,
            forall|j: int| 0 <= j < n ==> call_requires(filter, (&orig[j],)),
            rev@ == orig.subrange(i as int, n as int).reverse(),
            flags.len() == i,
            forall|j: int| 0 <= j < i ==> call_ensures(filter, (&orig[j],), #[trigger] flags[j]),
            to_keep@ == kept_tecs(orig.take(i as int), flags),
            merged_points@.to_set() == flagged_coverage(orig.take(i as int), flags),
            any == any_flagged(orig.take(i as int), flags),
        decreases n - i,
    {
        assert(rev@.len() > 0);
        assert(rev@.last() == orig[i as int]);
        let ghost t1 = orig.take(i + 1);
        assert(t1.drop_last() =~= orig.take(i as int));
        assert(t1.last() == orig[i as int]);
        let tec = rev.pop().unwrap();
        assert(rev@ =~= orig.subrange(i + 1, n as int).reverse());
        let b = filter(&tec);
        let ghost old_flags = flags;
        proof {
            flags = flags.push(b);
            lemma_flags_prefix(orig.take(i as int), old_flags, flags);
        }
        if b {
            let mut c = tec.coverage();
            let ghost old_m = merged_points@;
            let ghost old_c = c@;
            merged_points.append(&mut c);
            proof {
                vstd::seq_lib::seq_to_set_distributes_over_add(old_m, old_c);
            }
            any = true;
        } else {
            to_keep.push(tec);
        }
        proof {
            assert(any == any_flagged(t1, flags)) by {
                assert(flags[i as int] == b);
                if b {
                    assert(0 <= i < t1.len() && flags[i as int]);
                }
                if any_flagged(orig.take(i as int), old_flags) {
                    let j = choose|j: int| 0 <= j < i && old_flags[j];
                    assert(flags[j]);
                }
                if any_flagged(t1, flags) {
                    let j = choose|j: int| 0 <= j < i + 1 && flags[j];
                    if j < i {
                        assert(old_flags[j]);
                    }
                }
            }
        }
        i = i + 1;
    }
    assert(orig.take(n as int) =~= orig);
    if !any {
        return to_keep;
    }
    if merged_points.len() == 0 {
        assert(merged_points@.to_set() =~= Set::<Point>::empty());
        return to_keep;
    }
    let sorted = sort_unique(&merged_points);
    proof {
        assert(merged_points@.to_set().contains(merged_points@[0]));
    }
    let merged = TranslationalEquivalence::new(sorted, Vec::new(), None);
    let ghost kept = to_keep@;
    to_keep.push(merged);
    assert(to_keep@.drop_last() =~= kept);
    to_keep
}

/// The size of the encoding of a TEC: its translators, and its pattern
/// points or, where it has sub-TECs, the size of their encoding.
pub open spec fn tec_units(t: TranslationalEquivalence) -> nat
    decreases t, 0int,
{
    t.translators@.len() + if t.sub_tecs@.len() == 0 {
        t.pattern@.len()
    } else {
        units_of(t.sub_tecs@)
    }
}

/// The size of the encoding of a sequence of TECs.
pub open spec fn units_of(tecs: Seq<TranslationalEquivalence>) -> nat
    decreases tecs, 1int,
{
    if tecs.len() == 0 {
        0
    } else {
        units_of(tecs.drop_last()) + tec_units(tecs.last())
    }
}

/// How many units a TEC counts, stated field by field: a TEC without
/// sub-TECs counts one unit per pattern point and one per translator; a TEC
/// with sub-TECs counts one unit per translator and the units of its
/// sub-TECs in place of its pattern.
pub proof fn lemma_tec_units_fields(t: TranslationalEquivalence)
    ensures
        t.sub_tecs@.len() == 0 ==> tec_units(t) == t.pattern@.len() + t.translators@.len(),
        t.sub_tecs@.len() > 0 ==> tec_units(t) == t.translators@.len() + units_of(t.sub_tecs@),
{
}

/// Adding one translator to a TEC adds exactly one unit to its encoding,
/// and adding one point to the pattern of a TEC without sub-TECs does too.
pub proof fn lemma_tec_units_step(a: TranslationalEquivalence, b: TranslationalEquivalence, v: Vector, p: Point)
    ensures
        a.pattern@ == b.pattern@ && a.sub_tecs@ == b.sub_tecs@ && b.translators@ == a.translators@.push(v)
            ==> tec_units(b) == tec_units(a) + 1,
        a.sub_tecs@.len() == 0 && b.sub_tecs@.len() == 0 && a.translators@ == b.translators@ && b.pattern@
            == a.pattern@.push(p) ==> tec_units(b) == tec_units(a) + 1,
{
}

/// The units of a sequence of TECs are those of its TECs added up: one more
/// TEC at the end adds its own units, and the empty sequence counts none.
pub proof fn lemma_units_of_push(s: Seq<TranslationalEquivalence>, t: TranslationalEquivalence)
    ensures
        units_of(s.push(t)) == units_of(s) + tec_units(t),
        units_of(Seq::<TranslationalEquivalence>::empty()) == 0,
{
    assert(s.push(t).drop_last() =~= s);
}

/// The encoding of a prefix is not larger than that of the whole sequence.
proof fn lemma_units_prefix(tecs: Seq<TranslationalEquivalence>, i: int)
    requires
        0 <= i <= tecs.len(),
    ensures
        units_of(tecs.take(i)) <= units_of(tecs),
    decreases tecs.len() - i,
{
    if i < tecs.len() {
        lemma_units_prefix(tecs, i + 1);
        assert(tecs.take(i + 1).drop_last() =~= tecs.take(i));
    } else {
        assert(tecs.take(i) =~= tecs);
    }
}

/// The number of units of the encoding of one TEC: its translators and its
/// pattern points or, where it has sub-TECs, their units.
pub fn tec_unit_count(tec: &TranslationalEquivalence) -> (n: usize)
    requires
        tec_units(*tec) <= usize::MAX,
    ensures
        n == tec_units(*tec),
        tec.sub_tecs@.len() == 0 ==> n == tec.pattern@.len() + tec.translators@.len(),
    decreases tec, 0int,
{
    let inner: usize = if tec.sub_tecs.len() == 0 {
        tec.pattern.len()
    } else {
        count_units(&tec.sub_tecs)
    };
    tec.translators.len() + inner
}

/// The number of units of the compressed representation: the translators
/// and pattern points of every TEC, counting, for a TEC with sub-TECs, the
/// units of the sub-TECs in place of its pattern.
pub fn count_units(tecs: &Vec<TranslationalEquivalence>) -> (n: usize)
    requires
        units_of(tecs@) <= usize::MAX,
    ensures
        n == units_of(tecs@),
    decreases tecs@, 1int,
{
    let mut units: usize = 0;
    let mut i: usize = 0;
    assert(tecs@.take(0) =~= Seq::<TranslationalEquivalence>::empty());
    while i < tecs.len()
        invariant
            i <= tecs.len(),
            units_of(tecs@) <= usize::MAX,
            units == units_of(tecs@.take(i as int)),
        decreases tecs.len() - i,
    {
        proof {
            assert(tecs@.take(i + 1).drop_last() =~= tecs@.take(i as int));
            assert(tecs@.take(i + 1).last() == tecs@[i as int]);
            lemma_units_prefix(tecs@, i + 1);
            assert(units_of(tecs@.take(i + 1)) == units_of(tecs@.take(i as int)) + tec_units(tecs@[i as int]));
        }
        units = units + tec_unit_count(&tecs[i]);
        i = i + 1;
    }
    assert(tecs@.take(tecs.len() as int) =~= tecs@);
    units
}


/// The number of units of the encoding of one TEC, as `tec_unit_count`
/// counts them, or `None` where that number does not fit in `usize`.
pub fn checked_tec_unit_count(tec: &TranslationalEquivalence) -> (n: Option<usize>)
    ensures
        n == (if tec_units(*tec) <= usize::MAX {
            Some(tec_units(*tec) as usize)
        } else {
            None::<usize>
        }),
        tec.sub_tecs@.len() == 0 ==> (n is None <==> tec.pattern@.len() + tec.translators@.len() > usize::MAX),
        tec.sub_tecs@.len() == 0 && n is Some ==> n->0 == tec.pattern@.len() + tec.translators@.len(),
    decreases tec, 0int,
{
    let inner: Option<usize> = if tec.sub_tecs.len() == 0 {
        Some(tec.pattern.len())
    } else {
        checked_count_units(&tec.sub_tecs)
    };
    match inner {
        Some(k) => tec.translators.len().checked_add(k),
        None => None,
    }
}

/// The number of units of the compressed representation, as `count_units`
/// counts them, or `None` where that number does not fit in `usize`.
pub fn checked_count_units(tecs: &Vec<TranslationalEquivalence>) -> (n: Option<usize>)
    ensures
        n == (if units_of(tecs@) <= usize::MAX {
            Some(units_of(tecs@) as usize)
        } else {
            None::<usize>
        }),
    decreases tecs@, 1int,
{
    let mut units: usize = 0;
    let mut i: usize = 0;
    assert(tecs@.take(0) =~= Seq::<TranslationalEquivalence>::empty());
    while i < tecs.len()
        invariant
            i <= tecs.len(),
            units == units_of(tecs@.take(i as int)),
        decreases tecs.len() - i,
    {
        proof {
            assert(tecs@.take(i + 1).drop_last() =~= tecs@.take(i as int));
            assert(tecs@.take(i + 1).last() == tecs@[i as int]);
            lemma_units_prefix(tecs@, i + 1);
        }
        let step = match checked_tec_unit_count(&tecs[i]) {
            Some(k) => units.checked_add(k),
            None => None,
        };
        match step {
            Some(u) => {
                units = u;
            },
            None => {
                return None;
            },
        }
        i = i + 1;
    }
    assert(tecs@.take(tecs.len() as int) =~= tecs@);
    Some(units)
}

} // verus!
