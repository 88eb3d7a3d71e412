//! Laws that relate several functions of the library.

use vstd::prelude::*;
use crate::geometry::Point;
use crate::notes::{Note, note_point};
use crate::sort::{lemma_strictly_sorted_no_duplicates, strictly_sorted};
use crate::tec::{TranslationalEquivalence, lemma_union_coverage_push, same_tec, union_coverage};
use crate::utils::{
    any_flagged, flagged_coverage, group_notes, is_merge_result, kept_tecs, notes_at, notes_with_point, units_of,
};

verus! {

broadcast use vstd::multiset::group_multiset_axioms;

/// The notes of `s`, grouped by point along `ps`.
pub open spec fn grouped(ps: Seq<Point>, s: Seq<Note>) -> Seq<Note>
    decreases ps.len(),
{
    if ps.len() == 0 {
        Seq::empty()
    } else {
        grouped(ps.drop_last(), s) + notes_with_point(s, ps.last())
    }
}

proof fn lemma_notes_at_grouped(ps: Seq<Point>, s: Seq<Note>)
    ensures
        notes_at(ps, group_notes(s)) == grouped(ps, s),
    decreases ps.len(),
{
    if ps.len() > 0 {
        lemma_notes_at_grouped(ps.drop_last(), s);
        let p = ps.last();
        if !group_notes(s).dom().contains(p) {
            let pred = |n: Note| note_point(n) == p;
            if s.filter(pred).len() > 0 {
                let x = s.filter(pred)[0];
                s.lemma_filter_pred(pred, 0);
                assert(s.filter(pred).contains(x));
                s.lemma_filter_contains_rev(pred, x);
                let i = choose|i: int| 0 <= i < s.len() && s[i] == x;
                assert(group_notes(s).dom().contains(p));
            }
            assert(notes_with_point(s, p) =~= Seq::<Note>::empty());
        }
    }
}

proof fn lemma_grouped_empty(ps: Seq<Point>)
    ensures
        grouped(ps, Seq::<Note>::empty()) == Seq::<Note>::empty(),
    decreases ps.len(),
{
    if ps.len() > 0 {
        lemma_grouped_empty(ps.drop_last());
        assert(notes_with_point(Seq::<Note>::empty(), ps.last()) =~= Seq::<Note>::empty());
        assert(grouped(ps, Seq::<Note>::empty()) =~= Seq::<Note>::empty());
    }
}

proof fn lemma_grouped_push_absent(ps: Seq<Point>, s: Seq<Note>, x: Note)
    requires
        !ps.contains(note_point(x)),
    ensures
        grouped(ps, s.push(x)) == grouped(ps, s),
    decreases ps.len(),
{
    if ps.len() > 0 {
        assert(!ps.drop_last().contains(note_point(x))) by {
            if ps.drop_last().contains(note_point(x)) {
                let i = choose|i: int| 0 <= i < ps.drop_last().len() && ps.drop_last()[i] == note_point(x);
                assert(ps[i] == note_point(x));
            }
        }
        lemma_grouped_push_absent(ps.drop_last(), s, x);
        let p = ps.last();
        let pred = |n: Note| note_point(n) == p;
        s.lemma_filter_push(x, pred);
        assert(ps[ps.len() - 1] == p);
    }
}

proof fn lemma_grouped_push(ps: Seq<Point>, s: Seq<Note>, x: Note)
    requires
        ps.no_duplicates(),
        ps.contains(note_point(x)),
    ensures
        grouped(ps, s.push(x)).to_multiset() == grouped(ps, s).to_multiset().insert(x),
    decreases ps.len(),
{
    let init = ps.drop_last();
    let p = ps.last();
    let pred = |n: Note| note_point(n) == p;
    s.lemma_filter_push(x, pred);
    vstd::seq_lib::lemma_multiset_commutative(grouped(init, s.push(x)), notes_with_point(s.push(x), p));
    vstd::seq_lib::lemma_multiset_commutative(grouped(init, s), notes_with_point(s, p));
    if p == note_point(x) {
        assert(!init.contains(note_point(x))) by {
            if init.contains(note_point(x)) {
                let i = choose|i: int| 0 <= i < init.len() && init[i] == note_point(x);
                assert(ps[i] == ps[ps.len() - 1]);
            }
        }
        lemma_grouped_push_absent(init, s, x);
        vstd::seq_lib::to_multiset_build(notes_with_point(s, p), x);
        assert(grouped(ps, s.push(x)).to_multiset() =~= grouped(ps, s).to_multiset().insert(x));
    } else {
        assert(init.contains(note_point(x))) by {
            let i = choose|i: int| 0 <= i < ps.len() && ps[i] == note_point(x);
            assert(i != ps.len() - 1);
            assert(init[i] == note_point(x));
        }
        assert(init.no_duplicates());
        lemma_grouped_push(init, s, x);
        assert(grouped(ps, s.push(x)).to_multiset() =~= grouped(ps, s).to_multiset().insert(x));
    }
}

proof fn lemma_grouped_all(ps: Seq<Point>, s: Seq<Note>)
    requires
        ps.no_duplicates(),
        forall|i: int| 0 <= i < s.len() ==> ps.contains(note_point(#[trigger] s[i])),
    ensures
        grouped(ps, s).to_multiset() == s.to_multiset(),
    decreases s.len(),
{
    if s.len() == 0 {
        lemma_grouped_empty(ps);
        assert(s =~= Seq::<Note>::empty());
    } else {
        let s0 = s.drop_last();
        let x = s.last();
        assert(s =~= s0.push(x));
        assert forall|i: int| 0 <= i < s0.len() implies ps.contains(note_point(#[trigger] s0[i])) by {
            assert(s0[i] == s[i]);
        }
        lemma_grouped_all(ps, s0);
        assert(ps.contains(note_point(s[s.len() - 1])));
        lemma_grouped_push(ps, s0, x);
        vstd::seq_lib::to_multiset_build(s0, x);
    }
}

/// Rebuilding notes from their points is lossless: collecting, for every
/// point that the notes produce (each once, in `(tick, pitch)` order), the
/// notes that `notes_to_points` recorded for it gives back exactly the notes,
/// as a multiset. With `points_to_notes`, which sorts what it collects, this
/// gives the notes sorted, for TECs that cover exactly the notes' points.
pub proof fn lemma_notes_round_trip(notes: Seq<Note>, ps: Seq<Point>)
    requires
        strictly_sorted(ps),
        ps.to_set() == notes.map_values(|n: Note| note_point(n)).to_set(),
    ensures
        notes_at(ps, group_notes(notes)).to_multiset() == notes.to_multiset(),
{
    lemma_strictly_sorted_no_duplicates(ps);
    assert forall|i: int| 0 <= i < notes.len() implies ps.contains(note_point(#[trigger] notes[i])) by {
        let pts = notes.map_values(|n: Note| note_point(n));
        assert(pts[i] == note_point(notes[i]));
        assert(pts.to_set().contains(note_point(notes[i])));
        assert(ps.to_set().contains(note_point(notes[i])));
    }
    lemma_notes_at_grouped(ps, notes);
    lemma_grouped_all(ps, notes);
}

proof fn lemma_merge_split(tecs: Seq<TranslationalEquivalence>, flags: Seq<bool>)
    ensures
        union_coverage(tecs) == union_coverage(kept_tecs(tecs, flags)).union(flagged_coverage(tecs, flags)),
    decreases tecs.len(),
{
    if tecs.len() > 0 {
        let init = tecs.drop_last();
        lemma_merge_split(init, flags);
        if !flags[tecs.len() - 1] {
            lemma_union_coverage_push(kept_tecs(init, flags), tecs.last());
        }
        assert(union_coverage(tecs) =~= union_coverage(kept_tecs(tecs, flags)).union(
            flagged_coverage(tecs, flags),
        ));
    }
}

/// Merging TECs neither loses nor adds a point: the result covers exactly
/// what the TECs covered.
pub proof fn lemma_merge_keeps_coverage(
    tecs: Seq<TranslationalEquivalence>,
    flags: Seq<bool>,
    r: Seq<TranslationalEquivalence>,
)
    requires
        is_merge_result(tecs, flags, r),
    ensures
        union_coverage(r) == union_coverage(tecs),
{
    lemma_merge_split(tecs, flags);
    let kept = kept_tecs(tecs, flags);
    if !any_flagged(tecs, flags) || flagged_coverage(tecs, flags) == Set::<Point>::empty() {
        if !any_flagged(tecs, flags) {
            lemma_no_flag_no_coverage(tecs, flags);
        }
        assert(union_coverage(tecs) =~= union_coverage(kept));
    } else {
        let m = r.last();
        assert(r =~= kept.push(m));
        lemma_union_coverage_push(kept, m);
        assert(m.pattern_points() == m.pattern@.to_set());
        assert(m.coverage_set() == m.pattern_points());
    }
}

proof fn lemma_no_flag_no_coverage(tecs: Seq<TranslationalEquivalence>, flags: Seq<bool>)
    requires
        !any_flagged(tecs, flags),
    ensures
        flagged_coverage(tecs, flags) == Set::<Point>::empty(),
    decreases tecs.len(),
{
    if tecs.len() > 0 {
        assert(!any_flagged(tecs.drop_last(), flags)) by {
            if any_flagged(tecs.drop_last(), flags) {
                let j = choose|j: int| 0 <= j < tecs.drop_last().len() && flags[j];
                assert(0 <= j < tecs.len() && flags[j]);
            }
        }
        lemma_no_flag_no_coverage(tecs.drop_last(), flags);
        assert(!flags[tecs.len() - 1]);
    }
}


/// Every TEC that merging keeps is one of the TECs, not flagged.
proof fn lemma_kept_unflagged(tecs: Seq<TranslationalEquivalence>, flags: Seq<bool>)
    ensures
        forall|j: int|
            0 <= j < kept_tecs(tecs, flags).len() ==> exists|i: int|
                0 <= i < tecs.len() && !flags[i] && tecs[i] == #[trigger] kept_tecs(tecs, flags)[j],
    decreases tecs.len(),
{
    if tecs.len() > 0 {
        let init = tecs.drop_last();
        lemma_kept_unflagged(init, flags);
        let k = kept_tecs(init, flags);
        assert forall|j: int| 0 <= j < kept_tecs(tecs, flags).len() implies exists|i: int|
            0 <= i < tecs.len() && !flags[i] && tecs[i] == #[trigger] kept_tecs(tecs, flags)[j] by {
            if j < k.len() {
                assert(kept_tecs(tecs, flags)[j] == k[j]);
                let i = choose|i: int| 0 <= i < init.len() && !flags[i] && init[i] == #[trigger] k[j];
                assert(tecs[i] == init[i]);
            } else {
                let i = tecs.len() - 1;
                assert(tecs[i] == tecs.last());
            }
        }
    }
}

/// Where no TEC is flagged, merging keeps them all and merges nothing.
proof fn lemma_none_flagged(tecs: Seq<TranslationalEquivalence>, flags: Seq<bool>)
    requires
        forall|i: int| 0 <= i < tecs.len() ==> !#[trigger] flags[i],
    ensures
        kept_tecs(tecs, flags) == tecs,
        !any_flagged(tecs, flags),
    decreases tecs.len(),
{
    if tecs.len() > 0 {
        lemma_none_flagged(tecs.drop_last(), flags);
        assert(!flags[tecs.len() - 1]);
        assert(tecs.drop_last().push(tecs.last()) =~= tecs);
    } else {
        assert(tecs =~= Seq::<TranslationalEquivalence>::empty());
    }
}

/// Merging is idempotent: with a filter that gives the same answer on the
/// same TEC, merging the result of a merge once more gives the same TECs,
/// with the same patterns, translators and sub-TECs, in the same order.
pub proof fn lemma_merge_idempotent(
    tecs: Seq<TranslationalEquivalence>,
    f1: Seq<bool>,
    r1: Seq<TranslationalEquivalence>,
    f2: Seq<bool>,
    r2: Seq<TranslationalEquivalence>,
)
    requires
        is_merge_result(tecs, f1, r1),
        is_merge_result(r1, f2, r2),
        forall|i: int, j: int|
            0 <= i < tecs.len() && 0 <= j < r1.len() && #[trigger] tecs[i] == #[trigger] r1[j] ==> f1[i] == f2[j],
    ensures
        r2.len() == r1.len(),
        forall|k: int| 0 <= k < r1.len() ==> same_tec(#[trigger] r2[k], r1[k]),
{
    let kept = kept_tecs(tecs, f1);
    lemma_kept_unflagged(tecs, f1);
    let simple = !any_flagged(tecs, f1) || flagged_coverage(tecs, f1) == Set::<Point>::empty();
    assert forall|j: int| 0 <= j < kept.len() implies !#[trigger] f2[j] by {
        let i = choose|i: int| 0 <= i < tecs.len() && !f1[i] && tecs[i] == #[trigger] kept[j];
        if simple {
            assert(r1[j] == kept[j]);
        } else {
            assert(r1.drop_last()[j] == kept[j]);
            assert(r1[j] == kept[j]);
        }
    }
    if simple || !f2[r1.len() - 1] {
        assert forall|j: int| 0 <= j < r1.len() implies !#[trigger] f2[j] by {
            if j < kept.len() {
                assert(!f2[j]);
            }
        }
        lemma_none_flagged(r1, f2);
    } else {
        let m = r1.last();
        let n = r1.len() - 1;
        assert(r1.drop_last() == kept);
        lemma_none_flagged(kept, f2);
        assert(flagged_coverage(kept, f2) =~= Set::<Point>::empty()) by {
            assert forall|i: int| 0 <= i < kept.len() implies !#[trigger] f2[i] by {}
            lemma_no_flag_no_coverage(kept, f2);
        }
        assert(kept_tecs(r1, f2) == kept);
        assert(m.coverage_set() == m.pattern@.to_set());
        assert(flagged_coverage(r1, f2) =~= m.pattern@.to_set());
        assert(any_flagged(r1, f2)) by {
            assert(0 <= n < r1.len() && f2[n]);
        }
        assert(m.pattern@.to_set() =~= flagged_coverage(tecs, f1));
        crate::sort::lemma_strictly_sorted_unique(r2.last().pattern@, m.pattern@);
        assert forall|k: int| 0 <= k < r1.len() implies same_tec(#[trigger] r2[k], r1[k]) by {
            if k < n {
                assert(r2[k] == r2.drop_last()[k]);
                assert(r1[k] == r1.drop_last()[k]);
            } else {
                assert(r2[k].translators@ =~= r1[k].translators@);
                assert(r2[k].sub_tecs@ =~= r1[k].sub_tecs@);
            }
        }
    }
}

/// The size of the encoding adds up: that of two sequences of TECs, one
/// after the other, is the sum of theirs.
pub proof fn lemma_units_concat(a: Seq<TranslationalEquivalence>, b: Seq<TranslationalEquivalence>)
    ensures
        units_of(a + b) == units_of(a) + units_of(b),
    decreases b.len(),
{
    if b.len() == 0 {
        assert(a + b =~= a);
    } else {
        lemma_units_concat(a, b.drop_last());
        assert((a + b).drop_last() =~= a + b.drop_last());
        assert((a + b).last() == b.last());
    }
}

} // verus!
