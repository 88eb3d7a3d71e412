//! Ordering keys, a verified merge sort, deduplication and binary search.

use vstd::prelude::*;
use vstd::seq_lib::lemma_multiset_commutative;

verus! {

/// A value ordered by an integer key that determines it completely.
pub trait SortKey: Sized {
    /// The integer that orders values of the type.
    spec fn key(self) -> int;

    /// Compares two values by their keys.
    fn key_le(&self, other: &Self) -> (r: bool)
        ensures
            r == (self.key() <= other.key()),
    ;

    /// Two values with the same key are the same value.
    proof fn lemma_key_injective(a: Self, b: Self)
        ensures
            a.key() == b.key() ==> a == b,
    ;
}

/// Keys do not decrease along the sequence.
pub open spec fn sorted_by_key<T: SortKey>(s: Seq<T>) -> bool {
    forall|i: int, j: int| 0 <= i <= j < s.len() ==> #[trigger] s[i].key() <= #[trigger] s[j].key()
}

/// Keys increase strictly along the sequence.
pub open spec fn strictly_sorted<T: SortKey>(s: Seq<T>) -> bool {
    forall|i: int, j: int| 0 <= i < j < s.len() ==> #[trigger] s[i].key() < #[trigger] s[j].key()
}

/// A strictly sorted sequence holds no element twice.
pub proof fn lemma_strictly_sorted_no_duplicates<T: SortKey>(s: Seq<T>)
    requires
        strictly_sorted(s),
    ensures
        s.no_duplicates(),
{
    assert forall|i: int, j: int| 0 <= i < s.len() && 0 <= j < s.len() && i != j implies s[i] != s[j] by {
        if i < j {
            assert(s[i].key() < s[j].key());
        } else {
            assert(s[j].key() < s[i].key());
        }
    }
}

/// A strictly sorted sequence is as long as the set of its elements is large.
pub proof fn lemma_strictly_sorted_len<T: SortKey>(s: Seq<T>)
    requires
        strictly_sorted(s),
    ensures
        s.to_set().len() == s.len(),
        s.to_set().finite(),
{
    lemma_strictly_sorted_no_duplicates(s);
    s.unique_seq_to_set();
    vstd::seq_lib::seq_to_set_is_finite(s);
}

/// Two strictly sorted sequences with the same elements are equal.
pub proof fn lemma_strictly_sorted_unique<T: SortKey>(a: Seq<T>, b: Seq<T>)
    requires
        strictly_sorted(a),
        strictly_sorted(b),
        a.to_set() == b.to_set(),
    ensures
        a == b,
    decreases a.len(),
{
    if a.len() == 0 {
        if b.len() > 0 {
            assert(b.to_set().contains(b[0]));
        }
        assert(a =~= b);
    } else {
        assert(a.to_set().contains(a[0]));
        assert(b.len() > 0);
        assert(b.to_set().contains(b[0]));
        let i = choose|i: int| 0 <= i < b.len() && b[i] == a[0];
        let k = choose|k: int| 0 <= k < a.len() && a[k] == b[0];
        if i > 0 {
            assert(b[0].key() < b[i].key());
            assert(a[0].key() <= a[k].key());
        }
        assert(a[0] == b[0]);
        let a1 = a.drop_first();
        let b1 = b.drop_first();
        assert forall|x: T| a1.to_set().contains(x) implies b1.to_set().contains(x) by {
            let m = choose|m: int| 0 <= m < a1.len() && a1[m] == x;
            assert(a.to_set().contains(x));
            let n = choose|n: int| 0 <= n < b.len() && b[n] == x;
            assert(a[0].key() < a[m + 1].key());
            if n == 0 {
                assert(false);
            }
            assert(b1[n - 1] == x);
        }
        assert forall|x: T| b1.to_set().contains(x) implies a1.to_set().contains(x) by {
            let m = choose|m: int| 0 <= m < b1.len() && b1[m] == x;
            assert(b.to_set().contains(x));
            let n = choose|n: int| 0 <= n < a.len() && a[n] == x;
            assert(b[0].key() < b[m + 1].key());
            if n == 0 {
                assert(false);
            }
            assert(a1[n - 1] == x);
        }
        assert(a1.to_set() =~= b1.to_set());
        lemma_strictly_sorted_unique(a1, b1);
        assert(a.len() == b.len());
        assert forall|n: int| 0 <= n < a.len() implies a[n] == b[n] by {
            if n > 0 {
                assert(a[n] == a1[n - 1]);
                assert(b[n] == b1[n - 1]);
            }
        }
        assert(a =~= b);
    }
}

fn merge_sorted<T: SortKey + Copy>(a: Vec<T>, b: Vec<T>) -> (r: Vec<T>)
    requires
        sorted_by_key(a@),
        sorted_by_key(b@),
    ensures
        sorted_by_key(r@),
        r@.to_multiset() == a@.to_multiset().add(b@.to_multiset()),
{
    broadcast use vstd::seq_lib::group_to_multiset_ensures;
    broadcast use vstd::multiset::group_multiset_axioms;

    let mut r: Vec<T> = Vec::new();
    let mut i: usize = 0;
    let mut j: usize = 0;
    assert(a@.take(0) =~= Seq::<T>::empty());
    assert(b@.take(0) =~= Seq::<T>::empty());
    assert(r@.to_multiset() =~= a@.take(0).to_multiset().add(b@.take(0).to_multiset()));
    while i < a.len() || j < b.len()
        invariant
            i <= a.len(),
            j <= b.len(),
            sorted_by_key(a@),
            sorted_by_key(b@),
            sorted_by_key(r@),
            r@.to_multiset() == a@.take(i as int).to_multiset().add(b@.take(j as int).to_multiset()),
            r.len() > 0 && i < a.len() ==> r@.last().key() <= a@[i as int].key(),
            r.len() > 0 && j < b.len() ==> r@.last().key() <= b@[j as int].key(),
        decreases a.len() + b.len() - i - j,
    {
        if j >= b.len() || (i < a.len() && a[i].key_le(&b[j])) {
            let x = a[i];
            let ghost old_r = r@;
            assert(a@.take(i + 1) =~= a@.take(i as int).push(x));
            r.push(x);
            assert(r@ == old_r.push(x));
            proof {
                vstd::seq_lib::to_multiset_build(old_r, x);
                vstd::seq_lib::to_multiset_build(a@.take(i as int), x);
            }
            assert(r@.to_multiset() =~= a@.take(i + 1).to_multiset().add(b@.take(j as int).to_multiset()));
            i = i + 1;
        } else {
            let x = b[j];
            let ghost old_r = r@;
            assert(b@.take(j + 1) =~= b@.take(j as int).push(x));
            r.push(x);
            assert(r@ == old_r.push(x));
            proof {
                vstd::seq_lib::to_multiset_build(old_r, x);
                vstd::seq_lib::to_multiset_build(b@.take(j as int), x);
            }
            assert(r@.to_multiset() =~= a@.take(i as int).to_multiset().add(b@.take(j + 1).to_multiset()));
            j = j + 1;
        }
    }
    assert(a@.take(a.len() as int) =~= a@);
    assert(b@.take(b.len() as int) =~= b@);
    r
}

fn sort_range<T: SortKey + Copy>(v: &Vec<T>, lo: usize, hi: usize) -> (r: Vec<T>)
    requires
        lo <= hi <= v.len(),
    ensures
        sorted_by_key(r@),
        r@.to_multiset() == v@.subrange(lo as int, hi as int).to_multiset(),
    decreases hi - lo,
{
    broadcast use vstd::seq_lib::group_to_multiset_ensures;
    broadcast use vstd::multiset::group_multiset_axioms;

    if hi - lo == 0 {
        let r: Vec<T> = Vec::new();
        assert(v@.subrange(lo as int, hi as int) =~= Seq::<T>::empty());
        assert(r@ =~= Seq::<T>::empty());
        return r;
    }
    if hi - lo == 1 {
        let mut r: Vec<T> = Vec::new();
        r.push(v[lo]);
        assert(v@.subrange(lo as int, hi as int) =~= Seq::<T>::empty().push(v@[lo as int]));
        assert(r@ =~= Seq::<T>::empty().push(v@[lo as int]));
        return r;
    }
    let mid: usize = lo + (hi - lo) / 2;
    let a = sort_range(v, lo, mid);
    let b = sort_range(v, mid, hi);
    proof {
        assert(v@.subrange(lo as int, hi as int) =~= v@.subrange(lo as int, mid as int) + v@.subrange(
            mid as int,
            hi as int,
        ));
        lemma_multiset_commutative(v@.subrange(lo as int, mid as int), v@.subrange(mid as int, hi as int));
    }
    merge_sorted(a, b)
}

/// Sorts by key: the result is a permutation of the input in key order.
pub fn sort_by_key<T: SortKey + Copy>(v: &Vec<T>) -> (r: Vec<T>)
    ensures
        sorted_by_key(r@),
        r@.to_multiset() == v@.to_multiset(),
{
    let r = sort_range(v, 0, v.len());
    assert(v@.subrange(0, v.len() as int) =~= v@);
    r
}

/// Removes repeated elements from a sorted vector.
pub fn dedup_sorted<T: SortKey + Copy>(v: &Vec<T>) -> (r: Vec<T>)
    requires
        sorted_by_key(v@),
    ensures
        strictly_sorted(r@),
        r@.to_set() == v@.to_set(),
{
    let mut r: Vec<T> = Vec::new();
    let mut i: usize = 0;
    while i < v.len()
        invariant
            i <= v.len(),
            sorted_by_key(v@),
            strictly_sorted(r@),
            forall|x: T| r@.contains(x) <==> v@.take(i as int).contains(x),
            r.len() > 0 ==> i > 0 && r@.last() == v@[i - 1],
            r.len() == 0 ==> i == 0,
        decreases v.len() - i,
    {
        let x = v[i];
        let ghost old_r = r@;
        if r.len() == 0 || !x.key_le(&r[r.len() - 1]) {
            r.push(x);
            assert(r@ == old_r.push(x));
            assert forall|y: T| r@.contains(y) <==> (old_r.contains(y) || y == x) by {
                if r@.contains(y) {
                    let k = choose|k: int| 0 <= k < r.len() && r@[k] == y;
                    if k < old_r.len() {
                        assert(old_r[k] == y);
                    }
                }
                if old_r.contains(y) {
                    let k = choose|k: int| 0 <= k < old_r.len() && old_r[k] == y;
                    assert(r@[k] == y);
                }
                if y == x {
                    assert(r@[r.len() - 1] == y);
                }
            }
        } else {
            proof {
                T::lemma_key_injective(x, r@.last());
                assert(v@[i - 1].key() <= x.key());
                assert(r@[r.len() - 1] == x);
            }
        }
        assert(forall|y: T| r@.contains(y) <==> (old_r.contains(y) || y == x));
        assert forall|y: T| r@.contains(y) <==> v@.take(i + 1).contains(y) by {
            assert(old_r.contains(y) <==> v@.take(i as int).contains(y));
            assert(v@.take(i + 1) =~= v@.take(i as int).push(x));
            assert(v@.take(i + 1)[i as int] == x);
            if v@.take(i + 1).contains(y) {
                let t = v@.take(i + 1);
                let k = choose|k: int| 0 <= k < t.len() && t[k] == y;
                if k < i {
                    assert(v@.take(i as int)[k] == y);
                }
            }
            if v@.take(i as int).contains(y) {
                let t = v@.take(i as int);
                let k = choose|k: int| 0 <= k < t.len() && t[k] == y;
                assert(v@.take(i + 1)[k] == y);
            }
        }
        i = i + 1;
    }
    proof {
        assert(v@.take(v.len() as int) =~= v@);
        assert(r@.to_set() =~= v@.to_set());
    }
    r
}

/// Sorts and removes repeated elements: the strictly sorted vector of the
/// input's elements.
pub fn sort_unique<T: SortKey + Copy>(v: &Vec<T>) -> (r: Vec<T>)
    ensures
        strictly_sorted(r@),
        r@.to_set() == v@.to_set(),
{
    broadcast use vstd::seq_lib::group_to_multiset_ensures;

    let s = sort_by_key(v);
    let r = dedup_sorted(&s);
    proof {
        assert forall|x: T| s@.contains(x) <==> v@.contains(x) by {
            assert(s@.to_multiset().count(x) == v@.to_multiset().count(x));
        }
        assert(s@.to_set() =~= v@.to_set());
    }
    r
}

/// Tells whether a strictly sorted vector holds a value (binary search).
pub fn contains_sorted<T: SortKey + Copy>(v: &Vec<T>, x: &T) -> (r: bool)
    requires
        strictly_sorted(v@),
    ensures
        r == v@.contains(*x),
{
    let mut lo: usize = 0;
    let mut hi: usize = v.len();
    while lo < hi
        invariant
            lo <= hi <= v.len(),
            strictly_sorted(v@),
            forall|k: int| 0 <= k < lo ==> #[trigger] v@[k].key() < x.key(),
            forall|k: int| hi <= k < v.len() ==> #[trigger] v@[k].key() > x.key(),
        decreases hi - lo,
    {
        let mid: usize = lo + (hi - lo) / 2;
        let y = v[mid];
        let le1 = y.key_le(x);
        let le2 = x.key_le(&y);
        if le1 && le2 {
            proof {
                T::lemma_key_injective(y, *x);
            }
            assert(v@[mid as int] == *x);
            return true;
        } else if le1 {
            lo = mid + 1;
        } else {
            hi = mid;
        }
    }
    proof {
        if v@.contains(*x) {
            let k = choose|k: int| 0 <= k < v.len() && v@[k] == *x;
            assert(v@[k].key() == x.key());
        }
    }
    false
}

/// A copy of the vector.
pub fn copy_vec<T: Copy>(v: &Vec<T>) -> (r: Vec<T>)
    ensures
        r@ == v@,
{
    let mut r: Vec<T> = Vec::new();
    let mut i: usize = 0;
    while i < v.len()
        invariant
            i <= v.len(),
            r@ == v@.take(i as int),
        decreases v.len() - i,
    {
        r.push(v[i]);
        i = i + 1;
        assert(r@ =~= v@.take(i as int));
    }
    assert(v@.take(v.len() as int) =~= v@);
    r
}

} // verus!
