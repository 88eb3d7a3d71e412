//! Points, translation vectors and the set-theoretic vocabulary of the
//! algorithms: translating a point, maximal translatable patterns.

use vstd::prelude::*;
use crate::sort::SortKey;

verus! {

/// A point `(tick, pitch)` of a dataset.
pub type Point = (u32, u32);

/// A translation vector `(dtick, dpitch)`.
pub type Vector = (i32, i32);

/// Orders points lexicographically: by tick, then by pitch.
pub open spec fn point_key(p: Point) -> int {
    p.0 as int * 0x1_0000_0000 + p.1 as int
}

/// Orders vectors lexicographically.
pub open spec fn vector_key(v: Vector) -> int {
    (v.0 as int + 0x8000_0000) * 0x1_0000_0000 + (v.1 as int + 0x8000_0000)
}

/// Orders `(vector, point)` pairs lexicographically.
pub open spec fn pair_key(x: (Vector, Point)) -> int {
    vector_key(x.0) * 0x1_0000_0000_0000_0000 + point_key(x.1)
}

impl SortKey for (u32, u32) {
    open spec fn key(self) -> int {
        point_key(self)
    }

    fn key_le(&self, other: &Self) -> (r: bool) {
        self.0 < other.0 || (self.0 == other.0 && self.1 <= other.1)
    }

    proof fn lemma_key_injective(a: Self, b: Self) {
    }
}

impl SortKey for (i32, i32) {
    open spec fn key(self) -> int {
        vector_key(self)
    }

    fn key_le(&self, other: &Self) -> (r: bool) {
        self.0 < other.0 || (self.0 == other.0 && self.1 <= other.1)
    }

    proof fn lemma_key_injective(a: Self, b: Self) {
    }
}

impl SortKey for ((i32, i32), (u32, u32)) {
    open spec fn key(self) -> int {
        pair_key(self)
    }

    fn key_le(&self, other: &Self) -> (r: bool) {
        let (v, p) = *self;
        let (w, q) = *other;
        if v.0 != w.0 {
            v.0 < w.0
        } else if v.1 != w.1 {
            v.1 < w.1
        } else {
            p.0 < q.0 || (p.0 == q.0 && p.1 <= q.1)
        }
    }

    proof fn lemma_key_injective(a: Self, b: Self) {
    }
}

/// Pairs ordered by key are ordered by their vectors.
pub proof fn lemma_pair_key_vector(x: (Vector, Point), y: (Vector, Point))
    ensures
        pair_key(x) <= pair_key(y) ==> vector_key(x.0) <= vector_key(y.0),
        vector_key(x.0) == vector_key(y.0) ==> x.0 == y.0,
        x.0 == y.0 ==> (pair_key(x) < pair_key(y) <==> point_key(x.1) < point_key(y.1)),
{
}

/// Every coordinate of the sequence's points fits in an `i32`.
pub open spec fn within_i32(s: Seq<Point>) -> bool {
    forall|i: int| 0 <= i < s.len() ==> #[trigger] s[i].0 <= i32::MAX && s[i].1 <= i32::MAX
}

/// `p + v` has both coordinates in the range of `u32`.
pub open spec fn fits(p: Point, v: Vector) -> bool {
    0 <= p.0 + v.0 <= u32::MAX && 0 <= p.1 + v.1 <= u32::MAX
}

/// The point `p + v` (meaningful where `fits(p, v)`).
pub open spec fn shifted(p: Point, v: Vector) -> Point {
    ((p.0 + v.0) as u32, (p.1 + v.1) as u32)
}

/// `p + v` is a point of `d`.
pub open spec fn lands_in(p: Point, v: Vector, d: Set<Point>) -> bool {
    fits(p, v) && d.contains(shifted(p, v))
}

/// The vector from `p` to `q`.
pub open spec fn diff(q: Point, p: Point) -> Vector {
    ((q.0 - p.0) as i32, (q.1 - p.1) as i32)
}

/// A vector that SIA considers: not zero and, where only temporal
/// translations are allowed, with no pitch component.
pub open spec fn admissible(v: Vector, restrict_dpitch_zero: bool) -> bool {
    !(v.0 == 0 && v.1 == 0) && (restrict_dpitch_zero ==> v.1 == 0)
}

/// Which vectors SIA considers: without the restriction, every vector but
/// zero, whatever its pitch component; with it, exactly the vectors with a
/// non-zero tick component and no pitch component.
pub proof fn lemma_admissible_vectors(v: Vector)
    ensures
        admissible(v, false) <==> (v.0 != 0 || v.1 != 0),
        admissible(v, true) <==> (v.0 != 0 && v.1 == 0),
{
}

/// The maximal translatable pattern of `d` for `v`: the points of `d` that
/// `v` maps into `d`.
pub open spec fn mtp(d: Set<Point>, v: Vector) -> Set<Point> {
    d.filter(|p: Point| lands_in(p, v, d))
}

/// The set holds two different points.
pub open spec fn has_two(s: Set<Point>) -> bool {
    exists|p: Point, q: Point| s.contains(p) && s.contains(q) && p != q
}

/// The vector from `p` to `q`, for coordinates that fit in `i32`.
pub fn vector_between(q: Point, p: Point) -> (v: Vector)
    requires
        q.0 <= i32::MAX,
        q.1 <= i32::MAX,
        p.0 <= i32::MAX,
        p.1 <= i32::MAX,
    ensures
        v == diff(q, p),
        v.0 == q.0 - p.0,
        v.1 == q.1 - p.1,
{
    ((q.0 as i32) - (p.0 as i32), (q.1 as i32) - (p.1 as i32))
}

/// `p + v`, or `None` where it leaves the range of `u32`.
pub fn translate(p: Point, v: Vector) -> (r: Option<Point>)
    ensures
        r is Some <==> fits(p, v),
        r matches Some(q) ==> q == shifted(p, v) && q.0 == p.0 + v.0 && q.1 == p.1 + v.1,
{
    let x: i64 = p.0 as i64 + v.0 as i64;
    let y: i64 = p.1 as i64 + v.1 as i64;
    if 0 <= x && x <= 0xffff_ffff && 0 <= y && y <= 0xffff_ffff {
        Some((x as u32, y as u32))
    } else {
        None
    }
}

} // verus!
