//! Note events, their encoding as points, and a map from points to the notes
//! that produced them.

use vstd::prelude::*;
use crate::geometry::{Point, point_key};
use crate::sort::SortKey;

verus! {

/// A note event: `(tick, layer, instrument, key, velocity, panning, pitch)`.
pub type Note = (u32, u8, u8, u8, u8, i8, i16);

/// The number of low bits of the encoded pitch coordinate that hold the
/// pitch offset; the instrument sits above them.
pub const PITCH_BITS: u32 = 14;

/// What is added to the pitch in cents so that it is not negative.
pub const OFFSET: i16 = 1200;

/// Orders notes lexicographically, field by field.
pub open spec fn note_key(n: Note) -> int {
    ((((((n.0 as int * 256 + n.1 as int) * 256 + n.2 as int) * 256 + n.3 as int) * 256 + n.4 as int) * 256 + (
    n.5 as int + 128)) * 65536) + (n.6 as int + 32768)
}

impl SortKey for (u32, u8, u8, u8, u8, i8, i16) {
    open spec fn key(self) -> int {
        note_key(self)
    }

    fn key_le(&self, other: &Self) -> (r: bool) {
        let a = *self;
        let b = *other;
        if a.0 != b.0 {
            a.0 < b.0
        } else if a.1 != b.1 {
            a.1 < b.1
        } else if a.2 != b.2 {
            a.2 < b.2
        } else if a.3 != b.3 {
            a.3 < b.3
        } else if a.4 != b.4 {
            a.4 < b.4
        } else if a.5 != b.5 {
            a.5 < b.5
        } else {
            a.6 <= b.6
        }
    }

    proof fn lemma_key_injective(a: Self, b: Self) {
    }
}

/// `a` comes before `b` in the order of note tuples: field by field, in
/// declaration order (tick, layer, instrument, key, velocity, panning,
/// pitch), the first field that differs decides.
pub open spec fn note_lt(a: Note, b: Note) -> bool {
    ||| a.0 < b.0
    ||| a.0 == b.0 && a.1 < b.1
    ||| a.0 == b.0 && a.1 == b.1 && a.2 < b.2
    ||| a.0 == b.0 && a.1 == b.1 && a.2 == b.2 && a.3 < b.3
    ||| a.0 == b.0 && a.1 == b.1 && a.2 == b.2 && a.3 == b.3 && a.4 < b.4
    ||| a.0 == b.0 && a.1 == b.1 && a.2 == b.2 && a.3 == b.3 && a.4 == b.4 && a.5 < b.5
    ||| a.0 == b.0 && a.1 == b.1 && a.2 == b.2 && a.3 == b.3 && a.4 == b.4 && a.5 == b.5 && a.6 < b.6
}

/// Comparing two numbers written with a last digit below `base`: the
/// leading parts decide, and the last digits where those are equal.
proof fn lemma_digits(xh: int, xl: int, yh: int, yl: int, base: int)
    requires
        base > 0,
        0 <= xl < base,
        0 <= yl < base,
    ensures
        (xh * base + xl < yh * base + yl) <==> (xh < yh || (xh == yh && xl < yl)),
        (xh * base + xl == yh * base + yl) <==> (xh == yh && xl == yl),
{
    if xh < yh {
        assert(xh * base + base <= yh * base) by (nonlinear_arith)
            requires
                xh < yh,
                base > 0,
        ;
    }
    if yh < xh {
        assert(yh * base + base <= xh * base) by (nonlinear_arith)
            requires
                yh < xh,
                base > 0,
        ;
    }
}

/// Notes are ordered as tuples: the key that sorts notes puts `a` before
/// `b` exactly when `a` comes before `b` field by field, in declaration
/// order, and gives two notes the same key only when they are equal.
pub proof fn lemma_note_order(a: Note, b: Note)
    ensures
        note_key(a) < note_key(b) <==> note_lt(a, b),
        note_key(a) == note_key(b) <==> a == b,
{
    let a1 = a.0 as int;
    let b1 = b.0 as int;
    let a2 = a1 * 256 + a.1 as int;
    let b2 = b1 * 256 + b.1 as int;
    let a3 = a2 * 256 + a.2 as int;
    let b3 = b2 * 256 + b.2 as int;
    let a4 = a3 * 256 + a.3 as int;
    let b4 = b3 * 256 + b.3 as int;
    let a5 = a4 * 256 + a.4 as int;
    let b5 = b4 * 256 + b.4 as int;
    let a6 = a5 * 256 + (a.5 as int + 128);
    let b6 = b5 * 256 + (b.5 as int + 128);
    lemma_digits(a1, a.1 as int, b1, b.1 as int, 256);
    lemma_digits(a2, a.2 as int, b2, b.2 as int, 256);
    lemma_digits(a3, a.3 as int, b3, b.3 as int, 256);
    lemma_digits(a4, a.4 as int, b4, b.4 as int, 256);
    lemma_digits(a5, a.5 as int + 128, b5, b.5 as int + 128, 256);
    lemma_digits(a6, a.6 as int + 32768, b6, b.6 as int + 32768, 65536);
    assert(note_key(a) == a6 * 65536 + (a.6 as int + 32768));
    assert(note_key(b) == b6 * 65536 + (b.6 as int + 32768));
}

/// The first coordinate of the point of a note is the note's tick.
pub proof fn lemma_note_point_tick(n: Note)
    ensures
        note_point(n).0 == n.0,
{
}

/// The pitch of a note in cents, shifted by `OFFSET`.
pub open spec fn pitch_offset(n: Note) -> int {
    n.3 as int * 100 + n.6 as int + OFFSET as int
}

/// The note can be encoded without overflow of the `i16` pitch arithmetic.
pub open spec fn encodable(n: Note) -> bool {
    n.3 as int * 100 + n.6 as int + OFFSET as int <= i16::MAX
}

/// The point of a note: its tick, and its instrument shifted by
/// `PITCH_BITS` bits, combined by bitwise or with its pitch offset.
pub open spec fn note_point(n: Note) -> Point {
    (n.0, ((n.2 as u32) << 14u32) | (pitch_offset(n) as i16 as u32))
}

/// The point of a note.
pub fn encode_note(n: Note) -> (p: Point)
    requires
        encodable(n),
    ensures
        p == note_point(n),
        p.0 == n.0,
{
    let (tick, _layer, instrument, key, _velocity, _panning, pitch) = n;
    let pitch_cents: i16 = (key as i16) * 100 + pitch;
    let pitch_off: i16 = pitch_cents + OFFSET;
    let encoded_y: u32 = ((instrument as u32) << PITCH_BITS) | (pitch_off as u32);
    (tick, encoded_y)
}

/// Where the pitch offset of a note fits in `PITCH_BITS` bits, the pitch
/// coordinate of its point is `instrument * 2^PITCH_BITS + offset`, from
/// which both can be read back.
pub proof fn lemma_encoding_unpacks(n: Note)
    requires
        encodable(n),
        0 <= pitch_offset(n) < 16384,
    ensures
        note_point(n).0 == n.0,
        note_point(n).1 == n.2 as int * 16384 + (n.3 as int * 100 + n.6 as int + 1200),
        note_point(n).1 == n.2 as int * 16384 + pitch_offset(n),
        note_point(n).1 / 16384 == n.2,
        note_point(n).1 % 16384 == pitch_offset(n),
{
    let i: u32 = n.2 as u32;
    let o: u32 = pitch_offset(n) as i16 as u32;
    assert(o == pitch_offset(n));
    assert(((i << 14u32) | o) == i * 16384 + o) by (bit_vector)
        requires
            i < 256,
            o < 16384,
    ;
}

/// Notes whose pitch offsets fit in `PITCH_BITS` bits have the same point
/// only if they have the same tick, instrument and pitch in cents.
pub proof fn lemma_encoding_injective(a: Note, b: Note)
    requires
        encodable(a),
        encodable(b),
        0 <= pitch_offset(a) < 16384,
        0 <= pitch_offset(b) < 16384,
        note_point(a) == note_point(b),
    ensures
        a.0 == b.0,
        a.2 == b.2,
        pitch_offset(a) == pitch_offset(b),
{
    lemma_encoding_unpacks(a);
    lemma_encoding_unpacks(b);
}

/// A map from points to the notes that produced them, kept sorted by point.
#[derive(Debug, Clone)]
pub struct NoteMap {
    entries: Vec<(Point, Vec<Note>)>,
}

impl NoteMap {
    /// The points of the entries increase strictly.
    pub closed spec fn wf(&self) -> bool {
        forall|i: int, j: int|
            0 <= i < j < self.entries@.len() ==> point_key(#[trigger] self.entries@[i].0) < point_key(
                #[trigger] self.entries@[j].0,
            )
    }

    /// The map from each point to its notes, in the order they were added.
    pub closed spec fn view(&self) -> Map<Point, Seq<Note>> {
        Map::new(
            |p: Point| exists|i: int| 0 <= i < self.entries@.len() && self.entries@[i].0 == p,
            |p: Point|
                self.entries@[choose|i: int| 0 <= i < self.entries@.len() && self.entries@[i].0 == p].1@,
        )
    }

    proof fn lemma_lookup(&self, k: int)
        requires
            self.wf(),
            0 <= k < self.entries@.len(),
        ensures
            self.view().dom().contains(self.entries@[k].0),
            self.view()[self.entries@[k].0] == self.entries@[k].1@,
    {
        let p = self.entries@[k].0;
        assert(self.view().dom().contains(p));
        let i = choose|i: int| 0 <= i < self.entries@.len() && self.entries@[i].0 == p;
        if i < k {
            assert(point_key(self.entries@[i].0) < point_key(self.entries@[k].0));
        }
        if k < i {
            assert(point_key(self.entries@[k].0) < point_key(self.entries@[i].0));
        }
    }

    /// An empty map.
    pub fn new() -> (m: Self)
        ensures
            m.wf(),
            m.view() == Map::<Point, Seq<Note>>::empty(),
    {
        let m = NoteMap { entries: Vec::new() };
        assert(m.view() =~= Map::<Point, Seq<Note>>::empty());
        m
    }

    /// The number of distinct points.
    pub fn len(&self) -> (n: usize)
        requires
            self.wf(),
        ensures
            n == self.view().dom().len(),
    {
        proof {
            let keys = self.entries@.map_values(|e: (Point, Vec<Note>)| e.0);
            assert forall|i: int, j: int| 0 <= i < keys.len() && 0 <= j < keys.len() && i != j implies keys[i]
                != keys[j] by {
                if i < j {
                    assert(point_key(self.entries@[i].0) < point_key(self.entries@[j].0));
                } else {
                    assert(point_key(self.entries@[j].0) < point_key(self.entries@[i].0));
                }
            }
            keys.unique_seq_to_set();
            assert(keys.to_set() =~= self.view().dom()) by {
                assert forall|p: Point| self.view().dom().contains(p) implies keys.to_set().contains(p) by {
                    let i = choose|i: int| 0 <= i < self.entries@.len() && self.entries@[i].0 == p;
                    assert(keys[i] == p);
                }
            }
        }
        self.entries.len()
    }

    /// The position of the first entry whose point is not below `p`.
    fn position(&self, p: &Point) -> (i: usize)
        requires
            self.wf(),
        ensures
            i <= self.entries@.len(),
            forall|k: int| 0 <= k < i ==> point_key(#[trigger] self.entries@[k].0) < point_key(*p),
            forall|k: int| i <= k < self.entries@.len() ==> point_key(*p) <= point_key(#[trigger] self.entries@[k].0),
    {
        let mut lo: usize = 0;
        let mut hi: usize = self.entries.len();
        while lo < hi
            invariant
                self.wf(),
                lo <= hi <= self.entries@.len(),
                forall|k: int| 0 <= k < lo ==> point_key(#[trigger] self.entries@[k].0) < point_key(*p),
                forall|k: int| hi <= k < self.entries@.len() ==> point_key(*p) <= point_key(#[trigger] self.entries@[k].0),
            decreases hi - lo,
        {
            let mid: usize = lo + (hi - lo) / 2;
            let q = self.entries[mid].0;
            if q.key_le(p) && !p.key_le(&q) {
                lo = mid + 1;
            } else {
                hi = mid;
            }
        }
        lo
    }

    /// The notes recorded for a point, if any.
    pub fn get(&self, p: &Point) -> (r: Option<&Vec<Note>>)
        requires
            self.wf(),
        ensures
            r is Some <==> self.view().dom().contains(*p),
            r matches Some(v) ==> v@ == self.view()[*p],
    {
        let i = self.position(p);
        if i < self.entries.len() && self.entries[i].0.0 == p.0 && self.entries[i].0.1 == p.1 {
            proof {
                self.lemma_lookup(i as int);
            }
            Some(&self.entries[i].1)
        } else {
            proof {
                if self.view().dom().contains(*p) {
                    let k = choose|k: int| 0 <= k < self.entries@.len() && self.entries@[k].0 == *p;
                    assert(point_key(self.entries@[k].0) == point_key(*p));
                }
            }
            None
        }
    }

    /// Records one more note for a point, after those recorded before.
    pub fn add(&mut self, p: Point, note: Note)
        requires
            old(self).wf(),
        ensures
            final(self).wf(),
            final(self).view() == old(self).view().insert(
                p,
                if old(self).view().dom().contains(p) {
                    old(self).view()[p].push(note)
                } else {
                    seq![note]
                },
            ),
    {
        let ghost old_self: NoteMap = *self;
        let ghost old_map = self.view();
        let ghost old_entries = self.entries@;
        let i = self.position(&p);
        if i < self.entries.len() && self.entries[i].0.0 == p.0 && self.entries[i].0.1 == p.1 {
            proof {
                self.lemma_lookup(i as int);
            }
            self.entries[i].1.push(note);
            proof {
                assert(self.entries@ =~= old_entries.update(i as int, (p, self.entries@[i as int].1)));
                assert(self.wf());
                assert forall|q: Point| #[trigger] self.view().dom().contains(q) <==> old_map.insert(
                    p,
                    old_map[p].push(note),
                ).dom().contains(q) by {
                    if old_map.dom().contains(q) {
                        let k = choose|k: int| 0 <= k < old_entries.len() && old_entries[k].0 == q;
                        assert(self.entries@[k].0 == q);
                    }
                    if self.view().dom().contains(q) {
                        let k = choose|k: int| 0 <= k < self.entries@.len() && self.entries@[k].0 == q;
                        assert(old_entries[k].0 == q);
                    }
                }
                assert forall|q: Point| #[trigger] self.view().dom().contains(q) implies self.view()[q]
                    == old_map.insert(p, old_map[p].push(note))[q] by {
                    let k = choose|k: int| 0 <= k < self.entries@.len() && self.entries@[k].0 == q;
                    self.lemma_lookup(k);
                    if k != i {
                        assert(old_entries[k] == self.entries@[k]);
                        old_self.lemma_lookup(k);
                    }
                }
                assert(self.view() =~= old_map.insert(p, old_map[p].push(note)));
            }
        } else {
            let mut v: Vec<Note> = Vec::new();
            v.push(note);
            self.entries.insert(i, (p, v));
            proof {
                assert(self.entries@ == old_entries.insert(i as int, (p, v)));
                assert(forall|k: int| 0 <= k < i ==> self.entries@[k] == old_entries[k]);
                assert(forall|k: int| i < k < self.entries@.len() ==> self.entries@[k] == old_entries[k - 1]);
                if i < old_entries.len() {
                    assert(old_entries[i as int].0 != p);
                    assert(point_key(p) < point_key(old_entries[i as int].0));
                }
                assert(self.wf());
                assert(!old_map.dom().contains(p)) by {
                    if old_map.dom().contains(p) {
                        let k = choose|k: int| 0 <= k < old_entries.len() && old_entries[k].0 == p;
                        assert(point_key(old_entries[k].0) == point_key(p));
                    }
                }
                assert forall|q: Point| #[trigger] self.view().dom().contains(q) <==> old_map.insert(
                    p,
                    seq![note],
                ).dom().contains(q) by {
                    if old_map.dom().contains(q) {
                        let k = choose|k: int| 0 <= k < old_entries.len() && old_entries[k].0 == q;
                        if k < i {
                            assert(self.entries@[k].0 == q);
                        } else {
                            assert(self.entries@[k + 1].0 == q);
                        }
                    }
                    if q == p {
                        assert(self.entries@[i as int].0 == q);
                    }
                    if self.view().dom().contains(q) && q != p {
                        let k = choose|k: int| 0 <= k < self.entries@.len() && self.entries@[k].0 == q;
                        if k < i {
                            assert(old_entries[k].0 == q);
                        } else {
                            assert(k != i);
                            assert(old_entries[k - 1].0 == q);
                        }
                    }
                }
                assert forall|q: Point| #[trigger] self.view().dom().contains(q) implies self.view()[q]
                    == old_map.insert(p, seq![note])[q] by {
                    let k = choose|k: int| 0 <= k < self.entries@.len() && self.entries@[k].0 == q;
                    self.lemma_lookup(k);
                    if k < i {
                        old_self.lemma_lookup(k);
                    } else if k > i {
                        old_self.lemma_lookup(k - 1);
                    } else {
                        assert(v@ =~= seq![note]);
                    }
                }
                assert(self.view() =~= old_map.insert(p, seq![note]));
            }
        }
    }
}

} // verus!
