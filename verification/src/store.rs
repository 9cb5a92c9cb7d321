//! The free boxes as `box_intersect_ze` holds them, and the trusted
//! interface to that crate. Nothing in this file is proved: each contract
//! states what the crate's source shows of the call it wraps.

use vstd::prelude::*;
use box_intersect_ze::boxes::{BBox, BoxND};
use box_intersect_ze::intersect_brute_force;
use box_intersect_ze::set::BBoxSet;
use crate::box_cutting::Rect;

verus! {

/// The largest capacity that [`store_with_capacity`] is asked for.
pub const MAX_RESERVE: usize = 0x10_0000;

/// A `box_intersect_ze::set::BBoxSet` of two-dimensional `i64` boxes with
/// `usize` identifiers. Verus sees nothing inside it; what it holds is
/// named by [`store_entries`].
#[verifier::external_body]
pub struct BoxStore {
    set: BBoxSet<BoxND<i64, 2>, usize>,
}

/// The boxes of the set with their identifiers, in storage order: entry `i`
/// stands for `set.boxes[i]`, its box given by the low and high boundaries
/// on the two axes.
pub uninterp spec fn store_entries(s: BoxStore) -> Seq<(Rect, usize)>;

/// What a brute-force search reports for `probe` against `entries`: for each
/// entry in storage order whose box intersects `probe` on both axes, the
/// pair of the entry's identifier and `probe_id`.
pub open spec fn hits(entries: Seq<(Rect, usize)>, probe: Rect, probe_id: usize) -> Seq<
    (usize, usize),
>
    decreases entries.len(),
{
    if entries.len() == 0 {
        Seq::empty()
    } else {
        let rest = hits(entries.drop_last(), probe, probe_id);
        if entries.last().0.overlaps(probe) {
            rest.push((entries.last().1, probe_id))
        } else {
            rest
        }
    }
}

/// `BBoxSet::with_capacity`: a new set that holds nothing. The capacity is
/// kept small enough for the allocation request to be representable.
#[verifier::external_body]
pub(crate) fn store_with_capacity(capacity: usize) -> (s: BoxStore)
    requires
        capacity <= MAX_RESERVE,
    ensures
        store_entries(s) == Seq::<(Rect, usize)>::empty(),
{
    BoxStore { set: BBoxSet::with_capacity(capacity) }
}

/// `BBoxSet::get`: the entry at `idx`, which must exist. The box comes back
/// as its four boundaries, read with `BBox::lo` and `BBox::hi`.
#[verifier::external_body]
pub(crate) fn store_get(s: &BoxStore, idx: usize) -> (e: (Rect, usize))
    requires
        idx < store_entries(*s).len(),
    ensures
        e == store_entries(*s)[idx as int],
{
    let (b, id) = s.set.get(idx);
    (Rect { lo_x: b.lo(0), lo_y: b.lo(1), hi_x: b.hi(0), hi_y: b.hi(1) }, id)
}

/// `BBoxSet::push`: appends the box, built with `BoxND::new`, and its
/// identifier behind the entries already there.
#[verifier::external_body]
pub(crate) fn store_push(s: &mut BoxStore, id: usize, b: Rect)
    ensures
        store_entries(*final(s)) == store_entries(*old(s)).push((b, id)),
{
    s.set.push(id, BoxND::new([b.lo_x, b.lo_y], [b.hi_x, b.hi_y]));
}

/// Assignment to `set.boxes[idx]`, which must exist: that entry becomes the
/// given box and identifier, and the others stay.
#[verifier::external_body]
pub(crate) fn store_put(s: &mut BoxStore, idx: usize, id: usize, b: Rect)
    requires
        idx < store_entries(*old(s)).len(),
    ensures
        store_entries(*final(s)) == store_entries(*old(s)).update(idx as int, (b, id)),
{
    s.set.boxes[idx] = (BoxND::new([b.lo_x, b.lo_y], [b.hi_x, b.hi_y]), id);
}

/// `BBoxSet::clone`: a set with the same entries.
#[verifier::external_body]
pub(crate) fn store_clone(s: &BoxStore) -> (c: BoxStore)
    ensures
        store_entries(c) == store_entries(*s),
{
    BoxStore { set: s.set.clone() }
}

/// `intersect_brute_force` of the set against a second set that holds
/// `probe` alone, under the identifier `probe_id`. The second set is made
/// here with `BBoxSet::new` and `BBoxSet::push`, so the two are never the
/// same object and the search takes its two-set branch: it walks the entries
/// in storage order and appends to `out`, for each whose box passes
/// `BBox::intersects` with `probe`, the pair of identifiers.
#[verifier::external_body]
pub(crate) fn store_probe(s: &BoxStore, probe: Rect, probe_id: usize, out: &mut Vec<(usize, usize)>)
    ensures
        final(out)@ == old(out)@ + hits(store_entries(*s), probe, probe_id),
{
    let mut other = BBoxSet::new();
    other.push(probe_id, BoxND::new([probe.lo_x, probe.lo_y], [probe.hi_x, probe.hi_y]));
    intersect_brute_force(&s.set, &other, out);
}

} // verus!
