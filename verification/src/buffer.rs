//! The occlusion buffer: the free space inside an overall bound, and the
//! two-step protocol by which a box is first checked against it and then
//! cut out of it.

use vstd::prelude::*;
use crate::box_cutting::{BoxExtensions, Rect, BOX};
use crate::cut_space::{cut_result, lemma_cut_excludes, lemma_cut_stays_inside};
use crate::error::OcclusionError;
use crate::partition::{
    lemma_touches_iff_hits, live_entries, slot_hits, FreeSpace, FreeSpaceView,
};

verus! {

/// What a check says of a candidate box.
#[derive(Clone, Copy, Debug, PartialEq, Eq, Structural)]
pub enum OcclusionStatus {
    /// No free box overlaps the candidate: it is hidden entirely.
    Occluded,
    /// Some free box overlaps the candidate: part of it is visible.
    PartiallyVisible,
}

/// The buffer as its callers see it: the overall bound, the free space, and
/// the candidate that was checked and waits to be added, if any.
pub struct BufferView {
    pub bound: Rect,
    pub free: FreeSpaceView,
    pub pending: Option<Rect>,
}

/// The candidate is a well-formed box whose corners all lie strictly inside
/// `bound`.
pub open spec fn in_bounds(bound: Rect, new: Rect) -> bool {
    bound.encloses(new) && new.wf()
}

impl BufferView {
    /// The free space is a well-formed partition inside the bound, and a
    /// pending candidate is a box in bounds that some free box overlaps.
    pub open spec fn wf(self) -> bool {
        &&& self.free.wf()
        &&& self.free.inside(self.bound)
        &&& self.pending matches Some(n) ==> in_bounds(self.bound, n) && self.free.touches(n)
    }
}

/// What [`OcclusionBuffer::check_a_box`] does and returns. The free space
/// never changes. A candidate out of bounds is refused and leaves the
/// pending candidate as it was; an accepted one replaces it if some free box
/// overlaps it, and clears it otherwise.
pub open spec fn checked(
    pre: BufferView,
    new: Rect,
    post: BufferView,
    r: Result<OcclusionStatus, OcclusionError>,
) -> bool {
    &&& post.bound == pre.bound
    &&& post.free == pre.free
    &&& match r {
        Err(e) => e == OcclusionError::OutOfBounds && !in_bounds(pre.bound, new) && post.pending
            == pre.pending,
        Ok(OcclusionStatus::Occluded) => in_bounds(pre.bound, new) && !pre.free.touches(new)
            && post.pending is None,
        Ok(OcclusionStatus::PartiallyVisible) => in_bounds(pre.bound, new) && pre.free.touches(new)
            && post.pending == Some(new),
    }
}

/// What [`OcclusionBuffer::add_last_box`] does and returns. Without a
/// pending candidate it fails and changes nothing. With one, the candidate
/// is cut out of the free space and no longer pending; if the cut is
/// refused, nothing changes.
pub open spec fn committed(
    pre: BufferView,
    post: BufferView,
    r: Result<(), OcclusionError>,
) -> bool {
    &&& post.bound == pre.bound
    &&& match pre.pending {
        None => r == Err::<(), _>(OcclusionError::NothingPending) && post == pre,
        Some(n) => {
            &&& cut_result(pre.free, n, post.free, r)
            &&& r is Ok ==> post.pending is None
            &&& r is Err ==> post == pre
        },
    }
}

/// The boxes are fit to be the free space inside `bound`: each has positive
/// area and lies inside the bound, and no two overlap.
pub open spec fn tiles(boxes: Seq<Rect>, bound: Rect) -> bool {
    &&& forall|i: int|
        0 <= i < boxes.len() ==> (#[trigger] boxes[i]).solid() && boxes[i].within(bound)
    &&& forall|i: int, j: int|
        0 <= i < j < boxes.len() ==> !(#[trigger] boxes[i]).overlaps(#[trigger] boxes[j])
}

/// `v` without its pending candidate.
pub open spec fn idle(v: BufferView) -> BufferView {
    BufferView { bound: v.bound, free: v.free, pending: None }
}

/// One step of a batch on an idle buffer: the box `b` is checked and, if
/// some free box overlaps it, cut out. The buffer is idle again afterwards,
/// whether the step succeeds or fails, and a failed step changes nothing.
pub open spec fn stepped(
    pre: BufferView,
    b: Rect,
    post: BufferView,
    r: Result<(), OcclusionError>,
) -> bool {
    &&& post.bound == pre.bound
    &&& post.pending is None
    &&& if !in_bounds(pre.bound, b) {
        r == Err::<(), _>(OcclusionError::OutOfBounds) && post.free == pre.free
    } else if !pre.free.touches(b) {
        r is Ok && post.free == pre.free
    } else {
        cut_result(pre.free, b, post.free, r)
    }
}

/// `states` records a batch that went through: it starts with `pre` made
/// idle, and each box of `bs` in turn leads from one state to the next by a
/// successful step.
pub open spec fn traced(pre: BufferView, bs: Seq<Rect>, states: Seq<BufferView>) -> bool {
    &&& states.len() == bs.len() + 1
    &&& states[0] == idle(pre)
    &&& forall|k: int|
        0 <= k < bs.len() ==> stepped(#[trigger] states[k], bs[k], states[k + 1], Ok(()))
}

/// Starting from `pre`, the boxes of `bs` were checked and added one after
/// the other, each step succeeded, and `post` is the outcome.
pub open spec fn ran(pre: BufferView, bs: Seq<Rect>, post: BufferView) -> bool {
    exists|states: Seq<BufferView>| #[trigger] traced(pre, bs, states) && states.last() == post
}

/// Box number `k` of `bs` was refused with `e` after the boxes before it
/// were added, and `post` is the state that those left.
pub open spec fn stopped(
    pre: BufferView,
    bs: Seq<Rect>,
    k: int,
    e: OcclusionError,
    post: BufferView,
) -> bool {
    &&& 0 <= k < bs.len()
    &&& ran(pre, bs.take(k), post)
    &&& stepped(post, bs[k], post, Err(e))
}

/// Keeps track of the part of the plane inside a bound that no box added so
/// far covers.
pub struct OcclusionBuffer {
    free_space: FreeSpace,
    overall_bound_box: Rect,
    new_box: Option<Rect>,
    occlusion_status: Vec<(usize, usize)>,
}

impl View for OcclusionBuffer {
    type V = BufferView;

    closed spec fn view(&self) -> BufferView {
        BufferView { bound: self.overall_bound_box, free: self.free_space@, pending: self.new_box }
    }
}

impl OcclusionBuffer {
    /// The representation is consistent.
    pub closed spec fn inv(&self) -> bool {
        &&& self.free_space.inv()
        &&& self.free_space@.inside(self.overall_bound_box)
        &&& match self.new_box {
            Some(n) => in_bounds(self.overall_bound_box, n) && self.occlusion_status@
                == slot_hits(self.free_space@.slots, n) && self.occlusion_status@.len() > 0,
            None => self.occlusion_status@.len() == 0,
        }
    }

    /// A consistent buffer stands for a well-formed view.
    pub proof fn lemma_inv_wf(&self)
        requires
            self.inv(),
        ensures
            self@.wf(),
    {
        self.free_space.lemma_inv_wf();
        match self.new_box {
            Some(n) => {
                lemma_touches_iff_hits(self.free_space@, n);
            },
            None => {},
        }
    }

    /// A buffer whose free space is the whole of `freespace`, stored under
    /// identifier 0. A bound without area leaves the free space empty.
    pub fn new(freespace: BOX) -> (r: OcclusionBuffer)
        ensures
            r.inv(),
            r@.bound == freespace,
            r@.pending is None,
            r@.free.dead.len() == 0,
            freespace.solid() ==> r@.free.slots == seq![Some((freespace, 0usize))]
                && r@.free.next_id == 1,
            !freespace.solid() ==> r@.free.slots.len() == 0 && r@.free.next_id == 0,
    {
        let mut free_space = FreeSpace::new();
        if freespace.is_valid() {
            proof {
                assert(!free_space@.touches(freespace));
            }
            let _ = free_space.insert(freespace);
            proof {
                if freespace.solid() {
                    assert(free_space@.slots =~= seq![Some((freespace, 0usize))]);
                }
            }
        }
        OcclusionBuffer {
            free_space,
            overall_bound_box: freespace,
            new_box: None,
            occlusion_status: Vec::with_capacity(128),
        }
    }

    /// A buffer over `bound` whose free space is made of the boxes of
    /// `free`, stored in their order under the identifiers `first_id`,
    /// `first_id + 1`, and so on. There is no such buffer if one of the boxes
    /// has no area, sticks out of the bound or overlaps another, or if the
    /// identifiers run out.
    pub fn with_free_space(bound: BOX, free: &Vec<BOX>, first_id: usize) -> (r: Option<
        OcclusionBuffer,
    >)
        ensures
            r is Some <==> tiles(free@, bound) && first_id + free@.len() <= usize::MAX,
            r matches Some(b) ==> {
                &&& b.inv()
                &&& b@.bound == bound
                &&& b@.pending is None
                &&& b@.free.next_id == first_id + free@.len()
                &&& b@.free.dead.len() == 0
                &&& b@.free.slots == free@.map(|i: int, f: Rect| Some((f, (first_id + i) as usize)))
            },
    {
        if free.len() > usize::MAX - first_id {
            return None;
        }
        let mut free_space = FreeSpace::starting_at(first_id);
        let mut found: Vec<(usize, usize)> = Vec::new();
        let mut i: usize = 0;
        while i < free.len()
            invariant
                free_space.inv(),
                i <= free.len(),
                first_id + free@.len() <= usize::MAX,
                found@.len() == 0,
                tiles(free@.take(i as int), bound),
                free_space@.dead.len() == 0,
                free_space@.next_id == first_id + i,
                free_space@.slots == free@.take(i as int).map(
                    |k: int, f: Rect| Some((f, (first_id + k) as usize)),
                ),
            decreases free.len() - i,
        {
            let b: Rect = free[i];
            let ghost pre = free_space@;
            if !b.is_valid() || b.is_empty() || !b.is_within(&bound) {
                return None;
            }
            free_space.probe(&b, &mut found);
            proof {
                lemma_touches_iff_hits(pre, b);
            }
            if !found.is_empty() {
                proof {
                    let j = choose|j: int| #[trigger] pre.live(j) && pre.rect(j).overlaps(b);
                    assert(free@.take(i as int)[j] == free@[j]);
                    assert(free@[j].overlaps(free@[i as int]));
                }
                return None;
            }
            let _ = free_space.insert(b);
            proof {
                let e = (b, (first_id + i) as usize);
                let next = free@.take(i + 1);
                assert(next.map(|k: int, f: Rect| Some((f, (first_id + k) as usize)))
                    =~= pre.slots.push(Some(e)));
                assert forall|a: int, c: int| 0 <= a < c < next.len() implies !(
                #[trigger] next[a]).overlaps(#[trigger] next[c]) by {
                    if c == i {
                        assert(pre.live(a));
                        assert(pre.rect(a) == next[a]);
                    } else {
                        assert(free@.take(i as int)[a] == next[a]);
                        assert(free@.take(i as int)[c] == next[c]);
                    }
                }
                assert forall|a: int| 0 <= a < next.len() implies (#[trigger] next[a]).solid()
                    && next[a].within(bound) by {
                    if a < i {
                        assert(free@.take(i as int)[a] == next[a]);
                    }
                }
            }
            i = i + 1;
        }
        proof {
            assert(free@.take(free.len() as int) =~= free@);
            assert forall|j: int| #[trigger] free_space@.live(j) implies free_space@.rect(j).within(
                bound,
            ) by {
                assert(free_space@.rect(j) == free@[j]);
            }
        }
        Some(
            OcclusionBuffer {
                free_space,
                overall_bound_box: bound,
                new_box: None,
                occlusion_status: found,
            },
        )
    }

    /// The overall bound.
    pub fn bound(&self) -> (r: BOX)
        ensures
            r == self@.bound,
    {
        self.overall_bound_box
    }

    /// The candidate that waits to be added, if any.
    pub fn pending(&self) -> (r: Option<BOX>)
        ensures
            r == self@.pending,
    {
        self.new_box
    }

    /// The free space, for reading.
    pub fn free_space(&self) -> (r: &FreeSpace)
        requires
            self.inv(),
        ensures
            r.inv(),
            r@ == self@.free,
    {
        &self.free_space
    }

    /// The free boxes with their identifiers, in slot order.
    pub fn free_boxes(&self) -> (r: Vec<(BOX, usize)>)
        requires
            self.inv(),
        ensures
            r@ == live_entries(self@.free.slots),
    {
        self.free_space.live_boxes()
    }

    /// What the search reported for the pending candidate: one pair for each
    /// free box that overlaps it. Empty if nothing is pending.
    pub fn intersected(&self) -> (r: &Vec<(usize, usize)>)
        requires
            self.inv(),
        ensures
            self@.pending matches Some(n) ==> r@ == slot_hits(self@.free.slots, n),
            self@.pending is None ==> r@.len() == 0,
    {
        &self.occlusion_status
    }

    /// Checks whether the box `new` overlaps the free space, and keeps it as
    /// the pending candidate if it does. A box that is not well-formed or
    /// does not lie strictly inside the overall bound is refused.
    pub fn check_a_box(&mut self, new: BOX) -> (r: Result<OcclusionStatus, OcclusionError>)
        requires
            old(self).inv(),
        ensures
            final(self).inv(),
            checked(old(self)@, new, final(self)@, r),
    {
        if !(self.overall_bound_box.contains(new) && new.is_valid()) {
            return Err(OcclusionError::OutOfBounds);
        }
        self.new_box = None;
        self.occlusion_status.clear();
        self.free_space.probe(&new, &mut self.occlusion_status);
        proof {
            lemma_touches_iff_hits(self.free_space@, new);
            assert(self.occlusion_status@ =~= slot_hits(self.free_space@.slots, new));
        }
        if self.occlusion_status.is_empty() {
            Ok(OcclusionStatus::Occluded)
        } else {
            self.new_box = Some(new);
            Ok(OcclusionStatus::PartiallyVisible)
        }
    }

    /// Adds the box that was last passed to [`Self::check_a_box`] and found
    /// partially visible: cuts it out of the free space. Fails, and changes
    /// nothing, if no such box is waiting or if the cut is refused.
    pub fn add_last_box(&mut self) -> (r: Result<(), OcclusionError>)
        requires
            old(self).inv(),
        ensures
            final(self).inv(),
            committed(old(self)@, final(self)@, r),
            r is Ok ==> !final(self)@.free.touches(old(self)@.pending.unwrap()),
    {
        let new: Rect = match self.new_box {
            Some(n) => n,
            None => {
                return Err(OcclusionError::NothingPending);
            },
        };
        let ghost pre = self@;
        proof {
            self.lemma_inv_wf();
        }
        match self.free_space.cut_found(&self.occlusion_status, &new) {
            Ok(()) => {
                self.new_box = None;
                self.occlusion_status.clear();
                proof {
                    lemma_cut_excludes(pre.free, new, self.free_space@);
                    lemma_cut_stays_inside(pre.free, new, self.free_space@, pre.bound);
                }
                Ok(())
            },
            Err(e) => Err(e),
        }
    }
}

impl OcclusionBuffer {
    /// Adds several boxes, cutting space for each one: every box is checked
    /// in turn and, if it is partially visible, added at once. Stops at the
    /// first box that is refused and reports its position and the reason.
    /// Nothing is pending afterwards.
    pub fn add_box_set(&mut self, boxes: Vec<BOX>) -> (r: Result<(), (usize, OcclusionError)>)
        requires
            old(self).inv(),
        ensures
            final(self).inv(),
            r is Ok ==> ran(old(self)@, boxes@, final(self)@),
            r matches Err((k, e)) ==> stopped(old(self)@, boxes@, k as int, e, final(self)@),
    {
        self.new_box = None;
        self.occlusion_status.clear();
        let ghost mut states: Seq<BufferView> = seq![self@];
        let mut i: usize = 0;
        while i < boxes.len()
            invariant
                self.inv(),
                i <= boxes.len(),
                self@.pending is None,
                self@.bound == old(self)@.bound,
                traced(old(self)@, boxes@.take(i as int), states),
                states.last() == self@,
            decreases boxes.len() - i,
        {
            let b: Rect = boxes[i];
            let ghost mid = self@;
            let ghost front = boxes@.take(i as int);
            match self.check_a_box(b) {
                Err(e) => {
                    proof {
                        assert(self@ == mid);
                        assert(traced(old(self)@, front, states) && states.last() == mid);
                    }
                    return Err((i, e));
                },
                Ok(OcclusionStatus::Occluded) => {
                    assert(stepped(mid, b, self@, Ok(())));
                },
                Ok(OcclusionStatus::PartiallyVisible) => {
                    match self.add_last_box() {
                        Ok(()) => {
                            assert(stepped(mid, b, self@, Ok(())));
                        },
                        Err(e) => {
                            self.new_box = None;
                            self.occlusion_status.clear();
                            proof {
                                assert(self@ == mid);
                                assert(traced(old(self)@, front, states) && states.last() == mid);
                            }
                            return Err((i, e));
                        },
                    }
                },
            }
            proof {
                let next = boxes@.take(i + 1);
                let longer = states.push(self@);
                assert forall|k: int| 0 <= k < next.len() implies stepped(
                    #[trigger] longer[k],
                    next[k],
                    longer[k + 1],
                    Ok(()),
                ) by {
                    if k < i {
                        assert(longer[k] == states[k]);
                        assert(longer[k + 1] == states[k + 1]);
                        assert(next[k] == front[k]);
                    }
                }
                states = longer;
            }
            i = i + 1;
        }
        proof {
            assert(boxes@.take(boxes.len() as int) =~= boxes@);
            assert(traced(old(self)@, boxes@, states) && states.last() == self@);
        }
        Ok(())
    }
}

impl Clone for OcclusionBuffer {
    /// A deep copy: free space and pending candidate are duplicated.
    fn clone(&self) -> (r: OcclusionBuffer)
        ensures
            r@ == self@,
            self.inv() ==> r.inv(),
    {
        OcclusionBuffer {
            free_space: self.free_space.clone(),
            overall_bound_box: self.overall_bound_box,
            new_box: self.new_box,
            occlusion_status: copy_pairs(&self.occlusion_status),
        }
    }
}

/// A copy of a list of identifier pairs.
fn copy_pairs(pairs: &Vec<(usize, usize)>) -> (r: Vec<(usize, usize)>)
    ensures
        r@ == pairs@,
{
    let mut r: Vec<(usize, usize)> = Vec::with_capacity(pairs.len());
    let mut i: usize = 0;
    while i < pairs.len()
        invariant
            i <= pairs.len(),
            r@ == pairs@.take(i as int),
        decreases pairs.len() - i,
    {
        r.push(pairs[i]);
        proof {
            assert(pairs@.take(i + 1) =~= pairs@.take(i as int).push(pairs@[i as int]));
        }
        i = i + 1;
    }
    proof {
        assert(pairs@.take(pairs.len() as int) =~= pairs@);
    }
    r
}

} // verus!
