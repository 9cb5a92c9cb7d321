//! What holds of every occlusion buffer, stated over its view and proved
//! from the contracts of its operations.

use vstd::prelude::*;
use crate::box_cutting::Rect;
use crate::buffer::{
    checked, committed, idle, in_bounds, ran, stepped, traced, BufferView, OcclusionStatus,
};
use crate::cut_space::{
    lemma_cut_coverage, lemma_cut_excludes, lemma_cut_keeps_clear, lemma_cut_stays_inside,
};
use crate::error::OcclusionError;

verus! {

/// No two free boxes overlap: they share no cell.
pub proof fn lemma_free_boxes_disjoint(v: BufferView, i: int, j: int)
    requires
        v.wf(),
        v.free.live(i),
        v.free.live(j),
        i != j,
    ensures
        !v.free.rect(i).overlaps(v.free.rect(j)),
        forall|x: int, y: int| !(v.free.rect(i).covers(x, y) && v.free.rect(j).covers(x, y)),
{
}

/// Every free box lies within the overall bound.
pub proof fn lemma_free_boxes_in_bound(v: BufferView, i: int)
    requires
        v.wf(),
        v.free.live(i),
    ensures
        v.free.rect(i).within(v.bound),
{
}

/// No free box is degenerate: each has positive extent on both axes.
pub proof fn lemma_free_boxes_solid(v: BufferView, i: int)
    requires
        v.wf(),
        v.free.live(i),
    ensures
        !v.free.rect(i).is_degenerate(),
        v.free.rect(i).solid(),
{
}

/// A check leaves a well-formed buffer well-formed.
pub proof fn lemma_checked_wf(
    pre: BufferView,
    new: Rect,
    post: BufferView,
    r: Result<OcclusionStatus, OcclusionError>,
)
    requires
        pre.wf(),
        checked(pre, new, post, r),
    ensures
        post.wf(),
{
}

/// Adding the pending box leaves a well-formed buffer well-formed.
pub proof fn lemma_committed_wf(pre: BufferView, post: BufferView, r: Result<(), OcclusionError>)
    requires
        pre.wf(),
        committed(pre, post, r),
    ensures
        post.wf(),
{
    if r is Ok {
        let n = pre.pending.unwrap();
        lemma_cut_stays_inside(pre.free, n, post.free, pre.bound);
    }
}

/// Right after a box was added, no free box overlaps it.
pub proof fn lemma_commit_excludes(pre: BufferView, post: BufferView)
    requires
        pre.wf(),
        committed(pre, post, Ok(())),
    ensures
        pre.pending is Some,
        !post.free.touches(pre.pending.unwrap()),
        forall|x: int, y: int| !(post.free.covered(x, y) && pre.pending.unwrap().covers(x, y)),
{
    let n = pre.pending.unwrap();
    lemma_cut_excludes(pre.free, n, post.free);
    assert forall|x: int, y: int| !(post.free.covered(x, y) && n.covers(x, y)) by {
        if post.free.covered(x, y) && n.covers(x, y) {
            let i = choose|i: int| #[trigger] post.free.live(i) && post.free.rect(i).covers(x, y);
            assert(post.free.live(i) && post.free.rect(i).overlaps(n));
        }
    }
}

/// Adding a box takes its cells away from the free space and changes
/// nothing else.
pub proof fn lemma_commit_coverage(pre: BufferView, post: BufferView, x: int, y: int)
    requires
        pre.wf(),
        committed(pre, post, Ok(())),
    ensures
        post.free.covered(x, y) <==> pre.free.covered(x, y) && !pre.pending.unwrap().covers(x, y),
{
    lemma_cut_coverage(pre.free, pre.pending.unwrap(), post.free, x, y);
}

/// A box of positive area overlaps the free space exactly if one of its
/// cells is free: a check finds it partially visible exactly then.
pub proof fn lemma_visible_iff_free_cell(v: BufferView, new: Rect)
    requires
        v.wf(),
        new.solid(),
    ensures
        v.free.touches(new) <==> exists|x: int, y: int|
            #[trigger] new.covers(x, y) && v.free.covered(x, y),
{
    if v.free.touches(new) {
        let i = choose|i: int| #[trigger] v.free.live(i) && v.free.rect(i).overlaps(new);
        let f = v.free.rect(i);
        let x = if f.lo_x >= new.lo_x {
            f.lo_x as int
        } else {
            new.lo_x as int
        };
        let y = if f.lo_y >= new.lo_y {
            f.lo_y as int
        } else {
            new.lo_y as int
        };
        assert(v.free.live(i) && f.covers(x, y));
        assert(new.covers(x, y) && v.free.covered(x, y));
    }
    if exists|x: int, y: int| #[trigger] new.covers(x, y) && v.free.covered(x, y) {
        let (x, y) = choose|x: int, y: int| #[trigger] new.covers(x, y) && v.free.covered(x, y);
        let i = choose|i: int| #[trigger] v.free.live(i) && v.free.rect(i).covers(x, y);
        assert(v.free.live(i) && v.free.rect(i).overlaps(new));
    }
}

/// A box that was added is occluded from then on: the next check of it
/// finds no free box that overlaps it.
pub proof fn lemma_added_box_is_occluded(
    pre: BufferView,
    post: BufferView,
    after_check: BufferView,
    r: Result<OcclusionStatus, OcclusionError>,
)
    requires
        pre.wf(),
        committed(pre, post, Ok(())),
        checked(post, pre.pending.unwrap(), after_check, r),
    ensures
        r == Ok::<_, OcclusionError>(OcclusionStatus::Occluded),
        after_check == post,
{
    lemma_commit_excludes(pre, post);
}

/// If a check finds the box occluded, the free space is unchanged, and it
/// stays unchanged if adding the box is attempted all the same: the attempt
/// fails because nothing is pending.
pub proof fn lemma_occluded_is_noop(
    start: BufferView,
    new: Rect,
    after_check: BufferView,
    after_commit: BufferView,
    r: Result<(), OcclusionError>,
)
    requires
        checked(start, new, after_check, Ok(OcclusionStatus::Occluded)),
        committed(after_check, after_commit, r),
    ensures
        after_check.free == start.free,
        r == Err::<(), _>(OcclusionError::NothingPending),
        after_commit.free == start.free,
{
}

/// A refused check changes nothing.
pub proof fn lemma_refused_check_is_noop(
    pre: BufferView,
    new: Rect,
    post: BufferView,
    e: OcclusionError,
)
    requires
        checked(pre, new, post, Err(e)),
    ensures
        post == pre,
        e == OcclusionError::OutOfBounds,
{
}

/// A refused attempt to add the pending box changes nothing.
pub proof fn lemma_refused_commit_is_noop(pre: BufferView, post: BufferView, e: OcclusionError)
    requires
        committed(pre, post, Err(e)),
    ensures
        post == pre,
{
}

/// One successful step of a batch keeps the buffer well-formed and takes
/// the cells of its box, if the box is in bounds and visible, away from the
/// free space; a box that no free box overlaps covers no free cell.
pub proof fn lemma_step_coverage(pre: BufferView, b: Rect, post: BufferView, x: int, y: int)
    requires
        pre.wf(),
        stepped(pre, b, post, Ok(())),
    ensures
        post.wf(),
        in_bounds(pre.bound, b),
        post.free.covered(x, y) <==> pre.free.covered(x, y) && !b.covers(x, y),
{
    if !pre.free.touches(b) {
        if pre.free.covered(x, y) && b.covers(x, y) {
            let i = choose|i: int| #[trigger] pre.free.live(i) && pre.free.rect(i).covers(x, y);
            assert(pre.free.live(i) && pre.free.rect(i).overlaps(b));
        }
    } else {
        lemma_cut_coverage(pre.free, b, post.free, x, y);
        lemma_cut_stays_inside(pre.free, b, post.free, pre.bound);
    }
}

/// After a batch that went through, the buffer is well-formed and idle,
/// and a cell is free exactly if it was free before and belongs to none of
/// the boxes of the batch.
pub proof fn lemma_batch_coverage(pre: BufferView, bs: Seq<Rect>, post: BufferView, x: int, y: int)
    requires
        pre.wf(),
        ran(pre, bs, post),
    ensures
        post.wf(),
        post.pending is None,
        post.bound == pre.bound,
        post.free.covered(x, y) <==> pre.free.covered(x, y) && forall|k: int|
            0 <= k < bs.len() ==> !(#[trigger] bs[k]).covers(x, y),
{
    let states = choose|states: Seq<BufferView>| #[trigger]
        traced(pre, bs, states) && states.last() == post;
    lemma_trace_coverage(pre, bs, states, bs.len() as int, x, y);
}

/// After a batch that went through, no free box overlaps any box of the
/// batch, whether the box has area or not.
pub proof fn lemma_batch_excludes(pre: BufferView, bs: Seq<Rect>, post: BufferView, k: int)
    requires
        pre.wf(),
        ran(pre, bs, post),
        0 <= k < bs.len(),
    ensures
        !post.free.touches(bs[k]),
{
    let states = choose|states: Seq<BufferView>| #[trigger]
        traced(pre, bs, states) && states.last() == post;
    lemma_trace_excludes(pre, bs, states, k, bs.len() as int);
}

/// In a recorded batch, box `k` is overlapped by no free box of any state
/// after its own step.
proof fn lemma_trace_excludes(
    pre: BufferView,
    bs: Seq<Rect>,
    states: Seq<BufferView>,
    k: int,
    n: int,
)
    requires
        pre.wf(),
        traced(pre, bs, states),
        0 <= k < n <= bs.len(),
    ensures
        !states[n].free.touches(bs[k]),
    decreases n,
{
    let before = states[n - 1];
    let after = states[n];
    let b = bs[n - 1];
    lemma_trace_coverage(pre, bs, states, n - 1, 0, 0);
    assert(stepped(before, b, after, Ok(())));
    if n - 1 == k {
        if before.free.touches(b) {
            lemma_cut_excludes(before.free, b, after.free);
        }
    } else {
        lemma_trace_excludes(pre, bs, states, k, n - 1);
        if before.free.touches(b) {
            lemma_cut_keeps_clear(before.free, b, after.free, bs[k]);
        }
    }
}

/// The state after the first `n` steps of a recorded batch.
proof fn lemma_trace_coverage(
    pre: BufferView,
    bs: Seq<Rect>,
    states: Seq<BufferView>,
    n: int,
    x: int,
    y: int,
)
    requires
        pre.wf(),
        traced(pre, bs, states),
        0 <= n <= bs.len(),
    ensures
        states[n].wf(),
        states[n].pending is None,
        states[n].bound == pre.bound,
        states[n].free.covered(x, y) <==> pre.free.covered(x, y) && forall|k: int|
            0 <= k < n ==> !(#[trigger] bs[k]).covers(x, y),
    decreases n,
{
    if n > 0 {
        lemma_trace_coverage(pre, bs, states, n - 1, x, y);
        assert(stepped(states[n - 1], bs[n - 1], states[n], Ok(())));
        lemma_step_coverage(states[n - 1], bs[n - 1], states[n], x, y);
    } else {
        assert(states[0] == idle(pre));
    }
}

} // verus!
