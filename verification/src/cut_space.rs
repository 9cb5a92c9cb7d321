//! Cutting a candidate box out of the whole partition: every free box that
//! it overlaps is removed and replaced by the pieces that stay visible.

use vstd::prelude::*;
use vstd::pervasive::unreached;
use crate::box_cutting::{BoxExtensions, Rect};
use crate::cutter::{
    cut_box, cut_pieces, is_fragment, lemma_piece_inside, lemma_pieces_count, lemma_pieces_cover,
    lemma_pieces_disjoint, lemma_within_keeps_apart, pieces_of,
};
use crate::error::OcclusionError;
use crate::partition::{hit_slots, lemma_hit_slots, slot_hits, FreeSpace, FreeSpaceView};

verus! {

/// Slot `i` holds a live box that overlaps `new`.
pub open spec fn hit(v: FreeSpaceView, new: Rect, i: int) -> bool {
    v.live(i) && v.rect(i).overlaps(new)
}

/// The cut of every free box that `new` overlaps is accepted.
pub open spec fn all_accepted(v: FreeSpaceView, new: Rect) -> bool {
    forall|i: int| #[trigger] hit(v, new, i) ==> cut_pieces(v.rect(i), new) is Ok
}

/// Slot `i` is the first whose box `new` overlaps in a refused pattern.
pub open spec fn first_refused(v: FreeSpaceView, new: Rect, i: int) -> bool {
    &&& hit(v, new, i)
    &&& cut_pieces(v.rect(i), new) is Err
    &&& forall|j: int| 0 <= j < i && #[trigger] hit(v, new, j) ==> cut_pieces(v.rect(j), new) is Ok
}

/// `b` is a piece of positive area of some free box of `v` that `new`
/// overlaps.
pub open spec fn fragment_of_hit(v: FreeSpaceView, new: Rect, b: Rect) -> bool {
    exists|j: int| #[trigger] hit(v, new, j) && is_fragment(b, v.rect(j), new)
}

/// The piece `b` is inserted before the piece `c`: pieces go in by the slot
/// of the free box they come from and, for one box, in the order in which
/// the cut lists them.
pub open spec fn comes_before(v: FreeSpaceView, new: Rect, b: Rect, c: Rect) -> bool {
    exists|j: int, p: int, k: int, q: int|
        #![trigger pieces_of(v.rect(j), new)[p], pieces_of(v.rect(k), new)[q]]
        {
            &&& hit(v, new, j)
            &&& hit(v, new, k)
            &&& 0 <= p < pieces_of(v.rect(j), new).len()
            &&& 0 <= q < pieces_of(v.rect(k), new).len()
            &&& pieces_of(v.rect(j), new)[p] == b
            &&& pieces_of(v.rect(k), new)[q] == c
            &&& j < k || (j == k && p < q)
        }
}

/// `post` is `pre` with `new` cut out.
///
/// - The result is a well-formed partition again.
/// - The free boxes that `new` does not overlap stay where they are.
/// - Every other live box of `post` is a piece of positive area of a free
///   box that `new` overlaps, and every such piece is there.
/// - The pieces carry the identifiers from `pre.next_id` up to
///   `post.next_id`, without gaps, in the order in which they were inserted.
/// - No slot is lost.
pub open spec fn cut_out(pre: FreeSpaceView, new: Rect, post: FreeSpaceView) -> bool {
    &&& post.wf()
    &&& pre.next_id <= post.next_id <= pre.next_id + 4 * slot_hits(pre.slots, new).len()
    &&& pre.slots.len() <= post.slots.len()
    &&& forall|i: int|
        #[trigger] pre.live(i) && !pre.rect(i).overlaps(new) ==> post.live(i) && post.slots[i]
            == pre.slots[i]
    &&& forall|i: int| #[trigger]
        post.live(i) ==> {
            ||| pre.live(i) && !pre.rect(i).overlaps(new) && post.slots[i] == pre.slots[i]
            ||| post.id(i) >= pre.next_id && fragment_of_hit(pre, new, post.rect(i))
        }
    &&& forall|j: int, b: Rect|
        #![trigger hit(pre, new, j), is_fragment(b, pre.rect(j), new)]
        hit(pre, new, j) && is_fragment(b, pre.rect(j), new) ==> post.has(b)
    &&& forall|id: int| pre.next_id <= id < post.next_id ==> #[trigger] post.has_id(id)
    &&& forall|i: int, k: int|
        #![trigger post.live(i), post.live(k)]
        post.live(i) && post.live(k) && post.id(i) >= pre.next_id && post.id(k) >= pre.next_id
            && comes_before(pre, new, post.rect(i), post.rect(k)) ==> post.id(i) < post.id(k)
}

/// The boxes of `ps` that have positive area, in their order.
pub open spec fn solid_only(ps: Seq<Rect>) -> Seq<Rect>
    decreases ps.len(),
{
    if ps.len() == 0 {
        Seq::empty()
    } else {
        let rest = solid_only(ps.drop_last());
        if ps.last().solid() {
            rest.push(ps.last())
        } else {
            rest
        }
    }
}

/// The partition after the boxes `bs` were inserted one after the other.
pub open spec fn insert_all(v: FreeSpaceView, bs: Seq<Rect>) -> FreeSpaceView
    decreases bs.len(),
{
    if bs.len() == 0 {
        v
    } else {
        insert_all(v, bs.drop_last()).inserted(bs.last())
    }
}

/// The partition after the box in slot `j` was replaced by what `new` leaves
/// of it: the box is removed, and its pieces of positive area are inserted
/// in the order in which the cut lists them.
pub open spec fn cut_slot(v: FreeSpaceView, new: Rect, j: int) -> FreeSpaceView {
    insert_all(v.removed(j), solid_only(pieces_of(v.rect(j), new)))
}

/// The partition after the boxes in the slots `hs` were replaced, one after
/// the other, by what `new` leaves of them.
pub open spec fn cut_slots(v: FreeSpaceView, new: Rect, hs: Seq<int>) -> FreeSpaceView
    decreases hs.len(),
{
    if hs.len() == 0 {
        v
    } else {
        cut_slot(cut_slots(v, new, hs.drop_last()), new, hs.last())
    }
}

/// The partition after `new` was cut out of it: each free box that `new`
/// overlaps, in slot order, is replaced by what `new` leaves of it.
pub open spec fn cut_apply(v: FreeSpaceView, new: Rect) -> FreeSpaceView {
    cut_slots(v, new, hit_slots(v.slots, new))
}

/// What [`FreeSpace::cut_space`] does to the partition and what it returns.
pub open spec fn cut_result(
    pre: FreeSpaceView,
    new: Rect,
    post: FreeSpaceView,
    r: Result<(), OcclusionError>,
) -> bool {
    match r {
        Ok(()) => {
            &&& all_accepted(pre, new)
            &&& pre.next_id + 4 * slot_hits(pre.slots, new).len() <= usize::MAX
            &&& post == cut_apply(pre, new)
            &&& cut_out(pre, new, post)
        },
        Err(OcclusionError::InvariantViolation { kind, free, free_id }) => {
            &&& post == pre
            &&& cut_pieces(free, new) == Err::<Seq<Rect>, _>(kind)
            &&& exists|i: int| #[trigger]
                first_refused(pre, new, i) && pre.rect(i) == free && pre.id(i) == free_id
        },
        Err(OcclusionError::IdsExhausted) => {
            &&& post == pre
            &&& all_accepted(pre, new)
            &&& pre.next_id + 4 * slot_hits(pre.slots, new).len() > usize::MAX
        },
        Err(_) => false,
    }
}

/// A piece of positive area of a free box that `new` overlaps lies inside
/// that box and does not overlap `new`.
pub proof fn lemma_fragment_of_hit(v: FreeSpaceView, new: Rect, b: Rect) -> (j: int)
    requires
        v.wf(),
        new.wf(),
        fragment_of_hit(v, new, b),
    ensures
        hit(v, new, j),
        is_fragment(b, v.rect(j), new),
        b.solid(),
        b.within(v.rect(j)),
        !b.overlaps(new),
{
    let j = choose|j: int| #[trigger] hit(v, new, j) && is_fragment(b, v.rect(j), new);
    let f = v.rect(j);
    assert(v.live(j));
    let p = choose|p: int| 0 <= p < pieces_of(f, new).len() && #[trigger] pieces_of(f, new)[p] == b
        && b.solid();
    lemma_piece_inside(f, new, p);
    j
}

/// After a cut no free box overlaps the box that was cut out.
pub proof fn lemma_cut_excludes(pre: FreeSpaceView, new: Rect, post: FreeSpaceView)
    requires
        pre.wf(),
        new.wf(),
        cut_out(pre, new, post),
    ensures
        !post.touches(new),
{
    assert forall|i: int| #[trigger] post.live(i) implies !post.rect(i).overlaps(new) by {
        if !(pre.live(i) && !pre.rect(i).overlaps(new) && post.slots[i] == pre.slots[i]) {
            lemma_fragment_of_hit(pre, new, post.rect(i));
        }
    }
}

/// A cut opens no free space: a box that no free box overlapped before the
/// cut is overlapped by none after it.
pub proof fn lemma_cut_keeps_clear(pre: FreeSpaceView, new: Rect, post: FreeSpaceView, b: Rect)
    requires
        pre.wf(),
        new.wf(),
        cut_out(pre, new, post),
        !pre.touches(b),
    ensures
        !post.touches(b),
{
    assert forall|i: int| #[trigger] post.live(i) implies !post.rect(i).overlaps(b) by {
        if pre.live(i) && !pre.rect(i).overlaps(new) && post.slots[i] == pre.slots[i] {
            assert(!(pre.live(i) && pre.rect(i).overlaps(b)));
        } else {
            let j = lemma_fragment_of_hit(pre, new, post.rect(i));
            assert(!(pre.live(j) && pre.rect(j).overlaps(b)));
            lemma_within_keeps_apart(post.rect(i), pre.rect(j), b, b);
        }
    }
}

/// A cut keeps the free space inside a bound that held it before.
pub proof fn lemma_cut_stays_inside(pre: FreeSpaceView, new: Rect, post: FreeSpaceView, bound: Rect)
    requires
        pre.wf(),
        new.wf(),
        pre.inside(bound),
        cut_out(pre, new, post),
    ensures
        post.inside(bound),
{
    assert forall|i: int| #[trigger] post.live(i) implies post.rect(i).within(bound) by {
        if pre.live(i) && !pre.rect(i).overlaps(new) && post.slots[i] == pre.slots[i] {
        } else {
            let j = lemma_fragment_of_hit(pre, new, post.rect(i));
            assert(pre.live(j));
        }
    }
}

/// A cut takes the cells of the box that was cut out away from the free
/// space and changes nothing else: a cell is free afterwards exactly if it
/// was free before and does not belong to that box.
pub proof fn lemma_cut_coverage(pre: FreeSpaceView, new: Rect, post: FreeSpaceView, x: int, y: int)
    requires
        pre.wf(),
        new.wf(),
        all_accepted(pre, new),
        cut_out(pre, new, post),
    ensures
        post.covered(x, y) <==> pre.covered(x, y) && !new.covers(x, y),
{
    if post.covered(x, y) {
        let i = choose|i: int| #[trigger] post.live(i) && post.rect(i).covers(x, y);
        if pre.live(i) && !pre.rect(i).overlaps(new) && post.slots[i] == pre.slots[i] {
            assert(pre.live(i) && pre.rect(i).covers(x, y));
        } else {
            let j = lemma_fragment_of_hit(pre, new, post.rect(i));
            assert(pre.live(j) && pre.rect(j).covers(x, y));
        }
    }
    if pre.covered(x, y) && !new.covers(x, y) {
        let j = choose|j: int| #[trigger] pre.live(j) && pre.rect(j).covers(x, y);
        if pre.rect(j).overlaps(new) {
            let f = pre.rect(j);
            assert(hit(pre, new, j));
            lemma_pieces_cover(f, new, x, y);
            let p = choose|p: int|
                0 <= p < pieces_of(f, new).len() && (#[trigger] pieces_of(f, new)[p]).covers(x, y);
            let b = pieces_of(f, new)[p];
            assert(is_fragment(b, f, new));
            assert(post.has(b));
            let i = choose|i: int| #[trigger] post.live(i) && post.rect(i) == b;
            assert(post.live(i) && post.rect(i).covers(x, y));
        } else {
            assert(post.live(j) && post.rect(j).covers(x, y));
        }
    }
}

/// The pieces inserted so far, after `done` overlapped boxes were replaced
/// and the first `part` pieces of the next were looked at: fragment `u` is
/// piece `op[u]` of the box that hit number `oh[u]` found.
spec fn progress(
    v: FreeSpaceView,
    new: Rect,
    fragments: Seq<Rect>,
    oh: Seq<int>,
    op: Seq<int>,
    done: int,
    part: int,
) -> bool {
    let hs = hit_slots(v.slots, new);
    &&& 0 <= done <= hs.len()
    &&& 0 <= part
    &&& part > 0 ==> done < hs.len() && part <= pieces_of(v.rect(hs[done]), new).len()
    &&& oh.len() == fragments.len()
    &&& op.len() == fragments.len()
    &&& fragments.len() <= 4 * done + part
    &&& forall|u: int|
        0 <= u < fragments.len() ==> {
            &&& 0 <= #[trigger] oh[u] <= done
            &&& oh[u] < hs.len()
            &&& oh[u] == done ==> op[u] < part
            &&& 0 <= op[u] < pieces_of(v.rect(hs[oh[u]]), new).len()
            &&& fragments[u] == pieces_of(v.rect(hs[oh[u]]), new)[op[u]]
            &&& fragments[u].solid()
        }
    &&& forall|u: int, w: int|
        0 <= u < w < fragments.len() ==> #[trigger] oh[u] < #[trigger] oh[w] || (oh[u] == oh[w]
            && op[u] < op[w])
    &&& forall|a: int, p: int|
        0 <= a < hs.len() && (a < done || (a == done && p < part)) && 0 <= p < pieces_of(
            v.rect(hs[a]),
            new,
        ).len() && (#[trigger] pieces_of(v.rect(hs[a]), new)[p]).solid() ==> exists|u: int|
            0 <= u < fragments.len() && #[trigger] oh[u] == a && op[u] == p
}

/// How the partition `cur` in the middle of a cut relates to the partition
/// `pre` that the cut started from. The overlapped boxes in slots below
/// `bar` are replaced; every other box of `pre` is where it was. The pieces
/// inserted so far carry consecutive new identifiers.
spec fn midway(
    pre: FreeSpaceView,
    new: Rect,
    cur: FreeSpaceView,
    fragments: Seq<Rect>,
    bar: int,
) -> bool {
    &&& cur.next_id == pre.next_id + fragments.len()
    &&& cur.slots.len() >= pre.slots.len()
    &&& forall|i: int|
        #[trigger] pre.live(i) && !(hit(pre, new, i) && i < bar) ==> cur.live(i) && cur.slots[i]
            == pre.slots[i]
    &&& forall|i: int| #[trigger]
        cur.live(i) ==> {
            ||| pre.live(i) && !(hit(pre, new, i) && i < bar) && cur.slots[i] == pre.slots[i]
            ||| exists|u: int|
                0 <= u < fragments.len() && #[trigger] fragments[u] == cur.rect(i) && cur.id(i)
                    == pre.next_id + u
        }
    &&& forall|u: int|
        0 <= u < fragments.len() ==> cur.has_entry(#[trigger] fragments[u], pre.next_id + u)
}

/// An inserted piece is a piece of positive area of a free box that `new`
/// overlaps; it lies inside that box and does not overlap `new`.
proof fn lemma_fragment_facts(
    v: FreeSpaceView,
    new: Rect,
    fragments: Seq<Rect>,
    oh: Seq<int>,
    op: Seq<int>,
    done: int,
    part: int,
    u: int,
)
    requires
        v.wf(),
        new.wf(),
        progress(v, new, fragments, oh, op, done, part),
        0 <= u < fragments.len(),
    ensures
        fragments[u].wf(),
        fragments[u].solid(),
        !fragments[u].overlaps(new),
        hit(v, new, hit_slots(v.slots, new)[oh[u]]),
        fragments[u].within(v.rect(hit_slots(v.slots, new)[oh[u]])),
        is_fragment(fragments[u], v.rect(hit_slots(v.slots, new)[oh[u]]), new),
        fragment_of_hit(v, new, fragments[u]),
{
    lemma_hit_slots(v.slots, new);
    let hs = hit_slots(v.slots, new);
    let a = oh[u];
    let j = hs[a];
    assert(v.live(j));
    lemma_piece_inside(v.rect(j), new, op[u]);
    assert(pieces_of(v.rect(j), new)[op[u]] == fragments[u]);
    assert(hit(v, new, j) && is_fragment(fragments[u], v.rect(j), new));
}

/// Two different inserted pieces do not overlap.
proof fn lemma_fragments_apart(
    v: FreeSpaceView,
    new: Rect,
    fragments: Seq<Rect>,
    oh: Seq<int>,
    op: Seq<int>,
    done: int,
    part: int,
    u: int,
    w: int,
)
    requires
        v.wf(),
        new.wf(),
        progress(v, new, fragments, oh, op, done, part),
        0 <= u < fragments.len(),
        0 <= w < fragments.len(),
        u != w,
    ensures
        !fragments[u].overlaps(fragments[w]),
{
    lemma_hit_slots(v.slots, new);
    lemma_fragment_facts(v, new, fragments, oh, op, done, part, u);
    lemma_fragment_facts(v, new, fragments, oh, op, done, part, w);
    let hs = hit_slots(v.slots, new);
    let ju = hs[oh[u]];
    let jw = hs[oh[w]];
    if oh[u] == oh[w] {
        if u < w {
            assert(oh[u] < oh[w] || (oh[u] == oh[w] && op[u] < op[w]));
        } else {
            assert(oh[w] < oh[u] || (oh[w] == oh[u] && op[w] < op[u]));
        }
        lemma_pieces_disjoint(v.rect(ju), new, op[u], op[w]);
    } else {
        if oh[u] < oh[w] {
            assert(hs[oh[u]] < hs[oh[w]]);
        } else {
            assert(hs[oh[w]] < hs[oh[u]]);
        }
        assert(v.live(ju) && v.live(jw));
        lemma_within_keeps_apart(fragments[u], v.rect(ju), fragments[w], v.rect(jw));
    }
}

/// A piece of positive area comes from one free box and one place in the
/// list of its pieces only.
proof fn lemma_origin_unique(v: FreeSpaceView, new: Rect, j: int, p: int, k: int, q: int)
    requires
        v.wf(),
        new.wf(),
        hit(v, new, j),
        hit(v, new, k),
        0 <= p < pieces_of(v.rect(j), new).len(),
        0 <= q < pieces_of(v.rect(k), new).len(),
        pieces_of(v.rect(j), new)[p] == pieces_of(v.rect(k), new)[q],
        pieces_of(v.rect(j), new)[p].solid(),
    ensures
        j == k,
        p == q,
{
    let b = pieces_of(v.rect(j), new)[p];
    assert(v.live(j) && v.live(k));
    lemma_piece_inside(v.rect(j), new, p);
    lemma_piece_inside(v.rect(k), new, q);
    if j != k {
        lemma_within_keeps_apart(b, v.rect(j), b, v.rect(k));
    } else if p != q {
        lemma_pieces_disjoint(v.rect(j), new, p, q);
    }
}

/// Of two inserted pieces, the one that comes before the other in insertion
/// order has the smaller index.
proof fn lemma_fragment_order(
    v: FreeSpaceView,
    new: Rect,
    fragments: Seq<Rect>,
    oh: Seq<int>,
    op: Seq<int>,
    done: int,
    part: int,
    u: int,
    w: int,
)
    requires
        v.wf(),
        new.wf(),
        progress(v, new, fragments, oh, op, done, part),
        0 <= u < fragments.len(),
        0 <= w < fragments.len(),
        comes_before(v, new, fragments[u], fragments[w]),
    ensures
        u < w,
{
    lemma_hit_slots(v.slots, new);
    lemma_fragment_facts(v, new, fragments, oh, op, done, part, u);
    lemma_fragment_facts(v, new, fragments, oh, op, done, part, w);
    let hs = hit_slots(v.slots, new);
    let (j, p, k, q) = choose|j: int, p: int, k: int, q: int|
        #![trigger pieces_of(v.rect(j), new)[p], pieces_of(v.rect(k), new)[q]]
        {
            &&& hit(v, new, j)
            &&& hit(v, new, k)
            &&& 0 <= p < pieces_of(v.rect(j), new).len()
            &&& 0 <= q < pieces_of(v.rect(k), new).len()
            &&& pieces_of(v.rect(j), new)[p] == fragments[u]
            &&& pieces_of(v.rect(k), new)[q] == fragments[w]
            &&& j < k || (j == k && p < q)
        };
    lemma_origin_unique(v, new, j, p, hs[oh[u]], op[u]);
    lemma_origin_unique(v, new, k, q, hs[oh[w]], op[w]);
    if oh[u] > oh[w] {
        assert(hs[oh[w]] < hs[oh[u]]);
    }
    if w < u {
        assert(oh[w] < oh[u] || (oh[w] == oh[u] && op[w] < op[u]));
    }
}

/// An inserted piece overlaps no free box other than the one it comes
/// from.
proof fn lemma_fragment_clear(
    v: FreeSpaceView,
    new: Rect,
    fragments: Seq<Rect>,
    oh: Seq<int>,
    op: Seq<int>,
    done: int,
    part: int,
    u: int,
    i: int,
)
    requires
        v.wf(),
        new.wf(),
        progress(v, new, fragments, oh, op, done, part),
        0 <= u < fragments.len(),
        v.live(i),
        i != hit_slots(v.slots, new)[oh[u]],
    ensures
        !v.rect(i).overlaps(fragments[u]),
{
    lemma_fragment_facts(v, new, fragments, oh, op, done, part, u);
    let j = hit_slots(v.slots, new)[oh[u]];
    assert(v.live(j) && v.live(i));
    lemma_within_keeps_apart(v.rect(i), v.rect(i), fragments[u], v.rect(j));
}

/// Once every overlapped box is replaced, every piece of positive area of
/// such a box is among the inserted pieces.
proof fn lemma_fragments_complete(
    v: FreeSpaceView,
    new: Rect,
    fragments: Seq<Rect>,
    oh: Seq<int>,
    op: Seq<int>,
    j: int,
    b: Rect,
)
    requires
        v.wf(),
        new.wf(),
        progress(v, new, fragments, oh, op, hit_slots(v.slots, new).len() as int, 0),
        hit(v, new, j),
        is_fragment(b, v.rect(j), new),
    ensures
        exists|u: int| 0 <= u < fragments.len() && #[trigger] fragments[u] == b,
{
    lemma_hit_slots(v.slots, new);
    let hs = hit_slots(v.slots, new);
    assert(v.slots[j] is Some);
    assert(hs.contains(j));
    let a = choose|a: int| 0 <= a < hs.len() && hs[a] == j;
    let p = choose|p: int|
        0 <= p < pieces_of(v.rect(j), new).len() && #[trigger] pieces_of(v.rect(j), new)[p] == b
            && b.solid();
    assert(pieces_of(v.rect(hs[a]), new)[p].solid());
    let u = choose|u: int| 0 <= u < fragments.len() && #[trigger] oh[u] == a && op[u] == p;
    assert(fragments[u] == b);
}

/// The list of inserted pieces grows by the piece `b`, which is piece `part`
/// of the box that hit number `done` found.
proof fn lemma_progress_push(
    v: FreeSpaceView,
    new: Rect,
    fragments: Seq<Rect>,
    oh: Seq<int>,
    op: Seq<int>,
    done: int,
    part: int,
    b: Rect,
)
    requires
        progress(v, new, fragments, oh, op, done, part),
        done < hit_slots(v.slots, new).len(),
        part < pieces_of(v.rect(hit_slots(v.slots, new)[done]), new).len(),
        part < 4,
        b == pieces_of(v.rect(hit_slots(v.slots, new)[done]), new)[part],
        b.solid(),
    ensures
        progress(v, new, fragments.push(b), oh.push(done), op.push(part), done, part + 1),
{
    let hs = hit_slots(v.slots, new);
    let f2 = fragments.push(b);
    let oh2 = oh.push(done);
    let op2 = op.push(part);
    assert forall|a: int, q: int|
        0 <= a < hs.len() && (a < done || (a == done && q < part + 1)) && 0 <= q < pieces_of(
            v.rect(hs[a]),
            new,
        ).len() && (#[trigger] pieces_of(v.rect(hs[a]), new)[q]).solid() implies exists|u: int|
        0 <= u < f2.len() && #[trigger] oh2[u] == a && op2[u] == q by {
        if a == done && q == part {
            let u = fragments.len() as int;
            assert(oh2[u] == a && op2[u] == q);
        } else {
            let u = choose|u: int| 0 <= u < fragments.len() && #[trigger] oh[u] == a && op[u] == q;
            assert(oh2[u] == a && op2[u] == q);
        }
    }
    assert forall|u: int| 0 <= u < f2.len() implies {
        &&& 0 <= #[trigger] oh2[u] <= done
        &&& oh2[u] < hs.len()
        &&& oh2[u] == done ==> op2[u] < part + 1
        &&& 0 <= op2[u] < pieces_of(v.rect(hs[oh2[u]]), new).len()
        &&& f2[u] == pieces_of(v.rect(hs[oh2[u]]), new)[op2[u]]
        &&& f2[u].solid()
    } by {
        if u < fragments.len() {
            assert(oh[u] == oh2[u]);
            assert(op[u] == op2[u]);
            assert(fragments[u] == f2[u]);
        }
    }
    assert forall|u: int, w: int| 0 <= u < w < f2.len() implies #[trigger] oh2[u]
        < #[trigger] oh2[w] || (oh2[u] == oh2[w] && op2[u] < op2[w]) by {
        assert(oh[u] == oh2[u]);
        assert(op[u] == op2[u]);
        if w < fragments.len() {
            assert(oh[w] == oh2[w]);
            assert(op[w] == op2[w]);
        }
    }
}

/// A piece without area is passed over: the list of inserted pieces stays.
proof fn lemma_progress_skip(
    v: FreeSpaceView,
    new: Rect,
    fragments: Seq<Rect>,
    oh: Seq<int>,
    op: Seq<int>,
    done: int,
    part: int,
)
    requires
        progress(v, new, fragments, oh, op, done, part),
        done < hit_slots(v.slots, new).len(),
        part < pieces_of(v.rect(hit_slots(v.slots, new)[done]), new).len(),
        part < 4,
        !pieces_of(v.rect(hit_slots(v.slots, new)[done]), new)[part].solid(),
    ensures
        progress(v, new, fragments, oh, op, done, part + 1),
{
}

/// With all pieces of one overlapped box looked at, the next box is due.
proof fn lemma_progress_next(
    v: FreeSpaceView,
    new: Rect,
    fragments: Seq<Rect>,
    oh: Seq<int>,
    op: Seq<int>,
    done: int,
)
    requires
        done < hit_slots(v.slots, new).len(),
        progress(
            v,
            new,
            fragments,
            oh,
            op,
            done,
            pieces_of(v.rect(hit_slots(v.slots, new)[done]), new).len() as int,
        ),
    ensures
        progress(v, new, fragments, oh, op, done + 1, 0),
{
    lemma_pieces_count(v.rect(hit_slots(v.slots, new)[done]), new);
}

/// After the partition `cur` took in the piece `b`, it relates to `pre` as
/// before, with `b` as one more inserted piece.
proof fn lemma_midway_insert(
    pre: FreeSpaceView,
    new: Rect,
    cur: FreeSpaceView,
    fragments: Seq<Rect>,
    bar: int,
    b: Rect,
)
    requires
        cur.wf(),
        midway(pre, new, cur, fragments, bar),
        b.solid(),
        cur.next_id < usize::MAX,
    ensures
        midway(pre, new, cur.inserted(b), fragments.push(b), bar),
{
    let post = cur.inserted(b);
    let f2 = fragments.push(b);
    let t = fragments.len() as int;
    let id = cur.next_id as usize;
    let s = if cur.dead.len() > 0 {
        cur.dead.last() as int
    } else {
        cur.slots.len() as int
    };
    if cur.dead.len() > 0 {
        assert(cur.dead[cur.dead.len() - 1] == s);
    }
    assert(!cur.live(s));
    assert(post.live(s) && post.rect(s) == b && post.id(s) == id);
    assert forall|i: int| i != s && cur.live(i) implies post.live(i) && post.slots[i]
        == cur.slots[i] by {}
    assert forall|i: int| i != s && post.live(i) implies cur.live(i) && post.slots[i]
        == cur.slots[i] by {}
    assert forall|i: int|
        #[trigger] pre.live(i) && !(hit(pre, new, i) && i < bar) implies post.live(i)
        && post.slots[i] == pre.slots[i] by {
        assert(cur.live(i));
    }
    assert forall|i: int| #[trigger] post.live(i) implies {
        ||| pre.live(i) && !(hit(pre, new, i) && i < bar) && post.slots[i] == pre.slots[i]
        ||| exists|u: int|
            0 <= u < f2.len() && #[trigger] f2[u] == post.rect(i) && post.id(i) == pre.next_id + u
    } by {
        if i == s {
            assert(f2[t] == post.rect(i) && post.id(i) == pre.next_id + t);
        } else {
            assert(cur.live(i));
            if !(pre.live(i) && !(hit(pre, new, i) && i < bar) && cur.slots[i] == pre.slots[i]) {
                let u = choose|u: int|
                    0 <= u < fragments.len() && #[trigger] fragments[u] == cur.rect(i) && cur.id(i)
                        == pre.next_id + u;
                assert(f2[u] == post.rect(i) && post.id(i) == pre.next_id + u);
            }
        }
    }
    assert forall|u: int| 0 <= u < f2.len() implies post.has_entry(
        #[trigger] f2[u],
        pre.next_id + u,
    ) by {
        if u == t {
            assert(post.live(s) && post.rect(s) == f2[u] && post.id(s) == pre.next_id + u);
        } else {
            assert(cur.has_entry(fragments[u], pre.next_id + u));
            let i = choose|i: int|
                #[trigger] cur.live(i) && cur.rect(i) == fragments[u] && cur.id(i) == pre.next_id
                    + u;
            assert(post.live(i) && post.rect(i) == f2[u] && post.id(i) == pre.next_id + u);
        }
    }
}

/// After the overlapped box in slot `s`, the lowest not yet replaced, was
/// removed from `cur`, the boxes in slots up to `s` count as replaced.
proof fn lemma_midway_remove(
    pre: FreeSpaceView,
    new: Rect,
    cur: FreeSpaceView,
    fragments: Seq<Rect>,
    bar: int,
    s: int,
)
    requires
        pre.wf(),
        cur.wf(),
        midway(pre, new, cur, fragments, bar),
        hit(pre, new, s),
        bar <= s,
        forall|i: int| bar <= i < s ==> !#[trigger] hit(pre, new, i),
    ensures
        cur.live(s),
        cur.slots[s] == pre.slots[s],
        midway(pre, new, cur.removed(s), fragments, s + 1),
{
    let post = cur.removed(s);
    assert(pre.live(s));
    assert forall|i: int|
        #[trigger] pre.live(i) && !(hit(pre, new, i) && i < s + 1) implies post.live(i)
        && post.slots[i] == pre.slots[i] by {
        if hit(pre, new, i) && i < s {
            assert(bar <= i < s);
        }
    }
    assert forall|i: int| #[trigger] post.live(i) implies {
        ||| pre.live(i) && !(hit(pre, new, i) && i < s + 1) && post.slots[i] == pre.slots[i]
        ||| exists|u: int|
            0 <= u < fragments.len() && #[trigger] fragments[u] == post.rect(i) && post.id(i)
                == pre.next_id + u
    } by {
        assert(cur.live(i));
        if !(pre.live(i) && !(hit(pre, new, i) && i < bar) && cur.slots[i] == pre.slots[i]) {
            let u = choose|u: int|
                0 <= u < fragments.len() && #[trigger] fragments[u] == cur.rect(i) && cur.id(i)
                    == pre.next_id + u;
            assert(fragments[u] == post.rect(i) && post.id(i) == pre.next_id + u);
        }
    }
    assert forall|u: int| 0 <= u < fragments.len() implies post.has_entry(
        #[trigger] fragments[u],
        pre.next_id + u,
    ) by {
        assert(cur.has_entry(fragments[u], pre.next_id + u));
        let i = choose|i: int|
            #[trigger] cur.live(i) && cur.rect(i) == fragments[u] && cur.id(i) == pre.next_id + u;
        assert(pre.live(s));
        if i == s {
            // the slot still holds the box of `pre`, whose identifier is old
            assert(cur.slots[s] == pre.slots[s]);
            assert(pre.id(s) < pre.next_id);
        }
        assert(post.live(i) && post.rect(i) == fragments[u] && post.id(i) == pre.next_id + u);
    }
}

/// Where no slot from `bar` up to `higher` holds an overlapped box, the
/// boxes in slots below `higher` count as replaced as well.
proof fn lemma_midway_raise(
    pre: FreeSpaceView,
    new: Rect,
    cur: FreeSpaceView,
    fragments: Seq<Rect>,
    bar: int,
    higher: int,
)
    requires
        midway(pre, new, cur, fragments, bar),
        bar <= higher,
        forall|i: int| bar <= i < higher ==> !#[trigger] hit(pre, new, i),
    ensures
        midway(pre, new, cur, fragments, higher),
{
    assert forall|i: int|
        #[trigger] pre.live(i) && !(hit(pre, new, i) && i < higher) implies cur.live(i)
        && cur.slots[i] == pre.slots[i] by {
        if hit(pre, new, i) && i < bar {
        }
    }
    assert forall|i: int| #[trigger] cur.live(i) implies {
        ||| pre.live(i) && !(hit(pre, new, i) && i < higher) && cur.slots[i] == pre.slots[i]
        ||| exists|u: int|
            0 <= u < fragments.len() && #[trigger] fragments[u] == cur.rect(i) && cur.id(i)
                == pre.next_id + u
    } by {
        if pre.live(i) && !(hit(pre, new, i) && i < bar) && cur.slots[i] == pre.slots[i] {
            if hit(pre, new, i) && i < higher {
                assert(bar <= i < higher);
            }
        }
    }
}

/// Once every overlapped box is replaced, the partition is `pre` with `new`
/// cut out.
proof fn lemma_cut_done(
    pre: FreeSpaceView,
    new: Rect,
    post: FreeSpaceView,
    fragments: Seq<Rect>,
    oh: Seq<int>,
    op: Seq<int>,
)
    requires
        pre.wf(),
        new.wf(),
        post.wf(),
        progress(pre, new, fragments, oh, op, hit_slots(pre.slots, new).len() as int, 0),
        midway(pre, new, post, fragments, pre.slots.len() as int),
    ensures
        cut_out(pre, new, post),
{
    lemma_hit_slots(pre.slots, new);
    let done = hit_slots(pre.slots, new).len() as int;
    assert forall|i: int|
        #[trigger] pre.live(i) && !pre.rect(i).overlaps(new) implies post.live(i) && post.slots[i]
        == pre.slots[i] by {}
    assert forall|i: int| #[trigger] post.live(i) implies {
        ||| pre.live(i) && !pre.rect(i).overlaps(new) && post.slots[i] == pre.slots[i]
        ||| post.id(i) >= pre.next_id && fragment_of_hit(pre, new, post.rect(i))
    } by {
        if !(pre.live(i) && !pre.rect(i).overlaps(new) && post.slots[i] == pre.slots[i]) {
            let u = choose|u: int|
                0 <= u < fragments.len() && #[trigger] fragments[u] == post.rect(i) && post.id(i)
                    == pre.next_id + u;
            lemma_fragment_facts(pre, new, fragments, oh, op, done, 0, u);
        }
    }
    assert forall|j: int, b: Rect|
        #![trigger hit(pre, new, j), is_fragment(b, pre.rect(j), new)]
        hit(pre, new, j) && is_fragment(b, pre.rect(j), new) implies post.has(b) by {
        lemma_fragments_complete(pre, new, fragments, oh, op, j, b);
        let u = choose|u: int| 0 <= u < fragments.len() && #[trigger] fragments[u] == b;
        assert(post.has_entry(fragments[u], pre.next_id + u));
        let i = choose|i: int|
            #[trigger] post.live(i) && post.rect(i) == fragments[u] && post.id(i) == pre.next_id
                + u;
        assert(post.live(i) && post.rect(i) == b);
    }
    assert forall|id: int| pre.next_id <= id < post.next_id implies #[trigger] post.has_id(id) by {
        let u = id - pre.next_id;
        assert(post.has_entry(fragments[u], pre.next_id + u));
        let i = choose|i: int|
            #[trigger] post.live(i) && post.rect(i) == fragments[u] && post.id(i) == pre.next_id
                + u;
        assert(post.live(i) && post.id(i) == id);
    }
    assert forall|i: int, k: int|
        #![trigger post.live(i), post.live(k)]
        post.live(i) && post.live(k) && post.id(i) >= pre.next_id && post.id(k) >= pre.next_id
            && comes_before(pre, new, post.rect(i), post.rect(k)) implies post.id(i) < post.id(
        k,
    ) by {
        assert(pre.live(i) ==> pre.id(i) < pre.next_id);
        assert(pre.live(k) ==> pre.id(k) < pre.next_id);
        let u = choose|u: int|
            0 <= u < fragments.len() && #[trigger] fragments[u] == post.rect(i) && post.id(i)
                == pre.next_id + u;
        let w = choose|w: int|
            0 <= w < fragments.len() && #[trigger] fragments[w] == post.rect(k) && post.id(k)
                == pre.next_id + w;
        lemma_fragment_order(pre, new, fragments, oh, op, done, 0, u, w);
    }
}

impl FreeSpace {
    /// Finds, in one pass over the slots, the slot of every free box that the
    /// search reported for `new`, and makes sure that the cutting table
    /// accepts each of them. Fails at the first box that it refuses.
    fn check_cuts(&self, intersected: &Vec<(usize, usize)>, new: &Rect) -> (r: Result<
        Vec<usize>,
        OcclusionError,
    >)
        requires
            self.inv(),
            new.wf(),
            intersected@ == slot_hits(self@.slots, *new),
        ensures
            match r {
                Ok(victims) => {
                    &&& all_accepted(self@, *new)
                    &&& victims@.len() == hit_slots(self@.slots, *new).len()
                    &&& forall|c: int|
                        0 <= c < victims@.len() ==> #[trigger] victims@[c] == hit_slots(
                            self@.slots,
                            *new,
                        )[c]
                },
                Err(e) => e is InvariantViolation && cut_result(self@, *new, self@, Err(e)),
            },
    {
        let ghost v = self@;
        let ghost hs = hit_slots(v.slots, *new);
        proof {
            self.lemma_inv_wf();
            lemma_hit_slots(v.slots, *new);
        }
        let n: usize = self.slot_count();
        let mut victims: Vec<usize> = Vec::new();
        let mut t: usize = 0;
        let mut i: usize = 0;
        while i < n && t < intersected.len()
            invariant
                self.inv(),
                new.wf(),
                v == self@,
                v.wf(),
                n == v.slots.len(),
                hs == hit_slots(v.slots, *new),
                intersected@ == slot_hits(v.slots, *new),
                hs.len() == intersected@.len(),
                t <= intersected.len(),
                i <= n,
                t < hs.len() ==> i <= hs[t as int],
                victims@.len() == t,
                forall|c: int| 0 <= c < t ==> #[trigger] victims@[c] == hs[c],
                forall|c: int| 0 <= c < t ==> cut_pieces(v.rect(#[trigger] hs[c]), *new) is Ok,
            decreases n - i,
        {
            proof {
                lemma_hit_slots(v.slots, *new);
            }
            let ghost next = hs[t as int];
            assert(v.live(next) && v.id(next) == intersected@[t as int].0);
            match self.slot(i) {
                Some(e) => {
                    if e.1 == intersected[t].0 {
                        assert(i == next) by {
                            assert(v.live(i as int) && v.live(next));
                        }
                        let free: Rect = e.0;
                        match cut_box(&free, new) {
                            Err(kind) => {
                                proof {
                                    assert forall|j: int|
                                        0 <= j < i && #[trigger] hit(v, *new, j) implies cut_pieces(
                                        v.rect(j),
                                        *new,
                                    ) is Ok by {
                                        assert(v.slots[j] is Some);
                                        assert(hs.contains(j));
                                        let c = choose|c: int| 0 <= c < hs.len() && hs[c] == j;
                                        if c > t {
                                            assert(hs[t as int] < hs[c]);
                                        }
                                        assert(c < t);
                                    }
                                    assert(hit(v, *new, i as int));
                                    assert(first_refused(v, *new, i as int) && v.rect(i as int)
                                        == free && v.id(i as int) == e.1);
                                }
                                return Err(
                                    OcclusionError::InvariantViolation {
                                        kind,
                                        free,
                                        free_id: e.1,
                                    },
                                );
                            },
                            Ok(_) => {
                                victims.push(i);
                                proof {
                                    if t + 1 < hs.len() {
                                        assert(hs[t as int] < hs[t + 1]);
                                    }
                                }
                                t = t + 1;
                            },
                        }
                    }
                },
                None => {},
            }
            i = i + 1;
        }
        proof {
            lemma_hit_slots(v.slots, *new);
            assert(t == hs.len());
            assert forall|i: int| #[trigger] hit(v, *new, i) implies cut_pieces(
                v.rect(i),
                *new,
            ) is Ok by {
                assert(v.slots[i] is Some);
                assert(hs.contains(i));
                let c = choose|c: int| 0 <= c < hs.len() && hs[c] == i;
                assert(cut_pieces(v.rect(hs[c]), *new) is Ok);
            }
        }
        Ok(victims)
    }

    /// Breaks up the free boxes that the box `new` overlaps until no free
    /// box overlaps it any more. The partition is searched for the boxes
    /// that `new` overlaps. Each of them in turn is removed, and the pieces
    /// of it that stay visible are inserted under new identifiers; pieces
    /// without area are dropped.
    ///
    /// All cuts are worked out before anything is changed. Nothing is
    /// changed if a box overlaps `new` in a refused pattern, or if the
    /// identifier counter has no room for four identifiers for each
    /// overlapped box.
    pub fn cut_space(&mut self, new: &Rect) -> (r: Result<(), OcclusionError>)
        requires
            old(self).inv(),
            new.wf(),
        ensures
            final(self).inv(),
            cut_result(old(self)@, *new, final(self)@, r),
    {
        let mut intersected: Vec<(usize, usize)> = Vec::new();
        self.probe(new, &mut intersected);
        assert(intersected@ =~= slot_hits(self@.slots, *new));
        self.cut_found(&intersected, new)
    }

    /// [`Self::cut_space`] for a caller that holds what the search reported
    /// for `new` on this partition, and so spares the search.
    pub(crate) fn cut_found(&mut self, intersected: &Vec<(usize, usize)>, new: &Rect) -> (r: Result<
        (),
        OcclusionError,
    >)
        requires
            old(self).inv(),
            new.wf(),
            intersected@ == slot_hits(old(self)@.slots, *new),
        ensures
            final(self).inv(),
            cut_result(old(self)@, *new, final(self)@, r),
    {
        let ghost pre = self@;
        let ghost hs = hit_slots(pre.slots, *new);
        let victims = match self.check_cuts(intersected, new) {
            Ok(victims) => victims,
            Err(e) => {
                return Err(e);
            },
        };
        proof {
            self.lemma_inv_wf();
            lemma_hit_slots(pre.slots, *new);
        }
        let room: usize = usize::MAX - self.next_id();
        if intersected.len() > room / 4 {
            return Err(OcclusionError::IdsExhausted);
        }
        let ghost mut fragments: Seq<Rect> = Seq::empty();
        let ghost mut oh: Seq<int> = Seq::empty();
        let ghost mut op: Seq<int> = Seq::empty();
        let mut a: usize = 0;
        while a < victims.len()
            invariant
                self.inv(),
                new.wf(),
                pre.wf(),
                all_accepted(pre, *new),
                hs == hit_slots(pre.slots, *new),
                victims@.len() == hs.len(),
                forall|c: int| 0 <= c < hs.len() ==> #[trigger] victims@[c] == hs[c],
                pre.next_id + 4 * hs.len() <= usize::MAX,
                a <= victims.len(),
                progress(pre, *new, fragments, oh, op, a as int, 0),
                midway(
                    pre,
                    *new,
                    self@,
                    fragments,
                    if a < hs.len() {
                        hs[a as int]
                    } else {
                        pre.slots.len() as int
                    },
                ),
                self@ == cut_slots(pre, *new, hs.take(a as int)),
            decreases victims.len() - a,
        {
            proof {
                lemma_hit_slots(pre.slots, *new);
                self.lemma_inv_wf();
            }
            let s: usize = victims[a];
            let ghost start = self@;
            proof {
                assert(hit(pre, *new, s as int));
                lemma_midway_remove(pre, *new, start, fragments, s as int, s as int);
            }
            let free: Rect = match self.slot(s) {
                Some(e) => e.0,
                None => unreached(),
            };
            let pieces: Vec<Rect> = match cut_box(&free, new) {
                Ok(pieces) => pieces,
                Err(_) => unreached(),
            };
            self.tombstone(s);
            proof {
                lemma_pieces_count(free, *new);
                assert(pieces@.take(0) =~= Seq::<Rect>::empty());
            }
            let mut q: usize = 0;
            while q < pieces.len()
                invariant
                    self.inv(),
                    new.wf(),
                    pre.wf(),
                    hs == hit_slots(pre.slots, *new),
                    pre.next_id + 4 * hs.len() <= usize::MAX,
                    a < hs.len(),
                    s == hs[a as int],
                    hit(pre, *new, s as int),
                    free == pre.rect(s as int),
                    free == start.rect(s as int),
                    pieces@ == pieces_of(free, *new),
                    pieces@.len() <= 4,
                    q <= pieces.len(),
                    progress(pre, *new, fragments, oh, op, a as int, q as int),
                    midway(pre, *new, self@, fragments, s + 1),
                    self@ == insert_all(
                        start.removed(s as int),
                        solid_only(pieces@.take(q as int)),
                    ),
                decreases pieces.len() - q,
            {
                let b: Rect = pieces[q];
                let ghost cur = self@;
                proof {
                    self.lemma_inv_wf();
                    lemma_piece_inside(free, *new, q as int);
                    assert(pieces@.take(q + 1).drop_last() =~= pieces@.take(q as int));
                    assert(pieces@.take(q + 1).last() == b);
                }
                if !b.is_empty() {
                    proof {
                        lemma_progress_push(pre, *new, fragments, oh, op, a as int, q as int, b);
                        let f2 = fragments.push(b);
                        let oh2 = oh.push(a as int);
                        let op2 = op.push(q as int);
                        let t = fragments.len() as int;
                        assert(f2[t] == b && oh2[t] == a);
                        assert forall|i: int| #[trigger] cur.live(i) implies !cur.rect(i).overlaps(
                            b,
                        ) by {
                            if pre.live(i) && !(hit(pre, *new, i) && i < s + 1) && cur.slots[i]
                                == pre.slots[i] {
                                lemma_fragment_clear(
                                    pre,
                                    *new,
                                    f2,
                                    oh2,
                                    op2,
                                    a as int,
                                    q + 1,
                                    t,
                                    i,
                                );
                            } else {
                                let u = choose|u: int|
                                    0 <= u < fragments.len() && #[trigger] fragments[u] == cur.rect(
                                        i,
                                    ) && cur.id(i) == pre.next_id + u;
                                assert(f2[u] == fragments[u]);
                                lemma_fragments_apart(
                                    pre,
                                    *new,
                                    f2,
                                    oh2,
                                    op2,
                                    a as int,
                                    q + 1,
                                    u,
                                    t,
                                );
                            }
                        }
                        assert(!cur.touches(b));
                        lemma_midway_insert(pre, *new, cur, fragments, s + 1, b);
                    }
                    let _ = self.insert(b);
                    proof {
                        fragments = fragments.push(b);
                        oh = oh.push(a as int);
                        op = op.push(q as int);
                        let kept = solid_only(pieces@.take(q as int));
                        assert(solid_only(pieces@.take(q + 1)) == kept.push(b));
                        assert(kept.push(b).drop_last() =~= kept);
                        assert(kept.push(b).last() == b);
                    }
                } else {
                    proof {
                        lemma_progress_skip(pre, *new, fragments, oh, op, a as int, q as int);
                    }
                }
                q = q + 1;
            }
            proof {
                assert(pieces@.take(pieces@.len() as int) =~= pieces@);
                assert(hs.take(a + 1).drop_last() =~= hs.take(a as int));
                assert(hs.take(a + 1).last() == s);
                assert(self@ == cut_slot(start, *new, s as int));
                lemma_progress_next(pre, *new, fragments, oh, op, a as int);
                let bar = if a + 1 < hs.len() {
                    hs[a + 1]
                } else {
                    pre.slots.len() as int
                };
                lemma_midway_raise(pre, *new, self@, fragments, s + 1, bar);
            }
            a = a + 1;
        }
        proof {
            self.lemma_inv_wf();
            assert(hs.take(hs.len() as int) =~= hs);
            lemma_cut_done(pre, *new, self@, fragments, oh, op);
        }
        Ok(())
    }
}

} // verus!
