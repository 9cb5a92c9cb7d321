//! Cutting an occluder out of one free box: the case table that turns the
//! overlap pattern of the two boxes into the pieces of the free box that stay
//! visible, and the geometric laws those pieces obey.

use vstd::prelude::*;
use crate::box_cutting::{
    count_flags, first_flag, one_vertex_intersection, two_vertex_intersection_subdivision,
    BoxExtensions, Rect,
};

verus! {

/// An overlap pattern that the case table has no entry for. The counts are
/// the number of corners of the occluder strictly inside the free box and
/// the number of corners of the free box strictly inside the occluder.
#[derive(Clone, Copy, Debug, PartialEq, Eq, Structural)]
pub enum CutError {
    /// The pair of corner counts is none of (0,4), (4,0), (1,1), (2,0),
    /// (0,2) and (0,0).
    UnexpectedCorners { inside: u8, outside: u8 },
    /// No corner of either box lies in the other, and the occluder crosses
    /// the free box neither vertically nor horizontally. The two crossing
    /// tests never hold together, so this is the one way for them to fail.
    NoCross,
}

/// The part of `f` to the left of `n`, over the full height of `f`.
pub open spec fn left_band(f: Rect, n: Rect) -> Rect {
    Rect { lo_x: f.lo_x, lo_y: f.lo_y, hi_x: n.lo_x, hi_y: f.hi_y }
}

/// The part of `f` to the right of `n`, over the full height of `f`.
pub open spec fn right_band(f: Rect, n: Rect) -> Rect {
    Rect { lo_x: n.hi_x, lo_y: f.lo_y, hi_x: f.hi_x, hi_y: f.hi_y }
}

/// The low end of the interval that `f` and `n` share on the x axis.
pub open spec fn shared_lo_x(f: Rect, n: Rect) -> i64 {
    if f.lo_x >= n.lo_x {
        f.lo_x
    } else {
        n.lo_x
    }
}

/// The high end of the interval that `f` and `n` share on the x axis.
pub open spec fn shared_hi_x(f: Rect, n: Rect) -> i64 {
    if f.hi_x <= n.hi_x {
        f.hi_x
    } else {
        n.hi_x
    }
}

/// The part of `f` below `n`, as wide as the two boxes overlap.
pub open spec fn below_band(f: Rect, n: Rect) -> Rect {
    Rect { lo_x: shared_lo_x(f, n), lo_y: f.lo_y, hi_x: shared_hi_x(f, n), hi_y: n.lo_y }
}

/// The part of `f` above `n`, as wide as the two boxes overlap.
pub open spec fn above_band(f: Rect, n: Rect) -> Rect {
    Rect { lo_x: shared_lo_x(f, n), lo_y: n.hi_y, hi_x: shared_hi_x(f, n), hi_y: f.hi_y }
}

/// The occluder is a vertical strip through `f`: its width lies strictly
/// inside the width of `f`, and its height strictly contains the height of
/// `f`. No edge of the one coincides with an edge of the other.
pub open spec fn vertical_cross(f: Rect, n: Rect) -> bool {
    f.lo_x < n.lo_x && n.hi_x < f.hi_x && n.lo_y < f.lo_y && f.hi_y < n.hi_y
}

/// The occluder is a horizontal strip through `f`: its height lies strictly
/// inside the height of `f`, and its width strictly contains the width of
/// `f`. No edge of the one coincides with an edge of the other.
pub open spec fn horizontal_cross(f: Rect, n: Rect) -> bool {
    f.lo_y < n.lo_y && n.hi_y < f.hi_y && n.lo_x < f.lo_x && f.hi_x < n.hi_x
}

/// Which corners of `n` lie strictly inside `f`.
pub open spec fn corners_inside(f: Rect, n: Rect) -> Seq<bool> {
    f.corner_flags((n.lo_x, n.lo_y), (n.hi_x, n.hi_y))
}

/// The pieces for an occluder with exactly one corner, number `k`, inside `f`.
pub open spec fn corner_pieces(f: Rect, n: Rect, k: int) -> Seq<Rect> {
    if k == 0 {
        seq![left_band(f, n), below_band(f, n)]
    } else if k == 1 {
        seq![left_band(f, n), above_band(f, n)]
    } else if k == 2 {
        seq![above_band(f, n), right_band(f, n)]
    } else {
        seq![below_band(f, n), right_band(f, n)]
    }
}

/// The pieces for an occluder that comes in through one edge of `f`, with
/// the two corners named by `flags` inside `f`.
pub open spec fn edge_pieces(f: Rect, n: Rect, flags: Seq<bool>) -> Seq<Rect> {
    if flags[0] && flags[1] {
        seq![left_band(f, n), above_band(f, n), below_band(f, n)]
    } else if flags[1] && flags[2] {
        seq![left_band(f, n), above_band(f, n), right_band(f, n)]
    } else if flags[2] && flags[3] {
        seq![above_band(f, n), right_band(f, n), below_band(f, n)]
    } else {
        seq![left_band(f, n), below_band(f, n), right_band(f, n)]
    }
}

/// The one piece left of `f` when the occluder swallows the two corners of
/// `f` named by `flags`.
pub open spec fn sliver_piece(f: Rect, n: Rect, flags: Seq<bool>) -> Rect {
    if flags[0] && flags[1] {
        right_band(f, n)
    } else if flags[1] && flags[2] {
        below_band(f, n)
    } else if flags[2] && flags[3] {
        left_band(f, n)
    } else {
        above_band(f, n)
    }
}

/// What cutting the occluder `n` out of the free box `f` emits: the pieces
/// in the order they are inserted, zero-area ones included, or the reason
/// why the overlap pattern is refused.
pub open spec fn cut_pieces(f: Rect, n: Rect) -> Result<Seq<Rect>, CutError> {
    let inner = corners_inside(f, n);
    let outer = corners_inside(n, f);
    let c_in = count_flags(inner);
    let c_out = count_flags(outer);
    if c_in == 0 && c_out == 4 {
        Ok(Seq::empty())
    } else if c_in == 4 && c_out == 0 {
        Ok(seq![left_band(f, n), above_band(f, n), below_band(f, n), right_band(f, n)])
    } else if c_in == 1 && c_out == 1 {
        Ok(corner_pieces(f, n, first_flag(inner)))
    } else if c_in == 2 && c_out == 0 {
        Ok(edge_pieces(f, n, inner))
    } else if c_in == 0 && c_out == 2 {
        Ok(seq![sliver_piece(f, n, outer)])
    } else if c_in == 0 && c_out == 0 {
        if vertical_cross(f, n) {
            Ok(seq![left_band(f, n), right_band(f, n)])
        } else if horizontal_cross(f, n) {
            Ok(seq![above_band(f, n), below_band(f, n)])
        } else {
            Err(CutError::NoCross)
        }
    } else {
        Err(CutError::UnexpectedCorners { inside: c_in as u8, outside: c_out as u8 })
    }
}

/// Counts the corners flagged in `flags`.
pub fn count_corners(flags: &[bool; 4]) -> (r: u8)
    ensures
        r == count_flags(flags@),
{
    let mut r: u8 = 0;
    if flags[0] {
        r = r + 1;
    }
    if flags[1] {
        r = r + 1;
    }
    if flags[2] {
        r = r + 1;
    }
    if flags[3] {
        r = r + 1;
    }
    r
}

/// The position of the first flagged corner, or 4 if none is flagged.
pub fn first_corner(flags: &[bool; 4]) -> (r: usize)
    ensures
        r == first_flag(flags@),
{
    if flags[0] {
        0
    } else if flags[1] {
        1
    } else if flags[2] {
        2
    } else if flags[3] {
        3
    } else {
        4
    }
}

/// Cuts the occluder `new` out of the free box `free`.
///
/// The overlap pattern is classified by the number of corners of each box
/// that lie strictly inside the other. The result lists the pieces of `free`
/// that stay visible, in insertion order; a piece may have zero area. A
/// pattern outside the case table is refused.
pub fn cut_box(free: &Rect, new: &Rect) -> (r: Result<Vec<Rect>, CutError>)
    requires
        new.wf(),
    ensures
        r is Ok == cut_pieces(*free, *new) is Ok,
        r matches Ok(v) ==> cut_pieces(*free, *new) == Ok::<Seq<Rect>, CutError>(v@),
        r matches Err(e) ==> cut_pieces(*free, *new) == Err::<Seq<Rect>, CutError>(e),
{
    let free_min = (free.lo_x, free.lo_y);
    let free_max = (free.hi_x, free.hi_y);
    let new_min = (new.lo_x, new.lo_y);
    let new_max = (new.hi_x, new.hi_y);
    let new_verts_in_free = free.identify_intersection_case(new_min, new_max);
    let free_verts_in_new = new.identify_intersection_case(free_min, free_max);
    let new_in_free_count = count_corners(&new_verts_in_free);
    let free_in_new_count = count_corners(&free_verts_in_new);
    let mut pieces: Vec<Rect> = Vec::new();
    if new_in_free_count == 0 && free_in_new_count == 4 {
        assert(pieces@ =~= Seq::<Rect>::empty());
    } else if new_in_free_count == 4 && free_in_new_count == 0 {
        pieces.push(Rect::new([free_min.0, free_min.1], [new_min.0, free_max.1]));
        pieces.push(Rect::new([new_min.0, new_max.1], [new_max.0, free_max.1]));
        pieces.push(Rect::new([new_min.0, free_min.1], [new_max.0, new_min.1]));
        pieces.push(Rect::new([new_max.0, free_min.1], [free_max.0, free_max.1]));
        assert(pieces@ =~= seq![
            left_band(*free, *new),
            above_band(*free, *new),
            below_band(*free, *new),
            right_band(*free, *new),
        ]);
    } else if new_in_free_count == 1 && free_in_new_count == 1 {
        let rotation = first_corner(&new_verts_in_free);
        let (b1, b2) = one_vertex_intersection(free_min, free_max, new_min, new_max, rotation);
        pieces.push(b1);
        pieces.push(b2);
        assert(pieces@ =~= corner_pieces(*free, *new, rotation as int));
    } else if new_in_free_count == 2 && free_in_new_count == 0 {
        let (b, space) = two_vertex_intersection_subdivision(
            new_min,
            new_max,
            free_min,
            free_max,
            new_verts_in_free,
            false,
        );
        pieces.push(b);
        match space {
            None => {},
            Some(boxes) => {
                pieces.push(boxes[0]);
                pieces.push(boxes[1]);
            },
        }
        assert(pieces@ =~= edge_pieces(*free, *new, new_verts_in_free@));
    } else if new_in_free_count == 0 && free_in_new_count == 2 {
        let (b, space) = two_vertex_intersection_subdivision(
            free_min,
            free_max,
            new_min,
            new_max,
            free_verts_in_new,
            true,
        );
        pieces.push(b);
        match space {
            None => {},
            Some(boxes) => {
                pieces.push(boxes[0]);
                pieces.push(boxes[1]);
            },
        }
        assert(pieces@ =~= seq![sliver_piece(*free, *new, free_verts_in_new@)]);
    } else if new_in_free_count == 0 && free_in_new_count == 0 {
        let vertical = free_min.0 < new_min.0 && new_max.0 < free_max.0 && new_min.1 < free_min.1
            && free_max.1 < new_max.1;
        let horizontal = free_min.1 < new_min.1 && new_max.1 < free_max.1 && new_min.0
            < free_min.0 && free_max.0 < new_max.0;
        if vertical {
            pieces.push(Rect::new([free_min.0, free_min.1], [new_min.0, free_max.1]));
            pieces.push(Rect::new([new_max.0, free_min.1], [free_max.0, free_max.1]));
            assert(pieces@ =~= seq![left_band(*free, *new), right_band(*free, *new)]);
        } else if horizontal {
            pieces.push(Rect::new([free_min.0, new_max.1], [free_max.0, free_max.1]));
            pieces.push(Rect::new([free_min.0, free_min.1], [free_max.0, new_min.1]));
            assert(pieces@ =~= seq![above_band(*free, *new), below_band(*free, *new)]);
        } else {
            return Err(CutError::NoCross);
        }
    } else {
        return Err(
            CutError::UnexpectedCorners { inside: new_in_free_count, outside: free_in_new_count },
        );
    }
    Ok(pieces)
}

/// The pieces of a successful cut; empty where the cut is refused.
pub open spec fn pieces_of(f: Rect, n: Rect) -> Seq<Rect> {
    match cut_pieces(f, n) {
        Ok(ps) => ps,
        Err(_) => Seq::empty(),
    }
}

/// Some box of `ps` covers the cell at `(x, y)`.
pub open spec fn some_covers(ps: Seq<Rect>, x: int, y: int) -> bool {
    exists|i: int| 0 <= i < ps.len() && (#[trigger] ps[i]).covers(x, y)
}

/// `b` is one of the pieces of positive area that cutting `n` out of `f`
/// leaves.
pub open spec fn is_fragment(b: Rect, f: Rect, n: Rect) -> bool {
    exists|i: int| 0 <= i < pieces_of(f, n).len() && #[trigger] pieces_of(f, n)[i] == b && b.solid()
}

/// On neither axis do the two boxes share a low boundary or a high
/// boundary.
pub open spec fn edges_apart(f: Rect, n: Rect) -> bool {
    n.lo_x != f.lo_x && n.hi_x != f.hi_x && n.lo_y != f.lo_y && n.hi_y != f.hi_y
}

/// A cut is refused only where the occluder shares a boundary with the free
/// box: overlapping boxes whose boundaries all differ are always cut.
pub proof fn lemma_apart_is_accepted(f: Rect, n: Rect)
    requires
        f.solid(),
        n.wf(),
        f.overlaps(n),
        edges_apart(f, n),
    ensures
        cut_pieces(f, n) is Ok,
{
}

/// The two crossing tests never hold together: of the outcomes "both" and
/// "neither", only "neither" can come about.
pub proof fn lemma_cross_tests_exclude(f: Rect, n: Rect)
    ensures
        !(vertical_cross(f, n) && horizontal_cross(f, n)),
{
}

/// Where no corner of either box lies strictly inside the other, a cut is
/// refused exactly if the overlapping boxes share a boundary on some axis.
pub proof fn lemma_no_cross_is_flush(f: Rect, n: Rect)
    requires
        f.solid(),
        n.wf(),
        f.overlaps(n),
        count_flags(corners_inside(f, n)) == 0,
        count_flags(corners_inside(n, f)) == 0,
    ensures
        cut_pieces(f, n) == Err::<Seq<Rect>, _>(CutError::NoCross) <==> !edges_apart(f, n),
{
}

/// The number of corners of one box strictly inside another is never 3.
pub proof fn lemma_never_three_corners(f: Rect, n: Rect)
    ensures
        count_flags(corners_inside(f, n)) == 0 || count_flags(corners_inside(f, n)) == 1
            || count_flags(corners_inside(f, n)) == 2 || count_flags(corners_inside(f, n)) == 4,
{
}

/// Between overlapping boxes the only corner counts without an entry in the
/// table are one corner on one side and none on the other.
pub proof fn lemma_unexpected_corners(f: Rect, n: Rect, inside: u8, outside: u8)
    requires
        f.solid(),
        n.wf(),
        f.overlaps(n),
        cut_pieces(f, n) == Err::<Seq<Rect>, _>(CutError::UnexpectedCorners { inside, outside }),
    ensures
        (inside == 1 && outside == 0) || (inside == 0 && outside == 1),
        !edges_apart(f, n),
{
}

/// A cut emits at most four pieces.
pub proof fn lemma_pieces_count(f: Rect, n: Rect)
    ensures
        pieces_of(f, n).len() <= 4,
{
}

/// Every piece of a cut is a well-formed box that lies inside the free box
/// and does not overlap the occluder.
pub proof fn lemma_piece_inside(f: Rect, n: Rect, i: int)
    requires
        f.solid(),
        n.wf(),
        f.overlaps(n),
        0 <= i < pieces_of(f, n).len(),
    ensures
        pieces_of(f, n)[i].wf(),
        pieces_of(f, n)[i].within(f),
        !pieces_of(f, n)[i].overlaps(n),
{
}

/// Two different pieces of one cut do not overlap.
pub proof fn lemma_pieces_disjoint(f: Rect, n: Rect, i: int, j: int)
    requires
        f.solid(),
        n.wf(),
        f.overlaps(n),
        0 <= i < pieces_of(f, n).len(),
        0 <= j < pieces_of(f, n).len(),
        i != j,
    ensures
        !pieces_of(f, n)[i].overlaps(pieces_of(f, n)[j]),
{
}

/// The pieces of a successful cut tile what the occluder leaves of the free
/// box: a cell belongs to some piece exactly if it belongs to the free box
/// and not to the occluder.
pub proof fn lemma_pieces_cover(f: Rect, n: Rect, x: int, y: int)
    requires
        f.solid(),
        n.wf(),
        f.overlaps(n),
        cut_pieces(f, n) is Ok,
    ensures
        some_covers(pieces_of(f, n), x, y) <==> f.covers(x, y) && !n.covers(x, y),
{
    let ps = pieces_of(f, n);
    if some_covers(ps, x, y) {
        let i = choose|i: int| 0 <= i < ps.len() && (#[trigger] ps[i]).covers(x, y);
        lemma_piece_inside(f, n, i);
    }
    if f.covers(x, y) && !n.covers(x, y) {
        if ps.len() > 0 && ps[0].covers(x, y) {
        } else if ps.len() > 1 && ps[1].covers(x, y) {
        } else if ps.len() > 2 && ps[2].covers(x, y) {
        } else if ps.len() > 3 && ps[3].covers(x, y) {
        } else {
            assert(false);
        }
    }
}

/// A box inside `f` and a box inside `g` do not overlap unless `f` and `g` do.
pub proof fn lemma_within_keeps_apart(a: Rect, f: Rect, b: Rect, g: Rect)
    requires
        a.within(f),
        b.within(g),
        !f.overlaps(g),
    ensures
        !a.overlaps(b),
{
}

} // verus!
