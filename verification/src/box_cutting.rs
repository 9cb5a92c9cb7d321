//! Axis-aligned boxes on an integer grid and the corner tests used to
//! classify how two of them overlap.

use vstd::prelude::*;

verus! {

/// Coordinates accepted by [`BoxExtensions::safe_new`] are strictly below
/// this bound in absolute value.
pub const SAFE_LIMIT: i64 = 100;

/// An axis-aligned rectangle: the product of the half-open intervals
/// `[lo_x, hi_x)` and `[lo_y, hi_y)`.
#[derive(Clone, Copy, Debug, PartialEq, Eq, Structural)]
pub struct Rect {
    pub lo_x: i64,
    pub lo_y: i64,
    pub hi_x: i64,
    pub hi_y: i64,
}

/// The box type under the name that the buffer's interface uses.
#[allow(non_camel_case_types)]
pub type BOX = Rect;

impl Rect {
    /// The low boundary does not exceed the high one on either axis.
    pub open spec fn wf(self) -> bool {
        self.lo_x <= self.hi_x && self.lo_y <= self.hi_y
    }

    /// Zero extent on at least one axis.
    pub open spec fn is_degenerate(self) -> bool {
        self.lo_x == self.hi_x || self.lo_y == self.hi_y
    }

    /// Positive extent on both axes: the box covers at least one cell.
    pub open spec fn solid(self) -> bool {
        self.lo_x < self.hi_x && self.lo_y < self.hi_y
    }

    /// The unit cell whose lower-left corner is `(x, y)` belongs to the box.
    pub open spec fn covers(self, x: int, y: int) -> bool {
        self.lo_x <= x < self.hi_x && self.lo_y <= y < self.hi_y
    }

    /// The two boxes intersect on both axes. For solid boxes this is the same
    /// as sharing a cell, that is, as an intersection of positive area.
    pub open spec fn overlaps(self, other: Rect) -> bool {
        &&& self.lo_x < other.hi_x
        &&& other.lo_x < self.hi_x
        &&& self.lo_y < other.hi_y
        &&& other.lo_y < self.hi_y
    }

    /// The point `(x, y)` lies strictly inside the box; the boundary does not
    /// count.
    pub open spec fn has_inside(self, x: int, y: int) -> bool {
        self.lo_x < x < self.hi_x && self.lo_y < y < self.hi_y
    }

    /// All four corners of `b` lie strictly inside the box.
    pub open spec fn encloses(self, b: Rect) -> bool {
        &&& self.has_inside(b.lo_x as int, b.lo_y as int)
        &&& self.has_inside(b.lo_x as int, b.hi_y as int)
        &&& self.has_inside(b.hi_x as int, b.hi_y as int)
        &&& self.has_inside(b.hi_x as int, b.lo_y as int)
    }

    /// The box lies inside `outer`; shared edges are allowed.
    pub open spec fn within(self, outer: Rect) -> bool {
        &&& outer.lo_x <= self.lo_x
        &&& self.hi_x <= outer.hi_x
        &&& outer.lo_y <= self.lo_y
        &&& self.hi_y <= outer.hi_y
    }

    /// Which corners of the box spanned by `min` and `max` lie strictly inside
    /// `self`, in the order lower-left, upper-left, upper-right, lower-right.
    pub open spec fn corner_flags(self, min: (i64, i64), max: (i64, i64)) -> Seq<bool> {
        seq![
            self.has_inside(min.0 as int, min.1 as int),
            self.has_inside(min.0 as int, max.1 as int),
            self.has_inside(max.0 as int, max.1 as int),
            self.has_inside(max.0 as int, min.1 as int),
        ]
    }

    /// A box with the given low and high boundaries, indexed by axis.
    pub fn new(min: [i64; 2], max: [i64; 2]) -> (r: Rect)
        ensures
            r == (Rect { lo_x: min[0], lo_y: min[1], hi_x: max[0], hi_y: max[1] }),
    {
        Rect { lo_x: min[0], lo_y: min[1], hi_x: max[0], hi_y: max[1] }
    }

    /// The low boundary on axis `dim`.
    pub fn lo(&self, dim: usize) -> (r: i64)
        requires
            dim < 2,
        ensures
            r == (if dim == 0 { self.lo_x } else { self.lo_y }),
    {
        if dim == 0 {
            self.lo_x
        } else {
            self.lo_y
        }
    }

    /// The high boundary on axis `dim`.
    pub fn hi(&self, dim: usize) -> (r: i64)
        requires
            dim < 2,
        ensures
            r == (if dim == 0 { self.hi_x } else { self.hi_y }),
    {
        if dim == 0 {
            self.hi_x
        } else {
            self.hi_y
        }
    }

    /// Whether the low boundary stays at or below the high one on both axes.
    pub fn is_valid(&self) -> (r: bool)
        ensures
            r == self.wf(),
    {
        self.lo_x <= self.hi_x && self.lo_y <= self.hi_y
    }

    /// Whether the box lies inside `outer`, shared edges allowed.
    pub fn is_within(&self, outer: &Rect) -> (r: bool)
        ensures
            r == self.within(*outer),
    {
        outer.lo_x <= self.lo_x && self.hi_x <= outer.hi_x && outer.lo_y <= self.lo_y && self.hi_y
            <= outer.hi_y
    }

    /// Whether the two boxes intersect on both axes.
    pub fn intersects(&self, other: &Rect) -> (r: bool)
        ensures
            r == self.overlaps(*other),
    {
        self.lo_x < other.hi_x && other.lo_x < self.hi_x && self.lo_y < other.hi_y && other.lo_y
            < self.hi_y
    }
}

/// 1 for a flag that is set, 0 for one that is not.
pub open spec fn one_if(flag: bool) -> int {
    if flag {
        1
    } else {
        0
    }
}

/// The number of `true` entries among the first four of `flags`.
pub open spec fn count_flags(flags: Seq<bool>) -> int {
    one_if(flags[0]) + one_if(flags[1]) + one_if(flags[2]) + one_if(flags[3])
}

/// Corner tests and constructors that boxes offer to the cutting code.
pub trait BoxExtensions: Sized {
    /// Checks which of the four corners of the box spanned by `min_vertex`
    /// and `max_vertex` lie strictly inside `self`. The order of the answers
    /// is lower-left, upper-left, upper-right, lower-right.
    fn identify_intersection_case(
        &self,
        min_vertex: (i64, i64),
        max_vertex: (i64, i64),
    ) -> [bool; 4];

    /// Checks whether all four corners of `b` lie strictly inside `self`.
    fn contains(&self, b: Self) -> bool;

    /// Checks whether the box has zero extent on some axis.
    fn is_empty(&self) -> bool;

    /// Builds a box whose coordinates all stay strictly inside
    /// `(-SAFE_LIMIT, SAFE_LIMIT)`.
    fn safe_new(a: [i64; 2], b: [i64; 2]) -> Self
        requires
            -SAFE_LIMIT < a[0] < SAFE_LIMIT,
            -SAFE_LIMIT < a[1] < SAFE_LIMIT,
            -SAFE_LIMIT < b[0] < SAFE_LIMIT,
            -SAFE_LIMIT < b[1] < SAFE_LIMIT,
    ;

    /// Checks whether the point `v` lies strictly inside the box.
    fn contains_point(&self, v: [i64; 2]) -> bool;
}

impl BoxExtensions for Rect {
    fn safe_new(min: [i64; 2], max: [i64; 2]) -> (r: Rect)
        ensures
            r == (Rect { lo_x: min[0], lo_y: min[1], hi_x: max[0], hi_y: max[1] }),
    {
        Rect::new(min, max)
    }

    fn contains_point(&self, v: [i64; 2]) -> (r: bool)
        ensures
            r == self.has_inside(v[0] as int, v[1] as int),
    {
        self.lo_x < v[0] && v[0] < self.hi_x && self.lo_y < v[1] && v[1] < self.hi_y
    }

    fn identify_intersection_case(
        &self,
        min_vertex: (i64, i64),
        max_vertex: (i64, i64),
    ) -> (r: [bool; 4])
        ensures
            r@ == self.corner_flags(min_vertex, max_vertex),
    {
        let r = [
            self.contains_point([min_vertex.0, min_vertex.1]),
            self.contains_point([min_vertex.0, max_vertex.1]),
            self.contains_point([max_vertex.0, max_vertex.1]),
            self.contains_point([max_vertex.0, min_vertex.1]),
        ];
        assert(r@ =~= self.corner_flags(min_vertex, max_vertex));
        r
    }

    fn contains(&self, b: Rect) -> (r: bool)
        ensures
            r == self.encloses(b),
    {
        let c = self.identify_intersection_case((b.lo_x, b.lo_y), (b.hi_x, b.hi_y));
        c[0] && c[1] && c[2] && c[3]
    }

    fn is_empty(&self) -> (r: bool)
        ensures
            r == self.is_degenerate(),
    {
        self.lo_x == self.hi_x || self.lo_y == self.hi_y
    }
}

/// The box with lower-left corner `min` and upper-right corner `max`.
pub open spec fn span(min: (i64, i64), max: (i64, i64)) -> Rect {
    Rect { lo_x: min.0, lo_y: min.1, hi_x: max.0, hi_y: max.1 }
}

/// The index of the first `true` entry among the first four of `flags`, or 4
/// if there is none.
pub open spec fn first_flag(flags: Seq<bool>) -> int {
    if flags[0] {
        0
    } else if flags[1] {
        1
    } else if flags[2] {
        2
    } else if flags[3] {
        3
    } else {
        4
    }
}

/// Two neighbouring corners are both flagged.
pub open spec fn adjacent_pair_flagged(flags: Seq<bool>) -> bool {
    ||| flags[0] && flags[1]
    ||| flags[1] && flags[2]
    ||| flags[2] && flags[3]
    ||| flags[0] && flags[3]
}

/// The two boxes left of `f` when `n` takes away one of its corners.
/// `rotation` names the corner of `n` that lies inside `f`: 0 lower-left,
/// 1 upper-left, 2 upper-right, 3 lower-right.
pub open spec fn one_vertex_pieces(f: Rect, n: Rect, rotation: int) -> (Rect, Rect) {
    if rotation == 0 {
        (
            Rect { lo_x: f.lo_x, lo_y: f.lo_y, hi_x: n.lo_x, hi_y: f.hi_y },
            Rect { lo_x: n.lo_x, lo_y: f.lo_y, hi_x: f.hi_x, hi_y: n.lo_y },
        )
    } else if rotation == 1 {
        (
            Rect { lo_x: f.lo_x, lo_y: f.lo_y, hi_x: n.lo_x, hi_y: f.hi_y },
            Rect { lo_x: n.lo_x, lo_y: n.hi_y, hi_x: f.hi_x, hi_y: f.hi_y },
        )
    } else if rotation == 2 {
        (
            Rect { lo_x: f.lo_x, lo_y: n.hi_y, hi_x: n.hi_x, hi_y: f.hi_y },
            Rect { lo_x: n.hi_x, lo_y: f.lo_y, hi_x: f.hi_x, hi_y: f.hi_y },
        )
    } else {
        (
            Rect { lo_x: f.lo_x, lo_y: f.lo_y, hi_x: n.hi_x, hi_y: n.lo_y },
            Rect { lo_x: n.hi_x, lo_y: f.lo_y, hi_x: f.hi_x, hi_y: f.hi_y },
        )
    }
}

/// The boxes left of `f` when two neighbouring corners of `n`, named by
/// `flags`, lie inside it: one band on the far side of `n` and the two
/// boxes that flank `n` along the edge it comes in through.
pub open spec fn two_vertex_pieces(n: Rect, f: Rect, flags: Seq<bool>) -> (Rect, Rect, Rect) {
    if flags[0] && flags[1] {
        (
            Rect { lo_x: f.lo_x, lo_y: f.lo_y, hi_x: n.lo_x, hi_y: f.hi_y },
            Rect { lo_x: n.lo_x, lo_y: n.hi_y, hi_x: f.hi_x, hi_y: f.hi_y },
            Rect { lo_x: n.lo_x, lo_y: f.lo_y, hi_x: f.hi_x, hi_y: n.lo_y },
        )
    } else if flags[1] && flags[2] {
        (
            Rect { lo_x: f.lo_x, lo_y: f.lo_y, hi_x: n.lo_x, hi_y: f.hi_y },
            Rect { lo_x: n.lo_x, lo_y: n.hi_y, hi_x: n.hi_x, hi_y: f.hi_y },
            Rect { lo_x: n.hi_x, lo_y: f.lo_y, hi_x: f.hi_x, hi_y: f.hi_y },
        )
    } else if flags[2] && flags[3] {
        (
            Rect { lo_x: f.lo_x, lo_y: n.hi_y, hi_x: n.hi_x, hi_y: f.hi_y },
            Rect { lo_x: n.hi_x, lo_y: f.lo_y, hi_x: f.hi_x, hi_y: f.hi_y },
            Rect { lo_x: f.lo_x, lo_y: f.lo_y, hi_x: n.hi_x, hi_y: n.lo_y },
        )
    } else {
        (
            Rect { lo_x: f.lo_x, lo_y: f.lo_y, hi_x: n.lo_x, hi_y: f.hi_y },
            Rect { lo_x: n.lo_x, lo_y: f.lo_y, hi_x: n.hi_x, hi_y: n.lo_y },
            Rect { lo_x: n.hi_x, lo_y: f.lo_y, hi_x: f.hi_x, hi_y: f.hi_y },
        )
    }
}

/// The part of `n` that sticks out of `f` when two neighbouring corners of
/// `n`, named by `flags`, lie inside `f`.
pub open spec fn two_vertex_sliver(n: Rect, f: Rect, flags: Seq<bool>) -> Rect {
    if flags[0] && flags[1] {
        Rect { lo_x: f.hi_x, lo_y: n.lo_y, hi_x: n.hi_x, hi_y: n.hi_y }
    } else if flags[1] && flags[2] {
        Rect { lo_x: n.lo_x, lo_y: n.lo_y, hi_x: n.hi_x, hi_y: f.lo_y }
    } else if flags[2] && flags[3] {
        Rect { lo_x: n.lo_x, lo_y: n.lo_y, hi_x: f.lo_x, hi_y: n.hi_y }
    } else {
        Rect { lo_x: n.lo_x, lo_y: f.hi_y, hi_x: n.hi_x, hi_y: n.hi_y }
    }
}

/// Subdivides the free box spanned by `free_min` and `free_max` when exactly
/// one corner of the new box lies inside it. `rotation` is the index of that
/// corner in the order lower-left, upper-left, upper-right, lower-right.
pub fn one_vertex_intersection(
    free_min: (i64, i64),
    free_max: (i64, i64),
    new_min: (i64, i64),
    new_max: (i64, i64),
    rotation: usize,
) -> (r: (BOX, BOX))
    requires
        rotation < 4,
    ensures
        r == one_vertex_pieces(span(free_min, free_max), span(new_min, new_max), rotation as int),
{
    if rotation == 0 {
        (
            Rect::new([free_min.0, free_min.1], [new_min.0, free_max.1]),
            Rect::new([new_min.0, free_min.1], [free_max.0, new_min.1]),
        )
    } else if rotation == 1 {
        (
            Rect::new([free_min.0, free_min.1], [new_min.0, free_max.1]),
            Rect::new([new_min.0, new_max.1], [free_max.0, free_max.1]),
        )
    } else if rotation == 2 {
        (
            Rect::new([free_min.0, new_max.1], [new_max.0, free_max.1]),
            Rect::new([new_max.0, free_min.1], [free_max.0, free_max.1]),
        )
    } else {
        (
            Rect::new([free_min.0, free_min.1], [new_max.0, new_min.1]),
            Rect::new([new_max.0, free_min.1], [free_max.0, free_max.1]),
        )
    }
}

/// Produces the subdivision for the case where two neighbouring corners of
/// the box spanned by `new_min` and `new_max` lie inside the box spanned by
/// `free_min` and `free_max`; `new_verts_in_free` says which.
///
/// With `reverse` unset the result is what is left of the second box: a band
/// and the two boxes flanking the first box. With `reverse` set the roles of
/// the boxes are swapped by the caller, and the result is the single part of
/// the first box that sticks out of the second.
pub fn two_vertex_intersection_subdivision(
    new_min: (i64, i64),
    new_max: (i64, i64),
    free_min: (i64, i64),
    free_max: (i64, i64),
    new_verts_in_free: [bool; 4],
    reverse: bool,
) -> (r: (BOX, Option<[BOX; 2]>))
    requires
        adjacent_pair_flagged(new_verts_in_free@),
    ensures
        reverse ==> r.0 == two_vertex_sliver(
            span(new_min, new_max),
            span(free_min, free_max),
            new_verts_in_free@,
        ) && r.1 is None,
        !reverse ==> r.1 is Some && (r.0, r.1.unwrap()@[0], r.1.unwrap()@[1]) == two_vertex_pieces(
            span(new_min, new_max),
            span(free_min, free_max),
            new_verts_in_free@,
        ),
{
    if new_verts_in_free[0] && new_verts_in_free[1] {
        if reverse {
            return (Rect::new([free_max.0, new_min.1], [new_max.0, new_max.1]), None);
        }
        (
            Rect::new([free_min.0, free_min.1], [new_min.0, free_max.1]),
            Some(
                [
                    Rect::new([new_min.0, new_max.1], [free_max.0, free_max.1]),
                    Rect::new([new_min.0, free_min.1], [free_max.0, new_min.1]),
                ],
            ),
        )
    } else if new_verts_in_free[1] && new_verts_in_free[2] {
        if reverse {
            return (Rect::new([new_min.0, new_min.1], [new_max.0, free_min.1]), None);
        }
        (
            Rect::new([free_min.0, free_min.1], [new_min.0, free_max.1]),
            Some(
                [
                    Rect::new([new_min.0, new_max.1], [new_max.0, free_max.1]),
                    Rect::new([new_max.0, free_min.1], [free_max.0, free_max.1]),
                ],
            ),
        )
    } else if new_verts_in_free[2] && new_verts_in_free[3] {
        if reverse {
            return (Rect::new([new_min.0, new_min.1], [free_min.0, new_max.1]), None);
        }
        (
            Rect::new([free_min.0, new_max.1], [new_max.0, free_max.1]),
            Some(
                [
                    Rect::new([new_max.0, free_min.1], [free_max.0, free_max.1]),
                    Rect::new([free_min.0, free_min.1], [new_max.0, new_min.1]),
                ],
            ),
        )
    } else {
        if reverse {
            return (Rect::new([new_min.0, free_max.1], [new_max.0, new_max.1]), None);
        }
        (
            Rect::new([free_min.0, free_min.1], [new_min.0, free_max.1]),
            Some(
                [
                    Rect::new([new_min.0, free_min.1], [new_max.0, new_min.1]),
                    Rect::new([new_max.0, free_min.1], [free_max.0, free_max.1]),
                ],
            ),
        )
    }
}

/// Where exactly one corner of `n`, number `rotation`, lies strictly inside
/// `f`, and one corner of `f` inside `n`, the two boxes of
/// [`one_vertex_pieces`] tile what `n` leaves of `f`: they do not overlap,
/// and a cell belongs to one of them exactly if it belongs to `f` and not
/// to `n`.
pub proof fn lemma_one_vertex_tiles(f: Rect, n: Rect, rotation: int, x: int, y: int)
    requires
        f.wf(),
        n.wf(),
        count_flags(f.corner_flags((n.lo_x, n.lo_y), (n.hi_x, n.hi_y))) == 1,
        count_flags(n.corner_flags((f.lo_x, f.lo_y), (f.hi_x, f.hi_y))) == 1,
        rotation == first_flag(f.corner_flags((n.lo_x, n.lo_y), (n.hi_x, n.hi_y))),
    ensures
        ({
            let (a, b) = one_vertex_pieces(f, n, rotation);
            &&& !a.overlaps(b)
            &&& a.covers(x, y) || b.covers(x, y) <==> f.covers(x, y) && !n.covers(x, y)
        }),
{
}

/// Where exactly two corners of `n`, neighbours named by `flags`, lie
/// strictly inside `f` and no corner of `f` inside `n`, the three boxes of
/// [`two_vertex_pieces`] tile what `n` leaves of `f`.
pub proof fn lemma_two_vertex_tiles(n: Rect, f: Rect, flags: Seq<bool>, x: int, y: int)
    requires
        f.wf(),
        n.wf(),
        flags == f.corner_flags((n.lo_x, n.lo_y), (n.hi_x, n.hi_y)),
        count_flags(flags) == 2,
        count_flags(n.corner_flags((f.lo_x, f.lo_y), (f.hi_x, f.hi_y))) == 0,
    ensures
        ({
            let (a, b, c) = two_vertex_pieces(n, f, flags);
            &&& !a.overlaps(b)
            &&& !a.overlaps(c)
            &&& !b.overlaps(c)
            &&& a.covers(x, y) || b.covers(x, y) || c.covers(x, y) <==> f.covers(x, y) && !n.covers(
                x,
                y,
            )
        }),
{
}

/// Where exactly two corners of `n`, neighbours named by `flags`, lie
/// strictly inside `f` and no corner of `f` inside `n`, the box of
/// [`two_vertex_sliver`] is what `f` leaves of `n`.
pub proof fn lemma_two_vertex_sliver(n: Rect, f: Rect, flags: Seq<bool>, x: int, y: int)
    requires
        f.wf(),
        n.wf(),
        flags == f.corner_flags((n.lo_x, n.lo_y), (n.hi_x, n.hi_y)),
        count_flags(flags) == 2,
        count_flags(n.corner_flags((f.lo_x, f.lo_y), (f.hi_x, f.hi_y))) == 0,
    ensures
        two_vertex_sliver(n, f, flags).covers(x, y) <==> n.covers(x, y) && !f.covers(x, y),
{
}

} // verus!
