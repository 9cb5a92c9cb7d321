use aabb_occlusion_culling::box_cutting::{
    one_vertex_intersection, two_vertex_intersection_subdivision, BoxExtensions, Rect,
};
use aabb_occlusion_culling::cutter::{count_corners, cut_box, first_corner, CutError};
use aabb_occlusion_culling::BOX;

fn rect(lo_x: i64, lo_y: i64, hi_x: i64, hi_y: i64) -> Rect {
    Rect { lo_x, lo_y, hi_x, hi_y }
}

fn unit() -> Rect {
    rect(0, 0, 10, 10)
}

#[test]
fn new_keeps_the_boundaries_by_axis() {
    let b = BOX::new([1, 2], [3, 4]);
    assert_eq!(b, rect(1, 2, 3, 4));
    assert_eq!((b.lo(0), b.lo(1), b.hi(0), b.hi(1)), (1, 2, 3, 4));
}

#[test]
fn safe_new_builds_the_same_box_as_new() {
    let b = <Rect as BoxExtensions>::safe_new([-99, 0], [5, 99]);
    assert_eq!(b, BOX::new([-99, 0], [5, 99]));
}

#[test]
fn validity_asks_low_not_above_high() {
    assert!(rect(0, 0, 0, 0).is_valid());
    assert!(rect(0, 0, 4, 1).is_valid());
    assert!(!rect(5, 0, 4, 1).is_valid());
    assert!(!rect(0, 2, 4, 1).is_valid());
}

#[test]
fn contains_point_is_strict() {
    let b = unit();
    assert!(b.contains_point([5, 5]));
    assert!(b.contains_point([1, 9]));
    assert!(!b.contains_point([0, 5]));
    assert!(!b.contains_point([10, 5]));
    assert!(!b.contains_point([5, 0]));
    assert!(!b.contains_point([5, 10]));
    assert!(!b.contains_point([11, 5]));
}

#[test]
fn corner_flags_come_in_the_fixed_order() {
    let b = unit();
    // lower-left, upper-left, upper-right, lower-right
    assert_eq!(b.identify_intersection_case((5, 5), (15, 15)), [true, false, false, false]);
    assert_eq!(b.identify_intersection_case((5, -5), (15, 5)), [false, true, false, false]);
    assert_eq!(b.identify_intersection_case((-5, -5), (5, 5)), [false, false, true, false]);
    assert_eq!(b.identify_intersection_case((-5, 5), (5, 15)), [false, false, false, true]);
    assert_eq!(b.identify_intersection_case((2, 2), (7, 7)), [true, true, true, true]);
    assert_eq!(b.identify_intersection_case((0, 0), (10, 10)), [false, false, false, false]);
}

#[test]
fn contains_needs_all_four_corners_strictly_inside() {
    let b = unit();
    assert!(b.contains(rect(1, 1, 9, 9)));
    assert!(!b.contains(rect(0, 1, 9, 9)));
    assert!(!b.contains(rect(1, 1, 9, 10)));
    assert!(!b.contains(unit()));
    assert!(!b.contains(rect(-1, -1, 11, 11)));
}

#[test]
fn is_empty_means_zero_extent_on_an_axis() {
    assert!(rect(3, 0, 3, 5).is_empty());
    assert!(rect(0, 4, 5, 4).is_empty());
    assert!(rect(2, 2, 2, 2).is_empty());
    assert!(!rect(0, 0, 1, 1).is_empty());
}

#[test]
fn within_allows_shared_edges() {
    assert!(unit().is_within(&unit()));
    assert!(rect(0, 3, 4, 10).is_within(&unit()));
    assert!(!rect(-1, 3, 4, 10).is_within(&unit()));
    assert!(!rect(0, 3, 4, 11).is_within(&unit()));
}

#[test]
fn boxes_that_only_touch_do_not_intersect() {
    let b = unit();
    assert!(b.intersects(&rect(9, 9, 20, 20)));
    assert!(!b.intersects(&rect(10, 0, 20, 10)));
    assert!(!b.intersects(&rect(10, 10, 20, 20)));
    assert!(!b.intersects(&rect(0, -5, 10, 0)));
    assert!(b.intersects(&b));
}

#[test]
fn corner_counting() {
    assert_eq!(count_corners(&[false, false, false, false]), 0);
    assert_eq!(count_corners(&[false, true, false, false]), 1);
    assert_eq!(count_corners(&[true, false, false, true]), 2);
    assert_eq!(count_corners(&[true, true, true, false]), 3);
    assert_eq!(count_corners(&[true, true, true, true]), 4);
    assert_eq!(first_corner(&[false, false, true, true]), 2);
    assert_eq!(first_corner(&[false, false, false, true]), 3);
    assert_eq!(first_corner(&[false, false, false, false]), 4);
}

#[test]
fn one_vertex_lower_left_corner_inside() {
    let (a, b) = one_vertex_intersection((0, 0), (10, 10), (7, 7), (13, 13), 0);
    assert_eq!(a, rect(0, 0, 7, 10));
    assert_eq!(b, rect(7, 0, 10, 7));
}

#[test]
fn one_vertex_upper_left_corner_inside() {
    let (a, b) = one_vertex_intersection((0, 0), (10, 10), (7, -3), (13, 3), 1);
    assert_eq!(a, rect(0, 0, 7, 10));
    assert_eq!(b, rect(7, 3, 10, 10));
}

#[test]
fn one_vertex_upper_right_corner_inside() {
    let (a, b) = one_vertex_intersection((0, 0), (10, 10), (-3, -3), (3, 3), 2);
    assert_eq!(a, rect(0, 3, 3, 10));
    assert_eq!(b, rect(3, 0, 10, 10));
}

#[test]
fn one_vertex_lower_right_corner_inside() {
    let (a, b) = one_vertex_intersection((0, 0), (10, 10), (-3, 7), (3, 13), 3);
    assert_eq!(a, rect(0, 0, 3, 7));
    assert_eq!(b, rect(3, 0, 10, 10));
}

#[test]
fn two_vertex_from_the_right() {
    // lower-left and upper-left corners of the new box lie inside
    let (band, rest) = two_vertex_intersection_subdivision(
        (7, 3),
        (13, 7),
        (0, 0),
        (10, 10),
        [true, true, false, false],
        false,
    );
    assert_eq!(band, rect(0, 0, 7, 10));
    assert_eq!(rest, Some([rect(7, 7, 10, 10), rect(7, 0, 10, 3)]));
}

#[test]
fn two_vertex_from_below() {
    // upper-left and upper-right corners of the new box lie inside
    let (band, rest) = two_vertex_intersection_subdivision(
        (3, -3),
        (6, 3),
        (0, 0),
        (10, 10),
        [false, true, true, false],
        false,
    );
    assert_eq!(band, rect(0, 0, 3, 10));
    assert_eq!(rest, Some([rect(3, 3, 6, 10), rect(6, 0, 10, 10)]));
}

#[test]
fn two_vertex_from_the_left() {
    // upper-right and lower-right corners of the new box lie inside
    let (band, rest) = two_vertex_intersection_subdivision(
        (-2, 2),
        (7, 7),
        (0, 0),
        (10, 10),
        [false, false, true, true],
        false,
    );
    assert_eq!(band, rect(0, 7, 7, 10));
    assert_eq!(rest, Some([rect(7, 0, 10, 10), rect(0, 0, 7, 2)]));
}

#[test]
fn two_vertex_from_above() {
    // lower-left and lower-right corners of the new box lie inside
    let (band, rest) = two_vertex_intersection_subdivision(
        (4, 7),
        (8, 13),
        (0, 0),
        (10, 10),
        [true, false, false, true],
        false,
    );
    assert_eq!(band, rect(0, 0, 4, 10));
    assert_eq!(rest, Some([rect(4, 0, 8, 7), rect(8, 0, 10, 10)]));
}

#[test]
fn two_vertex_reversed_gives_the_part_that_sticks_out() {
    // the first box is the free one here, the second the occluder
    let free = ((0, 0), (10, 10));
    let (b, rest) = two_vertex_intersection_subdivision(
        free.0,
        free.1,
        (-2, -3),
        (2, 13),
        [true, true, false, false],
        true,
    );
    assert_eq!((b, rest), (rect(2, 0, 10, 10), None));
    let (b, rest) = two_vertex_intersection_subdivision(
        free.0,
        free.1,
        (-2, 7),
        (13, 13),
        [false, true, true, false],
        true,
    );
    assert_eq!((b, rest), (rect(0, 0, 10, 7), None));
    let (b, rest) = two_vertex_intersection_subdivision(
        free.0,
        free.1,
        (7, -3),
        (13, 13),
        [false, false, true, true],
        true,
    );
    assert_eq!((b, rest), (rect(0, 0, 7, 10), None));
    let (b, rest) = two_vertex_intersection_subdivision(
        free.0,
        free.1,
        (-2, -2),
        (13, 3),
        [true, false, false, true],
        true,
    );
    assert_eq!((b, rest), (rect(0, 3, 10, 10), None));
}

#[test]
fn cut_with_occluder_strictly_inside_gives_four_bands() {
    let pieces = cut_box(&unit(), &rect(2, 2, 7, 7)).unwrap();
    assert_eq!(
        pieces,
        vec![rect(0, 0, 2, 10), rect(2, 7, 7, 10), rect(2, 0, 7, 2), rect(7, 0, 10, 10)]
    );
}

#[test]
fn cut_with_occluder_covering_everything_gives_nothing() {
    assert_eq!(cut_box(&unit(), &rect(-3, -3, 13, 13)), Ok(vec![]));
}

#[test]
fn cut_with_one_corner_inside_gives_two_pieces_for_each_rotation() {
    let f = unit();
    assert_eq!(cut_box(&f, &rect(7, 7, 13, 13)), Ok(vec![rect(0, 0, 7, 10), rect(7, 0, 10, 7)]));
    assert_eq!(cut_box(&f, &rect(7, -3, 13, 3)), Ok(vec![rect(0, 0, 7, 10), rect(7, 3, 10, 10)]));
    assert_eq!(cut_box(&f, &rect(-3, -3, 3, 3)), Ok(vec![rect(0, 3, 3, 10), rect(3, 0, 10, 10)]));
    assert_eq!(cut_box(&f, &rect(-3, 7, 3, 13)), Ok(vec![rect(0, 0, 3, 7), rect(3, 0, 10, 10)]));
}

#[test]
fn cut_with_two_corners_inside_gives_three_pieces_for_each_edge() {
    let f = unit();
    assert_eq!(
        cut_box(&f, &rect(7, 3, 13, 7)),
        Ok(vec![rect(0, 0, 7, 10), rect(7, 7, 10, 10), rect(7, 0, 10, 3)])
    );
    assert_eq!(
        cut_box(&f, &rect(3, -3, 6, 3)),
        Ok(vec![rect(0, 0, 3, 10), rect(3, 3, 6, 10), rect(6, 0, 10, 10)])
    );
    assert_eq!(
        cut_box(&f, &rect(-2, 2, 7, 7)),
        Ok(vec![rect(0, 7, 7, 10), rect(7, 0, 10, 10), rect(0, 0, 7, 2)])
    );
    assert_eq!(
        cut_box(&f, &rect(4, 7, 8, 13)),
        Ok(vec![rect(0, 0, 4, 10), rect(4, 0, 8, 7), rect(8, 0, 10, 10)])
    );
}

#[test]
fn cut_with_two_free_corners_swallowed_gives_one_piece_for_each_edge() {
    let f = unit();
    assert_eq!(cut_box(&f, &rect(-2, -3, 2, 13)), Ok(vec![rect(2, 0, 10, 10)]));
    assert_eq!(cut_box(&f, &rect(-2, 7, 13, 13)), Ok(vec![rect(0, 0, 10, 7)]));
    assert_eq!(cut_box(&f, &rect(7, -3, 13, 13)), Ok(vec![rect(0, 0, 7, 10)]));
    assert_eq!(cut_box(&f, &rect(-2, -2, 13, 3)), Ok(vec![rect(0, 3, 10, 10)]));
}

#[test]
fn cut_with_a_vertical_cross_gives_left_and_right() {
    assert_eq!(
        cut_box(&unit(), &rect(3, -2, 6, 13)),
        Ok(vec![rect(0, 0, 3, 10), rect(6, 0, 10, 10)])
    );
}

#[test]
fn cut_with_a_horizontal_cross_gives_top_and_bottom() {
    assert_eq!(
        cut_box(&unit(), &rect(-2, 2, 12, 6)),
        Ok(vec![rect(0, 6, 10, 10), rect(0, 0, 10, 2)])
    );
}

#[test]
fn cut_flush_with_an_edge_emits_a_piece_without_area() {
    // the occluder covers the free box and starts at its left edge
    let pieces = cut_box(&unit(), &rect(0, -3, 13, 13)).unwrap();
    assert_eq!(pieces, vec![rect(0, 0, 0, 10)]);
    assert!(pieces[0].is_empty());
    // the occluder comes in from the left edge
    assert_eq!(
        cut_box(&unit(), &rect(0, 3, 6, 7)),
        Ok(vec![rect(0, 7, 6, 10), rect(6, 0, 10, 10), rect(0, 0, 6, 3)])
    );
}

#[test]
fn cut_refuses_a_crossing_with_a_shared_edge() {
    // the lower half, flush with three edges
    assert_eq!(cut_box(&unit(), &rect(0, 0, 10, 5)), Err(CutError::NoCross));
    // a horizontal strip that ends on the right edge
    assert_eq!(cut_box(&unit(), &rect(-2, 2, 10, 6)), Err(CutError::NoCross));
    // a vertical strip that ends on the upper edge
    assert_eq!(cut_box(&unit(), &rect(2, -2, 6, 10)), Err(CutError::NoCross));
    // a vertical strip that starts on the lower edge
    assert_eq!(cut_box(&unit(), &rect(2, 0, 6, 13)), Err(CutError::NoCross));
    // the same strips clear of the edges are cut
    assert!(cut_box(&unit(), &rect(-2, 2, 11, 6)).is_ok());
    assert!(cut_box(&unit(), &rect(2, -2, 6, 11)).is_ok());
}

#[test]
fn cut_refuses_an_occluder_equal_to_the_free_box() {
    assert_eq!(cut_box(&unit(), &unit()), Err(CutError::NoCross));
}

#[test]
fn cut_refuses_a_shift_along_one_axis() {
    // same height, shifted to the right: no corner inside, no cross
    assert_eq!(cut_box(&unit(), &rect(5, 0, 15, 10)), Err(CutError::NoCross));
}

#[test]
fn cut_refuses_unlisted_corner_counts() {
    // the occluder sits in a corner of the free box, flush with two edges
    assert_eq!(
        cut_box(&unit(), &rect(0, 0, 5, 5)),
        Err(CutError::UnexpectedCorners { inside: 1, outside: 0 })
    );
    // the occluder covers the free box, flush with two of its edges
    assert_eq!(
        cut_box(&unit(), &rect(0, 0, 20, 20)),
        Err(CutError::UnexpectedCorners { inside: 0, outside: 1 })
    );
}

#[test]
fn pieces_tile_what_the_occluder_leaves() {
    // every cell of the free box is in exactly one piece or in the occluder
    let f = rect(0, 0, 8, 8);
    let occluders = [
        rect(2, 2, 5, 5),
        rect(-3, -3, 11, 11),
        rect(5, 5, 11, 11),
        rect(5, -2, 11, 3),
        rect(-2, 2, 3, 6),
        rect(3, -2, 5, 11),
        rect(-2, 3, 11, 5),
        rect(0, 2, 5, 6),
        rect(6, -1, 9, 9),
        rect(0, -1, 11, 11),
    ];
    for n in occluders.iter() {
        let pieces = cut_box(&f, n).unwrap();
        for x in -1..9i64 {
            for y in -1..9i64 {
                let cell = rect(x, y, x + 1, y + 1);
                let in_free = cell.is_within(&f);
                let in_occluder = cell.is_within(n);
                let holders = pieces.iter().filter(|p| cell.is_within(p)).count();
                let expected = if in_free && !in_occluder { 1 } else { 0 };
                assert_eq!(holders, expected, "cell ({x}, {y}) with occluder {n:?}");
            }
        }
    }
}
