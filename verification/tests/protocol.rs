use aabb_occlusion_culling::cutter::CutError;
use aabb_occlusion_culling::partition::{FreeSpace, NEW_BOX_ID};
use aabb_occlusion_culling::{BoxExtensions, OcclusionBuffer, OcclusionError, OcclusionStatus, Rect};

fn r(lo_x: i64, lo_y: i64, hi_x: i64, hi_y: i64) -> Rect {
    Rect { lo_x, lo_y, hi_x, hi_y }
}

fn unit_in_wide_bound(free: Vec<Rect>) -> OcclusionBuffer {
    OcclusionBuffer::with_free_space(r(-100, -100, 100, 100), &free, 0).expect("valid free space")
}

fn boxes_of(ob: &OcclusionBuffer) -> Vec<Rect> {
    let mut boxes: Vec<Rect> = ob.free_boxes().iter().map(|e| e.0).collect();
    boxes.sort_by_key(|b| (b.lo_x, b.lo_y, b.hi_x, b.hi_y));
    boxes
}

fn sorted(mut boxes: Vec<Rect>) -> Vec<Rect> {
    boxes.sort_by_key(|b| (b.lo_x, b.lo_y, b.hi_x, b.hi_y));
    boxes
}

fn assert_partition_laws(ob: &OcclusionBuffer) {
    let free = ob.free_boxes();
    let bound = ob.bound();
    for (i, (a, id_a)) in free.iter().enumerate() {
        assert!(!a.is_empty(), "free box {a:?} has no area");
        assert!(a.is_valid());
        assert!(a.is_within(&bound), "free box {a:?} sticks out of {bound:?}");
        for (b, id_b) in free.iter().skip(i + 1) {
            assert!(!a.intersects(b), "free boxes {a:?} and {b:?} overlap");
            assert_ne!(id_a, id_b);
        }
    }
}

#[test]
fn a_new_buffer_holds_its_bound_as_the_only_free_box() {
    let ob = OcclusionBuffer::new(r(0, 0, 10, 10));
    assert_eq!(ob.free_boxes(), vec![(r(0, 0, 10, 10), 0)]);
    assert_eq!(ob.bound(), r(0, 0, 10, 10));
    assert_eq!(ob.pending(), None);
    assert!(ob.intersected().is_empty());
}

#[test]
fn a_bound_without_area_leaves_no_free_space() {
    let ob = OcclusionBuffer::new(r(0, 0, 0, 10));
    assert!(ob.free_boxes().is_empty());
    let ob = OcclusionBuffer::new(r(5, 5, 0, 0));
    assert!(ob.free_boxes().is_empty());
}

#[test]
fn free_space_given_box_by_box_gets_ids_in_order() {
    let ob = unit_in_wide_bound(vec![r(0, 0, 5, 10), r(5, 0, 10, 10)]);
    assert_eq!(ob.free_boxes(), vec![(r(0, 0, 5, 10), 0), (r(5, 0, 10, 10), 1)]);
}

#[test]
fn free_space_is_refused_if_boxes_overlap_or_stick_out() {
    let bound = r(0, 0, 10, 10);
    assert!(OcclusionBuffer::with_free_space(bound, &vec![r(0, 0, 6, 10), r(5, 0, 10, 10)], 0)
        .is_none());
    assert!(OcclusionBuffer::with_free_space(bound, &vec![r(0, 0, 5, 11)], 0).is_none());
    assert!(OcclusionBuffer::with_free_space(bound, &vec![r(0, 0, 5, 0)], 0).is_none());
    assert!(OcclusionBuffer::with_free_space(bound, &vec![r(5, 0, 0, 5)], 0).is_none());
    assert!(OcclusionBuffer::with_free_space(bound, &vec![], 0).is_some());
    assert!(OcclusionBuffer::with_free_space(bound, &vec![bound], 0).is_some());
}

#[test]
fn free_space_is_refused_if_the_ids_run_out() {
    let bound = r(0, 0, 10, 10);
    let free = vec![r(0, 0, 5, 10), r(5, 0, 10, 10)];
    assert!(OcclusionBuffer::with_free_space(bound, &free, usize::MAX - 1).is_none());
    let ob = OcclusionBuffer::with_free_space(bound, &free, usize::MAX - 2).expect("ids fit");
    assert_eq!(
        ob.free_boxes(),
        vec![(r(0, 0, 5, 10), usize::MAX - 2), (r(5, 0, 10, 10), usize::MAX - 1)]
    );
}

#[test]
fn adding_fails_without_room_for_four_ids_per_overlapped_box() {
    let bound = r(0, 0, 10, 10);
    let mut ob =
        OcclusionBuffer::with_free_space(bound, &vec![bound], usize::MAX - 4).expect("ids fit");
    assert_eq!(ob.check_a_box(r(2, 2, 7, 7)), Ok(OcclusionStatus::PartiallyVisible));
    assert_eq!(ob.add_last_box(), Err(OcclusionError::IdsExhausted));
    assert_eq!(ob.free_boxes(), vec![(bound, usize::MAX - 4)]);
    assert_eq!(ob.pending(), Some(r(2, 2, 7, 7)));

    let mut ob =
        OcclusionBuffer::with_free_space(bound, &vec![bound], usize::MAX - 5).expect("ids fit");
    assert_eq!(ob.check_a_box(r(2, 2, 7, 7)), Ok(OcclusionStatus::PartiallyVisible));
    assert_eq!(ob.add_last_box(), Ok(()));
    let mut ids: Vec<usize> = ob.free_boxes().iter().map(|e| e.1).collect();
    ids.sort();
    assert_eq!(ids, vec![usize::MAX - 4, usize::MAX - 3, usize::MAX - 2, usize::MAX - 1]);
}

#[test]
fn check_refuses_a_box_that_is_not_strictly_inside_the_bound() {
    let mut ob = OcclusionBuffer::new(r(0, 0, 10, 10));
    assert_eq!(ob.check_a_box(r(0, 2, 5, 5)), Err(OcclusionError::OutOfBounds));
    assert_eq!(ob.check_a_box(r(2, 2, 5, 10)), Err(OcclusionError::OutOfBounds));
    assert_eq!(ob.check_a_box(r(-5, -5, 15, 15)), Err(OcclusionError::OutOfBounds));
    assert_eq!(ob.check_a_box(r(20, 20, 30, 30)), Err(OcclusionError::OutOfBounds));
    assert_eq!(ob.check_a_box(r(7, 7, 2, 2)), Err(OcclusionError::OutOfBounds));
    assert_eq!(ob.free_boxes(), vec![(r(0, 0, 10, 10), 0)]);
    assert_eq!(ob.pending(), None);
}

#[test]
fn a_refused_check_keeps_the_pending_box() {
    let mut ob = OcclusionBuffer::new(r(0, 0, 10, 10));
    assert_eq!(ob.check_a_box(r(2, 2, 5, 5)), Ok(OcclusionStatus::PartiallyVisible));
    assert_eq!(ob.check_a_box(r(2, 2, 5, 10)), Err(OcclusionError::OutOfBounds));
    assert_eq!(ob.pending(), Some(r(2, 2, 5, 5)));
    assert_eq!(ob.intersected().len(), 1);
}

#[test]
fn check_reports_the_ids_of_the_overlapped_boxes() {
    let mut ob = unit_in_wide_bound(vec![r(0, 0, 5, 10), r(5, 0, 10, 10), r(20, 20, 30, 30)]);
    assert_eq!(ob.check_a_box(r(2, 2, 7, 7)), Ok(OcclusionStatus::PartiallyVisible));
    assert_eq!(ob.intersected(), &vec![(0, NEW_BOX_ID), (1, NEW_BOX_ID)]);
    assert_eq!(ob.pending(), Some(r(2, 2, 7, 7)));
    assert_eq!(ob.check_a_box(r(22, 22, 25, 25)), Ok(OcclusionStatus::PartiallyVisible));
    assert_eq!(ob.intersected(), &vec![(2, NEW_BOX_ID)]);
}

#[test]
fn the_overlapped_boxes_can_be_looked_up_by_id() {
    let mut ob = unit_in_wide_bound(vec![r(0, 0, 5, 10), r(5, 0, 10, 10), r(20, 20, 30, 30)]);
    assert_eq!(ob.check_a_box(r(7, 7, 22, 22)), Ok(OcclusionStatus::PartiallyVisible));
    let found: Vec<(Rect, usize)> = ob
        .intersected()
        .iter()
        .map(|pair| {
            let slot = ob.free_space().find_slot(pair.0).expect("a live box");
            ob.free_space().slot(slot).expect("a live box")
        })
        .collect();
    assert_eq!(found, vec![(r(5, 0, 10, 10), 1), (r(20, 20, 30, 30), 2)]);
    assert_eq!(ob.free_space().slot_count(), 3);
    assert_eq!(ob.free_space().next_id(), 3);
}

#[test]
fn check_does_not_change_the_free_space() {
    let mut ob = OcclusionBuffer::new(r(0, 0, 10, 10));
    assert_eq!(ob.check_a_box(r(2, 2, 7, 7)), Ok(OcclusionStatus::PartiallyVisible));
    assert_eq!(ob.free_boxes(), vec![(r(0, 0, 10, 10), 0)]);
}

#[test]
fn a_box_that_only_touches_free_space_is_occluded() {
    let mut ob = unit_in_wide_bound(vec![r(0, 0, 10, 10)]);
    assert_eq!(ob.check_a_box(r(10, 0, 20, 10)), Ok(OcclusionStatus::Occluded));
    assert_eq!(ob.check_a_box(r(10, 10, 20, 20)), Ok(OcclusionStatus::Occluded));
    assert_eq!(ob.check_a_box(r(-5, -5, 0, 0)), Ok(OcclusionStatus::Occluded));
}

#[test]
fn adding_without_a_pending_box_fails_and_changes_nothing() {
    let mut ob = OcclusionBuffer::new(r(0, 0, 10, 10));
    assert_eq!(ob.add_last_box(), Err(OcclusionError::NothingPending));
    assert_eq!(ob.free_boxes(), vec![(r(0, 0, 10, 10), 0)]);
}

#[test]
fn an_occluded_check_followed_by_add_leaves_the_partition_unchanged() {
    let mut ob = unit_in_wide_bound(vec![r(0, 0, 10, 10)]);
    let before = ob.free_boxes();
    assert_eq!(ob.check_a_box(r(20, 20, 30, 30)), Ok(OcclusionStatus::Occluded));
    assert_eq!(ob.free_boxes(), before);
    assert_eq!(ob.add_last_box(), Err(OcclusionError::NothingPending));
    assert_eq!(ob.free_boxes(), before);
}

#[test]
fn an_occluded_check_clears_an_earlier_pending_box() {
    let mut ob = unit_in_wide_bound(vec![r(0, 0, 10, 10)]);
    assert_eq!(ob.check_a_box(r(2, 2, 7, 7)), Ok(OcclusionStatus::PartiallyVisible));
    assert_eq!(ob.check_a_box(r(20, 20, 30, 30)), Ok(OcclusionStatus::Occluded));
    assert_eq!(ob.pending(), None);
    assert!(ob.intersected().is_empty());
    assert_eq!(ob.add_last_box(), Err(OcclusionError::NothingPending));
}

#[test]
fn a_box_that_was_added_is_occluded_afterwards() {
    let mut ob = OcclusionBuffer::new(r(0, 0, 10, 10));
    assert_eq!(ob.check_a_box(r(2, 2, 7, 7)), Ok(OcclusionStatus::PartiallyVisible));
    assert_eq!(ob.add_last_box(), Ok(()));
    assert_eq!(ob.check_a_box(r(2, 2, 7, 7)), Ok(OcclusionStatus::Occluded));
    assert_eq!(ob.check_a_box(r(3, 3, 6, 6)), Ok(OcclusionStatus::Occluded));
    assert_eq!(ob.check_a_box(r(3, 3, 8, 6)), Ok(OcclusionStatus::PartiallyVisible));
}

#[test]
fn adding_twice_fails_the_second_time() {
    let mut ob = OcclusionBuffer::new(r(0, 0, 10, 10));
    assert_eq!(ob.check_a_box(r(2, 2, 7, 7)), Ok(OcclusionStatus::PartiallyVisible));
    assert_eq!(ob.add_last_box(), Ok(()));
    assert_eq!(ob.pending(), None);
    assert_eq!(ob.add_last_box(), Err(OcclusionError::NothingPending));
}

#[test]
fn strictly_interior_box_leaves_four_free_boxes() {
    let mut ob = OcclusionBuffer::new(r(0, 0, 10, 10));
    assert_eq!(ob.check_a_box(r(2, 2, 7, 7)), Ok(OcclusionStatus::PartiallyVisible));
    assert_eq!(ob.intersected().len(), 1);
    assert_eq!(ob.add_last_box(), Ok(()));
    assert_eq!(
        boxes_of(&ob),
        sorted(vec![r(0, 0, 2, 10), r(2, 7, 7, 10), r(2, 0, 7, 2), r(7, 0, 10, 10)])
    );
    assert_partition_laws(&ob);
    for (b, _) in ob.free_boxes() {
        assert!(!b.intersects(&r(2, 2, 7, 7)));
    }
}

#[test]
fn box_that_contains_the_free_box_leaves_nothing() {
    let mut ob = unit_in_wide_bound(vec![r(0, 0, 10, 10)]);
    assert_eq!(ob.check_a_box(r(-3, -3, 13, 13)), Ok(OcclusionStatus::PartiallyVisible));
    assert_eq!(ob.intersected().len(), 1);
    assert_eq!(ob.add_last_box(), Ok(()));
    assert!(ob.free_boxes().is_empty());
}

#[test]
fn box_across_a_shared_boundary_cuts_both_free_boxes() {
    let mut ob = unit_in_wide_bound(vec![r(0, 0, 5, 10), r(5, 0, 10, 10)]);
    let new = r(2, 2, 7, 7);
    assert_eq!(ob.check_a_box(new), Ok(OcclusionStatus::PartiallyVisible));
    assert_eq!(ob.intersected().len(), 2);
    assert_eq!(ob.add_last_box(), Ok(()));
    assert_eq!(
        boxes_of(&ob),
        sorted(vec![
            r(0, 0, 2, 10),
            r(2, 7, 5, 10),
            r(2, 0, 5, 2),
            r(5, 7, 7, 10),
            r(7, 0, 10, 10),
            r(5, 0, 7, 2),
        ])
    );
    assert_partition_laws(&ob);
    for (b, _) in ob.free_boxes() {
        assert!(!b.intersects(&new));
    }
}

#[test]
fn corner_overlap_leaves_two_fragments() {
    let mut ob = unit_in_wide_bound(vec![r(0, 0, 10, 10)]);
    assert_eq!(ob.check_a_box(r(7, 7, 13, 13)), Ok(OcclusionStatus::PartiallyVisible));
    assert_eq!(ob.intersected().len(), 1);
    assert_eq!(ob.add_last_box(), Ok(()));
    assert_eq!(boxes_of(&ob), sorted(vec![r(0, 0, 7, 10), r(7, 0, 10, 7)]));
}

#[test]
fn horizontal_crossing_leaves_bottom_and_top_bands() {
    let mut ob = unit_in_wide_bound(vec![r(0, 0, 10, 10)]);
    assert_eq!(ob.check_a_box(r(-2, 2, 12, 6)), Ok(OcclusionStatus::PartiallyVisible));
    assert_eq!(ob.intersected().len(), 1);
    assert_eq!(ob.add_last_box(), Ok(()));
    assert_eq!(boxes_of(&ob), sorted(vec![r(0, 0, 10, 2), r(0, 6, 10, 10)]));
}

#[test]
fn fragments_without_area_are_dropped() {
    // the box covers the free box and starts at its left edge: the one
    // piece left has no width
    let mut ob = unit_in_wide_bound(vec![r(0, 0, 10, 10), r(20, 0, 30, 10)]);
    assert_eq!(ob.check_a_box(r(0, -3, 13, 13)), Ok(OcclusionStatus::PartiallyVisible));
    assert_eq!(ob.add_last_box(), Ok(()));
    assert_eq!(ob.free_boxes(), vec![(r(20, 0, 30, 10), 1)]);
    assert_eq!(ob.free_space().next_id(), 2);
}

#[test]
fn a_crossing_box_with_an_edge_on_an_edge_is_refused() {
    let mut ob =
        OcclusionBuffer::with_free_space(r(-1000, -1000, 1000, 1000), &vec![r(0, 0, 100, 100)], 0)
            .expect("valid free space");
    assert_eq!(ob.check_a_box(r(0, 0, 100, 50)), Ok(OcclusionStatus::PartiallyVisible));
    assert_eq!(ob.intersected(), &vec![(0, NEW_BOX_ID)]);
    assert_eq!(
        ob.add_last_box(),
        Err(OcclusionError::InvariantViolation {
            kind: CutError::NoCross,
            free: r(0, 0, 100, 100),
            free_id: 0,
        })
    );
    assert_eq!(ob.free_boxes(), vec![(r(0, 0, 100, 100), 0)]);
    assert_eq!(ob.pending(), Some(r(0, 0, 100, 50)));
}

#[test]
fn new_fragments_get_new_ids_and_take_freed_slots_first() {
    let mut ob = OcclusionBuffer::new(r(0, 0, 10, 10));
    assert_eq!(ob.check_a_box(r(2, 2, 7, 7)), Ok(OcclusionStatus::PartiallyVisible));
    assert_eq!(ob.add_last_box(), Ok(()));
    // the slot of the removed box is taken by the first fragment
    assert_eq!(
        ob.free_boxes(),
        vec![
            (r(0, 0, 2, 10), 1),
            (r(2, 7, 7, 10), 2),
            (r(2, 0, 7, 2), 3),
            (r(7, 0, 10, 10), 4),
        ]
    );
    // a box that swallows one fragment frees its slot without filling it
    assert_eq!(ob.check_a_box(r(1, 6, 8, 9)), Ok(OcclusionStatus::PartiallyVisible));
    assert_eq!(ob.intersected(), &vec![(1, NEW_BOX_ID), (2, NEW_BOX_ID), (4, NEW_BOX_ID)]);
    assert_eq!(ob.add_last_box(), Ok(()));
    let free = ob.free_boxes();
    let mut ids: Vec<usize> = free.iter().map(|e| e.1).collect();
    ids.sort();
    ids.dedup();
    assert_eq!(ids.len(), free.len());
    assert!(free.contains(&(r(2, 0, 7, 2), 3)));
    for (_, id) in free.iter() {
        assert!(*id == 3 || *id >= 5);
    }
    assert_partition_laws(&ob);
}

#[test]
fn a_refused_pattern_is_reported_and_changes_nothing() {
    let mut ob = unit_in_wide_bound(vec![r(20, 20, 30, 30), r(0, 0, 10, 10)]);
    // flush with two edges of the second free box
    assert_eq!(ob.check_a_box(r(0, 0, 5, 5)), Ok(OcclusionStatus::PartiallyVisible));
    let before = ob.free_boxes();
    assert_eq!(
        ob.add_last_box(),
        Err(OcclusionError::InvariantViolation {
            kind: CutError::UnexpectedCorners { inside: 1, outside: 0 },
            free: r(0, 0, 10, 10),
            free_id: 1,
        })
    );
    assert_eq!(ob.free_boxes(), before);
    assert_eq!(ob.pending(), Some(r(0, 0, 5, 5)));
}

#[test]
fn a_refused_pattern_in_a_later_box_keeps_the_earlier_ones_whole() {
    let mut ob = unit_in_wide_bound(vec![r(0, 0, 10, 10), r(10, 0, 20, 10)]);
    // cuts the first free box cleanly but equals the second in height and
    // is shifted against it
    assert_eq!(ob.check_a_box(r(5, 0, 15, 10)), Ok(OcclusionStatus::PartiallyVisible));
    assert_eq!(ob.intersected().len(), 2);
    let before = ob.free_boxes();
    assert_eq!(
        ob.add_last_box(),
        Err(OcclusionError::InvariantViolation {
            kind: CutError::NoCross,
            free: r(0, 0, 10, 10),
            free_id: 0,
        })
    );
    assert_eq!(ob.free_boxes(), before);
}

#[test]
fn a_box_flush_with_a_corner_of_a_fragment_is_refused() {
    let mut ob = OcclusionBuffer::new(r(0, 0, 10, 10));
    assert_eq!(ob.check_a_box(r(2, 2, 4, 4)), Ok(OcclusionStatus::PartiallyVisible));
    assert_eq!(ob.add_last_box(), Ok(()));
    let before = ob.free_boxes();
    // sits in the lower-left corner of the band above the first box
    assert_eq!(ob.check_a_box(r(2, 4, 3, 5)), Ok(OcclusionStatus::PartiallyVisible));
    assert_eq!(ob.intersected().len(), 1);
    assert_eq!(
        ob.add_last_box(),
        Err(OcclusionError::InvariantViolation {
            kind: CutError::UnexpectedCorners { inside: 1, outside: 0 },
            free: r(2, 4, 4, 10),
            free_id: 2,
        })
    );
    assert_eq!(ob.free_boxes(), before);
}

#[test]
fn an_occluder_equal_to_a_free_box_is_refused() {
    let mut ob = unit_in_wide_bound(vec![r(0, 0, 10, 10)]);
    assert_eq!(ob.check_a_box(r(0, 0, 10, 10)), Ok(OcclusionStatus::PartiallyVisible));
    assert_eq!(
        ob.add_last_box(),
        Err(OcclusionError::InvariantViolation {
            kind: CutError::NoCross,
            free: r(0, 0, 10, 10),
            free_id: 0,
        })
    );
}

#[test]
fn a_batch_adds_each_visible_box() {
    let mut ob = OcclusionBuffer::new(r(0, 0, 100, 100));
    let batch = vec![r(20, 20, 40, 40), r(40, 40, 60, 60), r(25, 25, 35, 35), r(60, 20, 80, 40)];
    assert_eq!(ob.add_box_set(batch.clone()), Ok(()));
    assert_eq!(ob.pending(), None);
    assert_partition_laws(&ob);
    for (b, _) in ob.free_boxes() {
        for n in batch.iter() {
            assert!(!b.intersects(n));
        }
    }
    for x in 0..100i64 {
        for y in 0..100i64 {
            let cell = r(x, y, x + 1, y + 1);
            let taken = batch.iter().any(|n| cell.is_within(n));
            let free = ob.free_boxes().iter().filter(|e| cell.is_within(&e.0)).count();
            assert_eq!(free, if taken { 0 } else { 1 }, "cell ({x}, {y})");
        }
    }
}

#[test]
fn a_box_without_area_splits_the_free_box_it_lies_in() {
    let mut ob = OcclusionBuffer::new(r(0, 0, 10, 10));
    let line = r(5, 2, 5, 7);
    assert_eq!(ob.check_a_box(line), Ok(OcclusionStatus::PartiallyVisible));
    assert_eq!(ob.add_last_box(), Ok(()));
    assert_eq!(boxes_of(&ob), sorted(vec![r(0, 0, 5, 10), r(5, 0, 10, 10)]));
    assert_eq!(ob.check_a_box(line), Ok(OcclusionStatus::Occluded));
}

#[test]
fn after_a_batch_no_free_box_overlaps_a_box_of_it() {
    let mut ob = OcclusionBuffer::new(r(0, 0, 100, 100));
    let batch = vec![r(20, 20, 40, 40), r(70, 10, 70, 90), r(30, 30, 60, 60), r(5, 50, 95, 50)];
    assert_eq!(ob.add_box_set(batch.clone()), Ok(()));
    for (b, _) in ob.free_boxes() {
        for n in batch.iter() {
            assert!(!b.intersects(n), "{b:?} overlaps {n:?}");
        }
    }
    assert_partition_laws(&ob);
}

#[test]
fn a_batch_stops_at_the_first_refused_box() {
    let mut ob = OcclusionBuffer::new(r(0, 0, 100, 100));
    let batch = vec![r(20, 20, 40, 40), r(0, 50, 10, 60), r(60, 60, 80, 80)];
    assert_eq!(ob.add_box_set(batch), Err((1, OcclusionError::OutOfBounds)));
    assert_eq!(ob.pending(), None);
    assert_eq!(ob.free_boxes().len(), 4);
    assert_partition_laws(&ob);
}

#[test]
fn a_batch_that_hits_a_refused_pattern_leaves_nothing_pending() {
    let mut ob = unit_in_wide_bound(vec![r(0, 0, 100, 100)]);
    // the second box is flush with two edges of the band left of the first
    let batch = vec![r(20, 20, 40, 40), r(0, 0, 10, 10), r(60, 60, 70, 70)];
    assert_eq!(
        ob.add_box_set(batch),
        Err((
            1,
            OcclusionError::InvariantViolation {
                kind: CutError::UnexpectedCorners { inside: 1, outside: 0 },
                free: r(0, 0, 20, 100),
                free_id: 1,
            }
        ))
    );
    assert_eq!(ob.pending(), None);
    assert!(ob.intersected().is_empty());
    assert_eq!(
        boxes_of(&ob),
        sorted(vec![r(0, 0, 20, 100), r(20, 40, 40, 100), r(20, 0, 40, 20), r(40, 0, 100, 100)])
    );
}

#[test]
fn an_empty_batch_only_clears_the_pending_box() {
    let mut ob = OcclusionBuffer::new(r(0, 0, 10, 10));
    assert_eq!(ob.check_a_box(r(2, 2, 7, 7)), Ok(OcclusionStatus::PartiallyVisible));
    assert_eq!(ob.add_box_set(vec![]), Ok(()));
    assert_eq!(ob.pending(), None);
    assert_eq!(ob.free_boxes(), vec![(r(0, 0, 10, 10), 0)]);
}

#[test]
fn a_copy_is_independent_of_the_buffer_it_was_taken_from() {
    let mut ob = OcclusionBuffer::new(r(0, 0, 10, 10));
    assert_eq!(ob.check_a_box(r(2, 2, 7, 7)), Ok(OcclusionStatus::PartiallyVisible));
    let mut copy = ob.clone();
    assert_eq!(copy.free_boxes(), ob.free_boxes());
    assert_eq!(copy.pending(), ob.pending());
    assert_eq!(copy.intersected(), ob.intersected());
    assert_eq!(copy.add_last_box(), Ok(()));
    assert_eq!(copy.free_boxes().len(), 4);
    assert_eq!(ob.free_boxes(), vec![(r(0, 0, 10, 10), 0)]);
    assert_eq!(ob.pending(), Some(r(2, 2, 7, 7)));
    assert_eq!(ob.add_last_box(), Ok(()));
    assert_eq!(ob.free_boxes(), copy.free_boxes());
}

#[test]
fn many_boxes_keep_the_partition_laws() {
    let mut ob = OcclusionBuffer::new(r(0, 0, 64, 64));
    let mut added: Vec<Rect> = Vec::new();
    let mut seed: i64 = 12345;
    let mut refused = 0;
    for _ in 0..200 {
        let mut next = || {
            seed = (seed * 1103515245 + 12345) % 2147483648;
            (seed / 65536) % 62 + 1
        };
        let (x, y) = (next(), next());
        let (w, h) = (next() % 9 + 1, next() % 9 + 1);
        let new = r(x, y, (x + w).min(63), (y + h).min(63));
        match ob.check_a_box(new) {
            Ok(OcclusionStatus::Occluded) => {
                for (b, _) in ob.free_boxes() {
                    assert!(!b.intersects(&new));
                }
            }
            Ok(OcclusionStatus::PartiallyVisible) => {
                let before = ob.free_boxes();
                match ob.add_last_box() {
                    Ok(()) => {
                        added.push(new);
                        for (b, _) in ob.free_boxes() {
                            assert!(!b.intersects(&new), "{b:?} overlaps {new:?}");
                        }
                    }
                    Err(OcclusionError::InvariantViolation { .. }) => {
                        refused += 1;
                        assert_eq!(ob.free_boxes(), before);
                    }
                    Err(e) => panic!("unexpected failure {e:?}"),
                }
            }
            Err(e) => panic!("unexpected failure {e:?}"),
        }
        assert_partition_laws(&ob);
    }
    assert!(added.len() > 20);
    assert!(refused < 200);
    for x in 0..64i64 {
        for y in 0..64i64 {
            let cell = r(x, y, x + 1, y + 1);
            let taken = added.iter().any(|n| cell.is_within(n));
            let free = ob.free_boxes().iter().filter(|e| cell.is_within(&e.0)).count();
            assert_eq!(free, if taken { 0 } else { 1 }, "cell ({x}, {y})");
        }
    }
}

#[test]
fn boxes_whose_edges_never_coincide_are_always_accepted() {
    let mut ob = OcclusionBuffer::new(r(0, 0, 2000, 2000));
    // every coordinate is used once per axis, and none is a coordinate of
    // the bound
    let mut xs: Vec<i64> = (1..400).map(|k| (k * 733) % 1999 + 1).collect();
    let mut ys: Vec<i64> = (1..400).map(|k| (k * 911) % 1999 + 1).collect();
    xs.dedup();
    ys.dedup();
    let mut added = 0;
    for k in 0..199 {
        let (x0, x1) = (xs[2 * k].min(xs[2 * k + 1]), xs[2 * k].max(xs[2 * k + 1]));
        let (y0, y1) = (ys[2 * k].min(ys[2 * k + 1]), ys[2 * k].max(ys[2 * k + 1]));
        let new = r(x0, y0, x1, y1);
        match ob.check_a_box(new) {
            Ok(OcclusionStatus::Occluded) => {}
            Ok(OcclusionStatus::PartiallyVisible) => {
                assert_eq!(ob.add_last_box(), Ok(()), "box {k}: {new:?}");
                added += 1;
            }
            Err(e) => panic!("unexpected failure {e:?}"),
        }
    }
    assert!(added > 50);
    assert_partition_laws(&ob);
}

#[test]
fn an_empty_partition_reports_nothing() {
    let fs = FreeSpace::new();
    assert_eq!(fs.slot_count(), 0);
    assert_eq!(fs.next_id(), 0);
    assert_eq!(fs.slot(0), None);
    assert_eq!(fs.find_slot(0), None);
    assert!(fs.live_boxes().is_empty());
    let mut out = vec![(7, 7)];
    fs.probe(&r(0, 0, 1, 1), &mut out);
    assert_eq!(out, vec![(7, 7)]);
    let copy = fs.clone();
    assert_eq!(copy.slot_count(), 0);
    assert_eq!(FreeSpace::starting_at(17).next_id(), 17);
}

#[test]
fn insert_hands_out_ids_and_drops_boxes_without_area() {
    let mut fs = FreeSpace::new();
    assert_eq!(fs.insert(r(0, 0, 5, 5)), Some(0));
    assert_eq!(fs.insert(r(5, 0, 5, 5)), None);
    assert_eq!(fs.insert(r(5, 0, 9, 0)), None);
    assert_eq!(fs.insert(r(5, 0, 9, 5)), Some(1));
    assert_eq!(fs.next_id(), 2);
    assert_eq!(fs.slot_count(), 2);
    assert_eq!(fs.live_boxes(), vec![(r(0, 0, 5, 5), 0), (r(5, 0, 9, 5), 1)]);
    assert_eq!(fs.slot(1), Some((r(5, 0, 9, 5), 1)));
    assert_eq!(fs.slot(2), None);
    assert_eq!(fs.find_slot(1), Some(1));
    assert_eq!(fs.find_slot(2), None);
}

#[test]
fn a_removed_slot_is_empty_until_the_next_insert_takes_it() {
    let mut fs = FreeSpace::new();
    assert_eq!(fs.insert(r(0, 0, 5, 5)), Some(0));
    assert_eq!(fs.insert(r(5, 0, 9, 5)), Some(1));
    assert_eq!(fs.insert(r(9, 0, 12, 5)), Some(2));
    fs.tombstone(0);
    fs.tombstone(2);
    assert_eq!(fs.slot_count(), 3);
    assert_eq!(fs.slot(0), None);
    assert_eq!(fs.slot(2), None);
    assert_eq!(fs.find_slot(0), None);
    assert_eq!(fs.live_boxes(), vec![(r(5, 0, 9, 5), 1)]);
    // a removed box is not found by the search any more
    let mut out = Vec::new();
    fs.probe(&r(-1, -1, 20, 20), &mut out);
    assert_eq!(out, vec![(1, NEW_BOX_ID)]);
    // the slot emptied last is taken first
    assert_eq!(fs.insert(r(20, 20, 30, 30)), Some(3));
    assert_eq!(fs.slot(2), Some((r(20, 20, 30, 30), 3)));
    assert_eq!(fs.slot(0), None);
    assert_eq!(fs.insert(r(30, 20, 40, 30)), Some(4));
    assert_eq!(fs.slot(0), Some((r(30, 20, 40, 30), 4)));
    assert_eq!(fs.insert(r(40, 20, 50, 30)), Some(5));
    assert_eq!(fs.slot_count(), 4);
    assert_eq!(fs.slot(3), Some((r(40, 20, 50, 30), 5)));
}

#[test]
fn the_search_reports_overlapping_boxes_in_slot_order() {
    let mut fs = FreeSpace::starting_at(10);
    assert_eq!(fs.insert(r(0, 0, 5, 5)), Some(10));
    assert_eq!(fs.insert(r(5, 0, 9, 5)), Some(11));
    assert_eq!(fs.insert(r(0, 5, 9, 9)), Some(12));
    let mut out = Vec::new();
    fs.probe(&r(4, 4, 6, 6), &mut out);
    assert_eq!(out, vec![(10, NEW_BOX_ID), (11, NEW_BOX_ID), (12, NEW_BOX_ID)]);
    out.clear();
    fs.probe(&r(5, 0, 9, 5), &mut out);
    assert_eq!(out, vec![(11, NEW_BOX_ID)]);
    out.clear();
    fs.probe(&r(9, 0, 12, 9), &mut out);
    assert!(out.is_empty());
}

#[test]
fn cutting_the_partition_directly() {
    let mut fs = FreeSpace::new();
    assert_eq!(fs.insert(r(0, 0, 10, 10)), Some(0));
    assert_eq!(fs.insert(r(10, 0, 20, 10)), Some(1));
    let new = r(8, 2, 12, 4);
    assert_eq!(fs.cut_space(&new), Ok(()));
    // the first piece of each box takes the slot of that box, the others
    // go behind the last slot
    assert_eq!(
        fs.live_boxes(),
        vec![
            (r(0, 0, 8, 10), 2),
            (r(10, 4, 12, 10), 5),
            (r(8, 4, 10, 10), 3),
            (r(8, 0, 10, 2), 4),
            (r(12, 0, 20, 10), 6),
            (r(10, 0, 12, 2), 7),
        ]
    );
    assert_eq!(fs.next_id(), 8);
}

#[test]
fn a_box_that_is_swallowed_leaves_its_slot_to_the_next_piece() {
    let mut fs = FreeSpace::new();
    assert_eq!(fs.insert(r(0, 0, 4, 4)), Some(0));
    assert_eq!(fs.insert(r(4, 0, 20, 10)), Some(1));
    // covers the first box whole and takes a corner off the second
    let new = r(-1, -1, 6, 6);
    let mut found = Vec::new();
    fs.probe(&new, &mut found);
    assert_eq!(found, vec![(0, NEW_BOX_ID), (1, NEW_BOX_ID)]);
    assert_eq!(fs.cut_space(&new), Ok(()));
    // the slot of the second box was emptied last and is taken first
    assert_eq!(fs.slot(1), Some((r(4, 6, 6, 10), 2)));
    assert_eq!(fs.slot(0), Some((r(6, 0, 20, 10), 3)));
    assert_eq!(fs.slot_count(), 2);
}
