//! The free-space partition: a slot map of disjoint boxes with their
//! identifiers, an identifier counter, and a free list of removed slots.

use vstd::prelude::*;
use crate::box_cutting::{BoxExtensions, Rect};
use crate::store::{
    hits, store_clone, store_entries, store_get, store_probe, store_push, store_put,
    store_with_capacity, BoxStore,
};

verus! {

/// The number of slots reserved when a partition is made.
pub const INITIAL_CAPACITY: usize = 256;

/// The identifier under which a candidate box is handed to the intersection
/// search.
pub const NEW_BOX_ID: usize = usize::MAX - 1;

/// The box written over a removed entry. It intersects no box, so a search
/// never reports the slot that holds it.
pub open spec fn tombstone() -> Rect {
    Rect { lo_x: i64::MAX, lo_y: i64::MAX, hi_x: i64::MAX, hi_y: i64::MAX }
}

/// The partition as a slot map: a slot holds a box with its identifier, or
/// nothing once the entry was removed. `dead` is the free list: the empty
/// slots, the one emptied last at the end. `next_id` is the identifier that
/// the next inserted box gets.
pub struct FreeSpaceView {
    pub slots: Seq<Option<(Rect, usize)>>,
    pub dead: Seq<usize>,
    pub next_id: nat,
}

impl FreeSpaceView {
    /// Slot `i` exists and holds an entry.
    pub open spec fn live(self, i: int) -> bool {
        0 <= i < self.slots.len() && self.slots[i] is Some
    }

    /// The box in slot `i`.
    pub open spec fn rect(self, i: int) -> Rect {
        self.slots[i].unwrap().0
    }

    /// The identifier of the box in slot `i`.
    pub open spec fn id(self, i: int) -> usize {
        self.slots[i].unwrap().1
    }

    /// The free list names each empty slot once and no other slot.
    pub open spec fn free_list_ok(self) -> bool {
        &&& self.slots.len() <= usize::MAX
        &&& forall|k: int|
            0 <= k < self.dead.len() ==> (#[trigger] self.dead[k]) < self.slots.len()
                && self.slots[self.dead[k] as int] is None
        &&& self.dead.no_duplicates()
        &&& forall|i: int|
            0 <= i < self.slots.len() && (#[trigger] self.slots[i]) is None ==> self.dead.contains(
                i as usize,
            )
    }

    /// Every live box has positive area and an identifier below `next_id`;
    /// no two live boxes overlap or share an identifier; and the free list
    /// is in order.
    pub open spec fn wf(self) -> bool {
        &&& forall|i: int| #[trigger]
            self.live(i) ==> self.rect(i).solid() && self.id(i) < self.next_id
        &&& forall|i: int, j: int|
            #![trigger self.live(i), self.live(j)]
            self.live(i) && self.live(j) && i != j ==> !self.rect(i).overlaps(self.rect(j))
                && self.id(i) != self.id(j)
        &&& self.free_list_ok()
    }

    /// The partition after the box `b` was inserted. A box without area is
    /// dropped. Any other takes the identifier `next_id` and the slot at the
    /// end of the free list, or a new slot behind the last if the free list
    /// is empty.
    pub open spec fn inserted(self, b: Rect) -> FreeSpaceView {
        if b.is_degenerate() {
            self
        } else if self.dead.len() > 0 {
            FreeSpaceView {
                slots: self.slots.update(self.dead.last() as int, Some((b, self.next_id as usize))),
                dead: self.dead.drop_last(),
                next_id: self.next_id + 1,
            }
        } else {
            FreeSpaceView {
                slots: self.slots.push(Some((b, self.next_id as usize))),
                dead: self.dead,
                next_id: self.next_id + 1,
            }
        }
    }

    /// The partition after the entry in slot `i` was removed: the slot is
    /// empty and goes to the end of the free list.
    pub open spec fn removed(self, i: int) -> FreeSpaceView {
        FreeSpaceView {
            slots: self.slots.update(i, None),
            dead: self.dead.push(i as usize),
            next_id: self.next_id,
        }
    }

    /// Every live box lies inside `bound`.
    pub open spec fn inside(self, bound: Rect) -> bool {
        forall|i: int| #[trigger] self.live(i) ==> self.rect(i).within(bound)
    }

    /// Some live box is `b`.
    pub open spec fn has(self, b: Rect) -> bool {
        exists|i: int| #[trigger] self.live(i) && self.rect(i) == b
    }

    /// Some live box is `b` and carries the identifier `id`.
    pub open spec fn has_entry(self, b: Rect, id: int) -> bool {
        exists|i: int| #[trigger] self.live(i) && self.rect(i) == b && self.id(i) == id
    }

    /// Some live box carries the identifier `id`.
    pub open spec fn has_id(self, id: int) -> bool {
        exists|i: int| #[trigger] self.live(i) && self.id(i) == id
    }

    /// Some live box covers the cell at `(x, y)`.
    pub open spec fn covered(self, x: int, y: int) -> bool {
        exists|i: int| #[trigger] self.live(i) && self.rect(i).covers(x, y)
    }

    /// Some live box overlaps `b`.
    pub open spec fn touches(self, b: Rect) -> bool {
        exists|i: int| #[trigger] self.live(i) && self.rect(i).overlaps(b)
    }
}

/// Inserting a box that overlaps no box of a well-formed partition leaves
/// the partition well-formed, as long as the identifier and the slots do
/// not run out.
pub proof fn lemma_inserted_wf(v: FreeSpaceView, b: Rect)
    requires
        v.wf(),
        b.wf(),
        !v.touches(b),
        v.next_id < usize::MAX,
        b.solid() && v.dead.len() == 0 ==> v.slots.len() < usize::MAX,
    ensures
        v.inserted(b).wf(),
{
    let post = v.inserted(b);
    if !b.is_degenerate() {
        let id = v.next_id as usize;
        assert forall|i: int| v.live(i) implies !v.rect(i).overlaps(b) by {
            if v.rect(i).overlaps(b) {
                assert(v.live(i) && v.rect(i).overlaps(b));
            }
        }
        let s = if v.dead.len() > 0 {
            v.dead.last() as int
        } else {
            v.slots.len() as int
        };
        if v.dead.len() > 0 {
            let last = v.dead.len() - 1;
            assert(v.dead[last] == s);
            assert forall|k: int, l: int|
                0 <= k < post.dead.len() && 0 <= l < post.dead.len() && k != l implies post.dead[k]
                != post.dead[l] by {
                assert(post.dead[k] == v.dead[k]);
                assert(post.dead[l] == v.dead[l]);
            }
            assert forall|i: int|
                0 <= i < post.slots.len() && (
                #[trigger] post.slots[i]) is None implies post.dead.contains(i as usize) by {
                assert(v.slots[i] is None);
                let k = choose|k: int| 0 <= k < v.dead.len() && v.dead[k] == i as usize;
                assert(post.dead[k] == i as usize);
            }
            assert forall|k: int| 0 <= k < post.dead.len() implies (#[trigger] post.dead[k])
                < post.slots.len() && post.slots[post.dead[k] as int] is None by {
                assert(v.dead[k] == post.dead[k]);
                assert(v.dead[k] != v.dead[last]);
            }
        } else {
            assert forall|i: int|
                0 <= i < post.slots.len() && (
                #[trigger] post.slots[i]) is None implies post.dead.contains(i as usize) by {
                assert(v.slots[i] is None);
                assert(v.dead.contains(i as usize));
            }
        }
        assert forall|i: int| #[trigger] post.live(i) implies post.rect(i).solid() && post.id(i)
            < post.next_id by {
            if i != s {
                assert(v.live(i));
            }
        }
        assert forall|i: int, j: int|
            #![trigger post.live(i), post.live(j)]
            post.live(i) && post.live(j) && i != j implies !post.rect(i).overlaps(post.rect(j))
            && post.id(i) != post.id(j) by {
            if i != s {
                assert(v.live(i));
            }
            if j != s {
                assert(v.live(j));
            }
        }
    }
}

/// Removing a live entry leaves a well-formed partition well-formed.
pub proof fn lemma_removed_wf(v: FreeSpaceView, i: int)
    requires
        v.wf(),
        v.live(i),
    ensures
        v.removed(i).wf(),
{
    let post = v.removed(i);
    assert forall|j: int|
        0 <= j < post.slots.len() && (#[trigger] post.slots[j]) is None implies post.dead.contains(
        j as usize,
    ) by {
        if j == i {
            assert(post.dead[post.dead.len() - 1] == i);
        } else {
            assert(v.slots[j] is None);
            let k = choose|k: int| 0 <= k < v.dead.len() && v.dead[k] == j as usize;
            assert(post.dead[k] == j as usize);
        }
    }
    assert forall|k: int| 0 <= k < post.dead.len() implies (#[trigger] post.dead[k])
        < post.slots.len() && post.slots[post.dead[k] as int] is None by {
        if k < v.dead.len() {
            assert(v.dead[k] == post.dead[k]);
        }
    }
    assert forall|k: int, l: int|
        0 <= k < post.dead.len() && 0 <= l < post.dead.len() && k != l implies post.dead[k]
        != post.dead[l] by {
        if k < v.dead.len() {
            assert(post.dead[k] == v.dead[k]);
        }
        if l < v.dead.len() {
            assert(post.dead[l] == v.dead[l]);
        }
    }
    assert forall|j: int| #[trigger] post.live(j) implies post.rect(j).solid() && post.id(j)
        < post.next_id by {
        assert(v.live(j));
    }
    assert forall|j: int, l: int|
        #![trigger post.live(j), post.live(l)]
        post.live(j) && post.live(l) && j != l implies !post.rect(j).overlaps(post.rect(l))
        && post.id(j) != post.id(l) by {
        assert(v.live(j));
        assert(v.live(l));
    }
}

/// What the intersection search reports for `probe`: for each live slot in
/// order whose box overlaps `probe`, the identifier of that box paired with
/// [`NEW_BOX_ID`].
pub open spec fn slot_hits(slots: Seq<Option<(Rect, usize)>>, probe: Rect) -> Seq<(usize, usize)>
    decreases slots.len(),
{
    if slots.len() == 0 {
        Seq::empty()
    } else {
        let rest = slot_hits(slots.drop_last(), probe);
        match slots.last() {
            Some(e) => if e.0.overlaps(probe) {
                rest.push((e.1, NEW_BOX_ID))
            } else {
                rest
            },
            None => rest,
        }
    }
}

/// The live slots whose boxes overlap `probe`, in ascending order.
pub open spec fn hit_slots(slots: Seq<Option<(Rect, usize)>>, probe: Rect) -> Seq<int>
    decreases slots.len(),
{
    if slots.len() == 0 {
        Seq::empty()
    } else {
        let rest = hit_slots(slots.drop_last(), probe);
        match slots.last() {
            Some(e) => if e.0.overlaps(probe) {
                rest.push(slots.len() - 1)
            } else {
                rest
            },
            None => rest,
        }
    }
}

/// The reported pairs and the overlapping slots correspond one to one: the
/// slots are live, overlap `probe`, come in ascending order, and none is
/// left out.
pub proof fn lemma_hit_slots(slots: Seq<Option<(Rect, usize)>>, probe: Rect)
    ensures
        hit_slots(slots, probe).len() == slot_hits(slots, probe).len(),
        hit_slots(slots, probe).len() <= slots.len(),
        forall|t: int|
            0 <= t < hit_slots(slots, probe).len() ==> {
                let i = #[trigger] hit_slots(slots, probe)[t];
                &&& 0 <= i < slots.len()
                &&& slots[i] is Some
                &&& slots[i].unwrap().0.overlaps(probe)
                &&& slot_hits(slots, probe)[t] == (slots[i].unwrap().1, NEW_BOX_ID)
            },
        forall|t: int, u: int|
            0 <= t < u < hit_slots(slots, probe).len() ==> #[trigger] hit_slots(slots, probe)[t]
                < #[trigger] hit_slots(slots, probe)[u],
        forall|i: int|
            0 <= i < slots.len() && (#[trigger] slots[i]) is Some && slots[i].unwrap().0.overlaps(
                probe,
            ) ==> hit_slots(slots, probe).contains(i),
    decreases slots.len(),
{
    if slots.len() > 0 {
        let front = slots.drop_last();
        lemma_hit_slots(front, probe);
        let hs = hit_slots(slots, probe);
        let fs = hit_slots(front, probe);
        assert forall|i: int|
            0 <= i < slots.len() && (#[trigger] slots[i]) is Some && slots[i].unwrap().0.overlaps(
                probe,
            ) implies hs.contains(i) by {
            if i < front.len() {
                assert(front[i] == slots[i]);
                let t = choose|t: int| 0 <= t < fs.len() && fs[t] == i;
                assert(hs[t] == i);
            } else {
                assert(hs[hs.len() - 1] == i);
            }
        }
        assert forall|t: int| 0 <= t < hs.len() implies {
            let i = #[trigger] hs[t];
            &&& 0 <= i < slots.len()
            &&& slots[i] is Some
            &&& slots[i].unwrap().0.overlaps(probe)
            &&& slot_hits(slots, probe)[t] == (slots[i].unwrap().1, NEW_BOX_ID)
        } by {
            if t < fs.len() {
                assert(hs[t] == fs[t]);
                assert(front[fs[t]] == slots[fs[t]]);
            }
        }
        assert forall|t: int, u: int| 0 <= t < u < hs.len() implies #[trigger] hs[t]
            < #[trigger] hs[u] by {
            assert(hs[t] == fs[t]);
            if u < fs.len() {
                assert(hs[u] == fs[u]);
            }
        }
    }
}

/// Some live box overlaps `probe` exactly if the search reports a pair.
pub proof fn lemma_touches_iff_hits(v: FreeSpaceView, probe: Rect)
    ensures
        v.touches(probe) <==> slot_hits(v.slots, probe).len() > 0,
{
    lemma_hit_slots(v.slots, probe);
    let hs = hit_slots(v.slots, probe);
    if v.touches(probe) {
        let i = choose|i: int| #[trigger] v.live(i) && v.rect(i).overlaps(probe);
        assert(v.slots[i] is Some);
        assert(hs.contains(i));
    }
    if hs.len() > 0 {
        let i = hs[0];
        assert(v.live(i) && v.rect(i).overlaps(probe));
    }
}

/// The entries of the live slots, in slot order.
pub open spec fn live_entries(slots: Seq<Option<(Rect, usize)>>) -> Seq<(Rect, usize)>
    decreases slots.len(),
{
    if slots.len() == 0 {
        Seq::empty()
    } else {
        let rest = live_entries(slots.drop_last());
        match slots.last() {
            Some(e) => rest.push(e),
            None => rest,
        }
    }
}

/// The search over the stored entries reports what [`slot_hits`] says of
/// the slot map, since the box left in a removed slot overlaps nothing.
proof fn lemma_hits_agree(entries: Seq<(Rect, usize)>, alive: Seq<bool>, probe: Rect)
    requires
        alive.len() == entries.len(),
        forall|i: int|
            0 <= i < entries.len() && !alive[i] ==> (#[trigger] entries[i]).0 == tombstone(),
    ensures
        hits(entries, probe, NEW_BOX_ID) == slot_hits(
            Seq::new(
                alive.len(),
                |i: int|
                    if alive[i] {
                        Some(entries[i])
                    } else {
                        None
                    },
            ),
            probe,
        ),
    decreases entries.len(),
{
    let slots = Seq::new(
        alive.len(),
        |i: int|
            if alive[i] {
                Some(entries[i])
            } else {
                None
            },
    );
    if entries.len() > 0 {
        let e2 = entries.drop_last();
        let a2 = alive.drop_last();
        lemma_hits_agree(e2, a2, probe);
        let s2 = Seq::new(
            a2.len(),
            |i: int|
                if a2[i] {
                    Some(e2[i])
                } else {
                    None
                },
        );
        assert(slots.drop_last() =~= s2);
        let last = entries.len() - 1;
        assert(entries.last() == entries[last]);
        assert(slots.last() == slots[last]);
        if !alive[last] {
            assert(entries[last].0 == tombstone());
        }
    }
}

/// The free boxes, held in a `BBoxSet` so that the intersection search can
/// run on them directly. A removed entry leaves its slot behind; the slot is
/// marked as not alive, queued in `dead`, and taken again by a later insert.
pub struct FreeSpace {
    store: BoxStore,
    alive: Vec<bool>,
    dead: Vec<usize>,
    next_id: usize,
}

impl View for FreeSpace {
    type V = FreeSpaceView;

    closed spec fn view(&self) -> FreeSpaceView {
        FreeSpaceView {
            slots: Seq::new(
                self.alive@.len(),
                |i: int|
                    if self.alive@[i] {
                        Some(store_entries(self.store)[i])
                    } else {
                        None
                    },
            ),
            dead: self.dead@,
            next_id: self.next_id as nat,
        }
    }
}

impl FreeSpace {
    /// The representation is consistent and the partition it stands for is
    /// well-formed.
    pub closed spec fn inv(&self) -> bool {
        let entries = store_entries(self.store);
        &&& self.alive@.len() == entries.len()
        &&& forall|i: int|
            0 <= i < entries.len() && !self.alive@[i] ==> (#[trigger] entries[i]).0 == tombstone()
        &&& self@.wf()
    }

    /// A consistent partition stands for a well-formed slot map whose
    /// identifier counter fits the machine word.
    pub proof fn lemma_inv_wf(&self)
        requires
            self.inv(),
        ensures
            self@.wf(),
            self@.next_id <= usize::MAX,
    {
    }

    /// An empty partition whose first identifier is 0.
    pub fn new() -> (r: FreeSpace)
        ensures
            r.inv(),
            r@.slots.len() == 0,
            r@.dead.len() == 0,
            r@.next_id == 0,
    {
        FreeSpace::starting_at(0)
    }

    /// An empty partition whose first identifier is `first_id`.
    pub fn starting_at(first_id: usize) -> (r: FreeSpace)
        ensures
            r.inv(),
            r@.slots.len() == 0,
            r@.dead.len() == 0,
            r@.next_id == first_id,
    {
        FreeSpace {
            store: store_with_capacity(INITIAL_CAPACITY),
            alive: Vec::new(),
            dead: Vec::new(),
            next_id: first_id,
        }
    }

    /// The number of slots, live or not.
    pub fn slot_count(&self) -> (n: usize)
        requires
            self.inv(),
        ensures
            n == self@.slots.len(),
    {
        self.alive.len()
    }

    /// The identifier that the next inserted box gets.
    pub fn next_id(&self) -> (n: usize)
        ensures
            n == self@.next_id,
    {
        self.next_id
    }

    /// The entry in slot `i`, if the slot is live.
    pub fn slot(&self, i: usize) -> (r: Option<(Rect, usize)>)
        requires
            self.inv(),
        ensures
            i < self@.slots.len() ==> r == self@.slots[i as int],
            i >= self@.slots.len() ==> r is None,
    {
        if i < self.alive.len() && self.alive[i] {
            Some(store_get(&self.store, i))
        } else {
            None
        }
    }

    /// The live boxes with their identifiers, in slot order.
    pub fn live_boxes(&self) -> (r: Vec<(Rect, usize)>)
        requires
            self.inv(),
        ensures
            r@ == live_entries(self@.slots),
    {
        let n: usize = self.slot_count();
        let mut out: Vec<(Rect, usize)> = Vec::new();
        let mut i: usize = 0;
        while i < n
            invariant
                self.inv(),
                n == self@.slots.len(),
                i <= n,
                out@ == live_entries(self@.slots.take(i as int)),
            decreases n - i,
        {
            let entry = self.slot(i);
            proof {
                let next = self@.slots.take(i + 1);
                assert(next.drop_last() =~= self@.slots.take(i as int));
                assert(next.last() == self@.slots[i as int]);
            }
            match entry {
                Some(e) => {
                    out.push(e);
                },
                None => {},
            }
            i = i + 1;
        }
        proof {
            assert(self@.slots.take(n as int) =~= self@.slots);
        }
        out
    }

    /// Searches the partition for the boxes that overlap `probe` and appends
    /// to `out`, for each in slot order, its identifier paired with
    /// [`NEW_BOX_ID`].
    pub fn probe(&self, probe: &Rect, out: &mut Vec<(usize, usize)>)
        requires
            self.inv(),
        ensures
            final(out)@ == old(out)@ + slot_hits(self@.slots, *probe),
    {
        proof {
            lemma_hits_agree(store_entries(self.store), self.alive@, *probe);
        }
        store_probe(&self.store, *probe, NEW_BOX_ID, out);
    }

    /// Puts `b`, which must not overlap a box of the partition, into the
    /// partition under a new identifier and returns that identifier. A box
    /// without area is dropped and `None` is returned. The box takes the
    /// slot emptied last, or a new slot if none is waiting.
    pub fn insert(&mut self, b: Rect) -> (r: Option<usize>)
        requires
            old(self).inv(),
            b.wf(),
            old(self)@.next_id < usize::MAX,
            !old(self)@.touches(b),
        ensures
            final(self).inv(),
            final(self)@ == old(self)@.inserted(b),
            r == (if b.is_degenerate() {
                None
            } else {
                Some(old(self)@.next_id as usize)
            }),
    {
        if b.is_empty() {
            return None;
        }
        let id: usize = self.next_id;
        let ghost pre = self@;
        match self.dead.pop() {
            Some(v) => {
                proof {
                    assert(pre.dead[pre.dead.len() - 1] == v);
                }
                store_put(&mut self.store, v, id, b);
                self.alive.set(v, true);
                self.next_id = id + 1;
                proof {
                    assert(self@.slots =~= pre.slots.update(v as int, Some((b, id))));
                    assert(self@.dead =~= pre.dead.drop_last());
                }
            },
            None => {
                store_push(&mut self.store, id, b);
                self.alive.push(true);
                self.next_id = id + 1;
                proof {
                    assert(self.alive@.len() == self.alive.len());
                    assert(self@.slots =~= pre.slots.push(Some((b, id))));
                    assert(self@.dead =~= pre.dead);
                }
            },
        }
        proof {
            assert(self@ == pre.inserted(b));
            assert(self.alive@.len() == self.alive.len());
            lemma_inserted_wf(pre, b);
        }
        Some(id)
    }

    /// Removes the entry in the live slot `i`: the slot is emptied and queued
    /// for the next insert.
    pub fn tombstone(&mut self, i: usize)
        requires
            old(self).inv(),
            old(self)@.live(i as int),
        ensures
            final(self).inv(),
            final(self)@ == old(self)@.removed(i as int),
    {
        let ghost pre = self@;
        let (_, id) = store_get(&self.store, i);
        let grave = Rect::new([i64::MAX, i64::MAX], [i64::MAX, i64::MAX]);
        store_put(&mut self.store, i, id, grave);
        self.alive.set(i, false);
        self.dead.push(i);
        proof {
            assert(self@.slots =~= pre.slots.update(i as int, None));
            assert(self@.dead =~= pre.dead.push(i));
            assert(self@ == pre.removed(i as int));
            lemma_removed_wf(pre, i as int);
        }
    }

    /// Looks for the live slot that holds the identifier `id`.
    pub fn find_slot(&self, id: usize) -> (r: Option<usize>)
        requires
            self.inv(),
        ensures
            r matches Some(s) ==> self@.live(s as int) && self@.id(s as int) == id,
            r is None ==> forall|i: int| #[trigger] self@.live(i) ==> self@.id(i) != id,
    {
        let n: usize = self.alive.len();
        let mut i: usize = 0;
        while i < n
            invariant
                self.inv(),
                n == self@.slots.len(),
                i <= n,
                forall|j: int| 0 <= j < i && #[trigger] self@.live(j) ==> self@.id(j) != id,
            decreases n - i,
        {
            if self.alive[i] {
                let (_, found) = store_get(&self.store, i);
                if found == id {
                    return Some(i);
                }
            }
            i = i + 1;
        }
        None
    }
}

impl Clone for FreeSpace {
    /// A deep copy: the copy and `self` share nothing.
    fn clone(&self) -> (r: FreeSpace)
        ensures
            r@ == self@,
            self.inv() ==> r.inv(),
    {
        let r = FreeSpace {
            store: store_clone(&self.store),
            alive: self.alive.clone(),
            dead: self.dead.clone(),
            next_id: self.next_id,
        };
        proof {
            assert(r.alive@ =~= self.alive@);
            assert(r.dead@ =~= self.dead@);
            assert(r@.slots =~= self@.slots);
        }
        r
    }
}

} // verus!
