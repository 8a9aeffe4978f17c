use vstd::prelude::*;

use crate::geometry::{is_within, within, ColliderShape, Entity, Point};

verus! {

/// Reference to a slot of a `SpatialGrid`. Slots are never reused, so a handle whose entry
/// was removed stays stale for good.
#[derive(Clone, Copy, Debug, PartialEq, Eq, Structural)]
pub struct GridHandle {
    pub slot: usize,
}

/// One slot of the grid: the payload, the position that queries see, and the changes
/// buffered until the next `maintain`.
#[derive(Clone, Copy, Debug, PartialEq, Eq, Structural)]
pub struct Slot {
    pub entity: Entity,
    pub shape: ColliderShape,
    /// Position seen by queries.
    pub pos: Point,
    /// Position that the next `maintain` makes visible.
    pub next_pos: Point,
    /// The slot is present in the index (queries and `get` see it).
    pub alive: bool,
    /// Removal was requested; the next `maintain` takes the slot out of the index.
    pub dropped: bool,
}

/// A slot that holds a live entry: present and not scheduled for removal.
pub open spec fn is_live(slots: Seq<Slot>, h: GridHandle) -> bool {
    h.slot < slots.len() && slots[h.slot as int].alive && !slots[h.slot as int].dropped
}

/// A slot that queries and lookups see.
pub open spec fn is_visible(slots: Seq<Slot>, h: GridHandle) -> bool {
    h.slot < slots.len() && slots[h.slot as int].alive
}

/// What `maintain` makes of one slot.
pub open spec fn committed(s: Slot) -> Slot {
    if s.alive && s.dropped {
        Slot { alive: false, ..s }
    } else if s.alive {
        Slot { pos: s.next_pos, ..s }
    } else {
        s
    }
}

/// The slots after `maintain`.
pub open spec fn commit_all(slots: Seq<Slot>) -> Seq<Slot> {
    Seq::new(slots.len(), |i: int| committed(slots[i]))
}

/// The slots after a removal request for `h`.
pub open spec fn dropped_at(slots: Seq<Slot>, h: GridHandle) -> Seq<Slot> {
    if is_live(slots, h) {
        slots.update(h.slot as int, Slot { dropped: true, ..slots[h.slot as int] })
    } else {
        slots
    }
}

/// The slots after `h` is scheduled to move to `pos`.
pub open spec fn moved_at(slots: Seq<Slot>, h: GridHandle, pos: Point) -> Seq<Slot> {
    if is_live(slots, h) {
        slots.update(h.slot as int, Slot { next_pos: pos, ..slots[h.slot as int] })
    } else {
        slots
    }
}

/// The slots after the shape of `h` is replaced.
pub open spec fn reshaped_at(slots: Seq<Slot>, h: GridHandle, shape: ColliderShape) -> Seq<Slot> {
    if is_visible(slots, h) {
        slots.update(h.slot as int, Slot { shape, ..slots[h.slot as int] })
    } else {
        slots
    }
}

/// A fresh slot, present at `pos`.
pub open spec fn fresh_slot(entity: Entity, shape: ColliderShape, pos: Point) -> Slot {
    Slot { entity, shape, pos, next_pos: pos, alive: true, dropped: false }
}

/// The answer to a query around `center`, over the first `n` slots, in slot order.
pub open spec fn around(slots: Seq<Slot>, n: nat, center: Point, radius: u32) -> Seq<(GridHandle, Point)>
    decreases n,
{
    if n == 0 {
        Seq::empty()
    } else {
        let prev = around(slots, (n - 1) as nat, center, radius);
        let s = slots[n - 1];
        if s.alive && within(s.pos, center, radius) {
            prev.push((GridHandle { slot: (n - 1) as usize }, s.pos))
        } else {
            prev
        }
    }
}

/// A query answer holds `(h, p)` exactly when slot `h` is visible, lies within the radius,
/// and `p` is its visible position.
pub proof fn lemma_around_contains(slots: Seq<Slot>, n: nat, center: Point, radius: u32, h: GridHandle, p: Point)
    requires
        n <= slots.len(),
        slots.len() <= usize::MAX,
    ensures
        around(slots, n, center, radius).contains((h, p)) <==> (h.slot < n && slots[h.slot as int].alive
            && within(slots[h.slot as int].pos, center, radius) && p == slots[h.slot as int].pos),
    decreases n,
{
    if n > 0 {
        lemma_around_contains(slots, (n - 1) as nat, center, radius, h, p);
        let prev = around(slots, (n - 1) as nat, center, radius);
        let s = slots[n - 1];
        if s.alive && within(s.pos, center, radius) {
            let e = (GridHandle { slot: (n - 1) as usize }, s.pos);
            assert(prev.push(e).contains((h, p)) <==> (prev.contains((h, p)) || e == (h, p))) by {
                if prev.push(e).contains((h, p)) {
                    let k = choose|k: int| 0 <= k < prev.push(e).len() && prev.push(e)[k] == (h, p);
                    if k < prev.len() {
                        assert(prev[k] == (h, p));
                    }
                }
                if prev.contains((h, p)) {
                    let k = choose|k: int| 0 <= k < prev.len() && prev[k] == (h, p);
                    assert(prev.push(e)[k] == (h, p));
                }
                if e == (h, p) {
                    assert(prev.push(e)[prev.len() as int] == (h, p));
                }
            }
        }
    }
}

/// A spatial index over circular colliders, kept as a table of slots addressed by handle.
/// Repositioning and removal are buffered and become visible to queries only after
/// `maintain`; insertion and shape changes are visible at once. Queries scan the slots; the
/// cell size is the bucket width the owner configured and is reported back unchanged.
pub struct SpatialGrid {
    cell_size: u32,
    slots: Vec<Slot>,
}

impl SpatialGrid {
    /// The slots, indexed by handle.
    pub closed spec fn view(&self) -> Seq<Slot> {
        self.slots@
    }

    /// The bucket width the grid was configured with.
    pub closed spec fn spec_cell_size(&self) -> u32 {
        self.cell_size
    }

    pub fn new(cell_size: u32) -> (r: SpatialGrid)
        ensures
            r@ == Seq::<Slot>::empty(),
            r.spec_cell_size() == cell_size,
    {
        SpatialGrid { cell_size, slots: Vec::new() }
    }

    pub fn cell_size(&self) -> (r: u32)
        ensures
            r == self.spec_cell_size(),
    {
        self.cell_size
    }

    pub fn len(&self) -> (r: usize)
        ensures
            r == self@.len(),
    {
        self.slots.len()
    }

    /// Adds an entry at `pos`; it is visible to queries at once.
    pub fn insert(&mut self, pos: Point, entity: Entity, shape: ColliderShape) -> (r: GridHandle)
        requires
            old(self)@.len() < usize::MAX,
        ensures
            r.slot == old(self)@.len(),
            final(self)@ == old(self)@.push(fresh_slot(entity, shape, pos)),
            final(self).spec_cell_size() == old(self).spec_cell_size(),
    {
        let h = GridHandle { slot: self.slots.len() };
        self.slots.push(Slot { entity, shape, pos, next_pos: pos, alive: true, dropped: false });
        h
    }

    /// Schedules a live entry to move to `pos`; a stale handle is ignored.
    pub fn set_position(&mut self, h: GridHandle, pos: Point)
        ensures
            final(self)@ == moved_at(old(self)@, h, pos),
            final(self).spec_cell_size() == old(self).spec_cell_size(),
    {
        if h.slot < self.slots.len() {
            let s = self.slots[h.slot];
            if s.alive && !s.dropped {
                self.slots.set(h.slot, Slot { next_pos: pos, ..s });
            }
        }
    }

    /// Replaces the shape of a visible entry at once; a stale handle is ignored.
    pub fn set_shape(&mut self, h: GridHandle, shape: ColliderShape)
        ensures
            final(self)@ == reshaped_at(old(self)@, h, shape),
            final(self).spec_cell_size() == old(self).spec_cell_size(),
    {
        if h.slot < self.slots.len() {
            let s = self.slots[h.slot];
            if s.alive {
                self.slots.set(h.slot, Slot { shape, ..s });
            }
        }
    }

    /// Schedules a live entry for removal; a stale handle is ignored.
    pub fn remove(&mut self, h: GridHandle)
        ensures
            final(self)@ == dropped_at(old(self)@, h),
            final(self).spec_cell_size() == old(self).spec_cell_size(),
    {
        if h.slot < self.slots.len() {
            let s = self.slots[h.slot];
            if s.alive && !s.dropped {
                self.slots.set(h.slot, Slot { dropped: true, ..s });
            }
        }
    }

    /// Visible position and payload of an entry.
    pub fn get(&self, h: GridHandle) -> (r: Option<(Point, Entity, ColliderShape)>)
        ensures
            r == if is_visible(self@, h) {
                let s = self@[h.slot as int];
                Some((s.pos, s.entity, s.shape))
            } else {
                None::<(Point, Entity, ColliderShape)>
            },
    {
        if h.slot < self.slots.len() && self.slots[h.slot].alive {
            let s = self.slots[h.slot];
            Some((s.pos, s.entity, s.shape))
        } else {
            None
        }
    }

    /// Applies the buffered moves and removals.
    pub fn maintain(&mut self)
        ensures
            final(self)@ == commit_all(old(self)@),
            final(self).spec_cell_size() == old(self).spec_cell_size(),
    {
        let n = self.slots.len();
        let mut i: usize = 0;
        while i < n
            invariant
                n == self.slots@.len(),
                n == old(self)@.len(),
                i <= n,
                self.cell_size == old(self).cell_size,
                forall|k: int| 0 <= k < i ==> #[trigger] self.slots@[k] == committed(old(self)@[k]),
                forall|k: int| i <= k < n ==> #[trigger] self.slots@[k] == old(self)@[k],
            decreases n - i,
        {
            let s = self.slots[i];
            if s.alive && s.dropped {
                self.slots.set(i, Slot { alive: false, ..s });
            } else if s.alive {
                self.slots.set(i, Slot { pos: s.next_pos, ..s });
            }
            i += 1;
        }
        assert(self.slots@ =~= commit_all(old(self)@));
    }

    /// Every visible entry within `radius` of `center`, in handle order, with its position.
    pub fn query_around(&self, center: Point, radius: u32) -> (r: Vec<(GridHandle, Point)>)
        ensures
            r@ == around(self@, self@.len(), center, radius),
    {
        let mut r: Vec<(GridHandle, Point)> = Vec::new();
        let mut i: usize = 0;
        while i < self.slots.len()
            invariant
                i <= self@.len(),
                r@ == around(self@, i as nat, center, radius),
            decreases self@.len() - i,
        {
            let s = self.slots[i];
            if s.alive && is_within(s.pos, center, radius) {
                r.push((GridHandle { slot: i }, s.pos));
            }
            i += 1;
        }
        r
    }
}

} // verus!
