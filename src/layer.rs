use vstd::prelude::*;

use std::collections::HashMap;

use crate::geometry::{ColliderShape, Entity, Point};
use crate::grid::lemma_around_contains;
use crate::grid::{
    around, commit_all, dropped_at, fresh_slot, is_live, is_visible, moved_at, reshaped_at,
    GridHandle, Slot, SpatialGrid,
};
use crate::mask::{CollisionMask, MaskSet};

verus! {

/// The slots of a layer after `entity` is inserted at `pos`: an entry the entity already had
/// is scheduled for removal, and a fresh slot is appended.
pub open spec fn after_insert(
    slots: Seq<Slot>,
    handles: Map<u64, GridHandle>,
    entity: Entity,
    shape: ColliderShape,
    pos: Point,
) -> Seq<Slot> {
    let kept = if handles.contains_key(entity.id) {
        dropped_at(slots, handles[entity.id])
    } else {
        slots
    };
    kept.push(fresh_slot(entity, shape, pos))
}

/// The handle table and the slots agree: each entity in the table owns a live slot that
/// holds it, and each live slot is the one the table records for its entity.
pub open spec fn table_consistent(handles: Map<u64, GridHandle>, slots: Seq<Slot>) -> bool {
    &&& forall|id: u64| #[trigger]
        handles.contains_key(id) ==> {
            &&& is_live(slots, handles[id])
            &&& slots[handles[id].slot as int].entity.id == id
        }
    &&& forall|i: int|
        0 <= i < slots.len() && (#[trigger] slots[i]).alive && !slots[i].dropped ==> {
            &&& handles.contains_key(slots[i].entity.id)
            &&& handles[slots[i].entity.id].slot == i
        }
}

/// A change of the slots that keeps which slots are live and whom they hold keeps the
/// handle table consistent with them.
proof fn lemma_same_liveness(handles: Map<u64, GridHandle>, before: Seq<Slot>, after: Seq<Slot>)
    requires
        table_consistent(handles, before),
        after.len() == before.len(),
        forall|i: int|
            0 <= i < before.len() ==> {
                &&& ((#[trigger] after[i]).alive && !after[i].dropped) == (before[i].alive && !before[i].dropped)
                &&& after[i].entity == before[i].entity
            },
    ensures
        table_consistent(handles, after),
{
    assert forall|id: u64| #[trigger] handles.contains_key(id) implies is_live(after, handles[id])
        && after[handles[id].slot as int].entity.id == id by {
        assert(is_live(before, handles[id]));
        assert(after[handles[id].slot as int].entity == before[handles[id].slot as int].entity);
    }
    assert forall|i: int| 0 <= i < after.len() && (#[trigger] after[i]).alive && !after[i].dropped
        implies handles.contains_key(after[i].entity.id) && handles[after[i].entity.id].slot == i by {
        assert(before[i].alive && !before[i].dropped);
    }
}

/// The collision world of one kind of entity: a spatial grid and the table that binds each
/// entity to its grid slot.
pub struct CollisionLayer {
    mask: CollisionMask,
    collides_with: MaskSet,
    entity_handles: HashMap<u64, GridHandle>,
    grid: SpatialGrid,
}

impl CollisionLayer {
    /// The kind of entity that lives in this layer.
    pub closed spec fn spec_mask(&self) -> CollisionMask {
        self.mask
    }

    /// The kinds of entity that are tested against this layer.
    pub closed spec fn spec_collides_with(&self) -> Set<CollisionMask> {
        self.collides_with@
    }

    pub closed spec fn spec_cell_size(&self) -> u32 {
        self.grid.spec_cell_size()
    }

    /// The handle table, keyed by entity id.
    pub closed spec fn handles(&self) -> Map<u64, GridHandle> {
        self.entity_handles@
    }

    /// The grid slots, indexed by handle.
    pub closed spec fn slots(&self) -> Seq<Slot> {
        self.grid@
    }

    /// Whether the layer tracks `entity`.
    pub open spec fn tracks(&self, entity: Entity) -> bool {
        self.handles().contains_key(entity.id)
    }

    /// The handle table and the grid agree (see `table_consistent`).
    pub open spec fn wf(&self) -> bool {
        table_consistent(self.handles(), self.slots())
    }

    /// Same kind, same interaction rules and same grid configuration.
    pub open spec fn same_config(&self, other: &CollisionLayer) -> bool {
        &&& self.spec_mask() == other.spec_mask()
        &&& self.spec_collides_with() == other.spec_collides_with()
        &&& self.spec_cell_size() == other.spec_cell_size()
    }

    pub fn new(mask: CollisionMask, collides_with: MaskSet, cell_size: u32) -> (r: CollisionLayer)
        ensures
            r.wf(),
            r.spec_mask() == mask,
            r.spec_collides_with() == collides_with@,
            r.spec_cell_size() == cell_size,
            r.handles() == Map::<u64, GridHandle>::empty(),
            r.slots() == Seq::<Slot>::empty(),
    {
        CollisionLayer {
            mask,
            collides_with,
            entity_handles: HashMap::new(),
            grid: SpatialGrid::new(cell_size),
        }
    }

    pub fn mask(&self) -> (r: CollisionMask)
        ensures
            r == self.spec_mask(),
    {
        self.mask
    }

    pub fn collides_with(&self) -> (r: MaskSet)
        ensures
            r@ == self.spec_collides_with(),
    {
        self.collides_with
    }

    pub fn cell_size(&self) -> (r: u32)
        ensures
            r == self.spec_cell_size(),
    {
        self.grid.cell_size()
    }

    /// The number of grid slots handed out so far.
    pub fn slot_count(&self) -> (r: usize)
        ensures
            r == self.slots().len(),
    {
        self.grid.len()
    }

    /// The handle recorded for `entity`, if the layer tracks it.
    pub fn handle_of(&self, entity: Entity) -> (r: Option<GridHandle>)
        ensures
            r == if self.tracks(entity) {
                Some(self.handles()[entity.id])
            } else {
                None::<GridHandle>
            },
    {
        match self.entity_handles.get(&entity.id) {
            Some(h) => Some(*h),
            None => None,
        }
    }

    /// Schedules the entry of `handle` to move to `pos`; a stale handle is ignored.
    pub fn update(&mut self, handle: GridHandle, pos: Point)
        requires
            old(self).wf(),
        ensures
            final(self).wf(),
            final(self).same_config(old(self)),
            final(self).handles() == old(self).handles(),
            final(self).slots() == moved_at(old(self).slots(), handle, pos),
    {
        self.grid.set_position(handle, pos);
        proof {
            lemma_same_liveness(self.handles(), old(self).slots(), self.slots());
        }
    }

    /// Replaces the shape stored with the entry of `handle`; a stale handle is ignored.
    pub fn set_shape(&mut self, handle: GridHandle, shape: ColliderShape)
        requires
            old(self).wf(),
        ensures
            final(self).wf(),
            final(self).same_config(old(self)),
            final(self).handles() == old(self).handles(),
            final(self).slots() == reshaped_at(old(self).slots(), handle, shape),
    {
        self.grid.set_shape(handle, shape);
        proof {
            lemma_same_liveness(self.handles(), old(self).slots(), self.slots());
        }
    }

    /// Puts `entity` into the grid at `pos` and records its handle. An entry the entity
    /// already had is removed, so the table never holds two slots for one entity.
    pub fn insert(&mut self, entity: Entity, shape: ColliderShape, pos: Point) -> (r: GridHandle)
        requires
            old(self).wf(),
            old(self).slots().len() < usize::MAX,
        ensures
            final(self).wf(),
            final(self).same_config(old(self)),
            r.slot == old(self).slots().len(),
            final(self).handles() == old(self).handles().insert(entity.id, r),
            final(self).slots() == after_insert(old(self).slots(), old(self).handles(), entity, shape, pos),
    {
        match self.entity_handles.get(&entity.id) {
            Some(h) => {
                let h = *h;
                self.grid.remove(h);
            },
            None => {},
        }
        let handle = self.grid.insert(pos, entity, shape);
        self.entity_handles.insert(entity.id, handle);
        proof {
            let s0 = old(self).slots();
            let s1 = self.slots();
            let hs = self.handles();
            assert forall|id: u64| #[trigger] hs.contains_key(id) implies is_live(s1, hs[id])
                && s1[hs[id].slot as int].entity.id == id by {
                if id != entity.id {
                    assert(old(self).handles().contains_key(id));
                }
            }
            assert forall|i: int| 0 <= i < s1.len() && (#[trigger] s1[i]).alive && !s1[i].dropped
                implies hs.contains_key(s1[i].entity.id) && hs[s1[i].entity.id].slot == i by {
                if i < s0.len() {
                    assert(s0[i].alive && !s0[i].dropped);
                }
            }
        }
        handle
    }

    /// Takes `entity` out of the table and schedules its slot for removal. Returns whether
    /// the layer tracked it; when it did not, nothing changes.
    pub fn remove(&mut self, entity: Entity) -> (r: bool)
        requires
            old(self).wf(),
        ensures
            final(self).wf(),
            final(self).same_config(old(self)),
            r == old(self).tracks(entity),
            final(self).handles() == old(self).handles().remove(entity.id),
            final(self).slots() == if r {
                dropped_at(old(self).slots(), old(self).handles()[entity.id])
            } else {
                old(self).slots()
            },
            !r ==> final(self).handles() == old(self).handles() && final(self).slots() == old(self).slots(),
    {
        match self.entity_handles.remove(&entity.id) {
            Some(h) => {
                self.grid.remove(h);
                proof {
                    let s0 = old(self).slots();
                    let s1 = self.slots();
                    let hs = self.handles();
                    assert(old(self).handles().contains_key(entity.id));
                    assert(h == old(self).handles()[entity.id]);
                    assert(s0[h.slot as int].entity.id == entity.id);
                    assert forall|id: u64| #[trigger] hs.contains_key(id) implies is_live(s1, hs[id])
                        && s1[hs[id].slot as int].entity.id == id by {
                        assert(old(self).handles().contains_key(id));
                        assert(id != entity.id);
                        assert(s0[hs[id].slot as int].entity.id == id);
                        assert(hs[id].slot != h.slot);
                    }
                    assert forall|i: int| 0 <= i < s1.len() && (#[trigger] s1[i]).alive && !s1[i].dropped
                        implies hs.contains_key(s1[i].entity.id) && hs[s1[i].entity.id].slot == i by {
                        assert(s0[i].alive && !s0[i].dropped);
                    }
                }
                true
            },
            None => {
                assert(self.handles() =~= old(self).handles().remove(entity.id));
                assert(self.handles() =~= old(self).handles());
                assert(self.slots() == old(self).slots());
                assert(self.wf());
                false
            },
        }
    }

    /// Applies the grid's buffered moves and removals.
    pub fn commit(&mut self)
        requires
            old(self).wf(),
        ensures
            final(self).wf(),
            final(self).same_config(old(self)),
            final(self).handles() == old(self).handles(),
            final(self).slots() == commit_all(old(self).slots()),
    {
        self.grid.maintain();
        proof {
            assert forall|i: int| 0 <= i < old(self).slots().len() implies {
                &&& ((#[trigger] self.slots()[i]).alive && !self.slots()[i].dropped) == (old(self).slots()[i].alive
                    && !old(self).slots()[i].dropped)
                &&& self.slots()[i].entity == old(self).slots()[i].entity
            } by {
                assert(self.slots()[i] == crate::grid::committed(old(self).slots()[i]));
            }
            lemma_same_liveness(self.handles(), old(self).slots(), self.slots());
        }
    }

    /// Every visible entry within `radius` of `center`, in handle order.
    pub fn query_around(&self, center: Point, radius: u32) -> (r: Vec<(GridHandle, Point)>)
        ensures
            r@ == around(self.slots(), self.slots().len(), center, radius),
    {
        self.grid.query_around(center, radius)
    }

    /// Visible position and payload of the entry of `handle`.
    pub fn get(&self, handle: GridHandle) -> (r: Option<(Point, Entity, ColliderShape)>)
        ensures
            r == if is_visible(self.slots(), handle) {
                let s = self.slots()[handle.slot as int];
                Some((s.pos, s.entity, s.shape))
            } else {
                None::<(Point, Entity, ColliderShape)>
            },
    {
        self.grid.get(handle)
    }
}

/// Inserting an entity at `pos` and committing makes it visible, through the handle that the
/// insertion returned, to a query around `pos` of any radius, with its position, entity and
/// shape.
pub proof fn lemma_insert_then_query(
    slots: Seq<Slot>,
    handles: Map<u64, GridHandle>,
    entity: Entity,
    shape: ColliderShape,
    pos: Point,
    radius: u32,
)
    requires
        slots.len() < usize::MAX,
    ensures
        ({
            let after = commit_all(after_insert(slots, handles, entity, shape, pos));
            let h = GridHandle { slot: slots.len() as usize };
            &&& around(after, after.len(), pos, radius).contains((h, pos))
            &&& is_visible(after, h)
            &&& after[h.slot as int].pos == pos
            &&& after[h.slot as int].entity == entity
            &&& after[h.slot as int].shape == shape
        }),
{
    let after = commit_all(after_insert(slots, handles, entity, shape, pos));
    let h = GridHandle { slot: slots.len() as usize };
    assert(after[h.slot as int] == fresh_slot(entity, shape, pos));
    assert(0 <= radius * radius) by (nonlinear_arith);
    lemma_around_contains(after, after.len(), pos, radius, h, pos);
}

/// In a well-formed layer every entity of the handle table owns exactly one live grid entry,
/// the one its handle names, and every live entry belongs to an entity of the table.
pub proof fn lemma_handle_table_consistent(layer: &CollisionLayer)
    requires
        layer.wf(),
    ensures
        forall|id: u64| #[trigger]
            layer.handles().contains_key(id) ==> {
                &&& is_live(layer.slots(), layer.handles()[id])
                &&& layer.slots()[layer.handles()[id].slot as int].entity.id == id
            },
        forall|id: u64, i: int|
            layer.handles().contains_key(id) && 0 <= i < layer.slots().len() && #[trigger] layer.slots()[i].alive
                && !layer.slots()[i].dropped && layer.slots()[i].entity.id == id ==> i
                == #[trigger] layer.handles()[id].slot,
        forall|i: int|
            0 <= i < layer.slots().len() && (#[trigger] layer.slots()[i]).alive && !layer.slots()[i].dropped
                ==> layer.handles().contains_key(layer.slots()[i].entity.id),
{
}

} // verus!
