use vstd::prelude::*;

use crate::geometry::{ColliderShape, Entity, Point};
use crate::grid::{commit_all, dropped_at, moved_at, reshaped_at, GridHandle};
use crate::layer::{after_insert, CollisionLayer};
use crate::mask::CollisionMask;

verus! {

/// Indices of the layers, among the first `n`, whose interaction set holds `mask`, in order.
pub open spec fn colliding(layers: Seq<CollisionLayer>, n: nat, mask: CollisionMask) -> Seq<usize>
    decreases n,
{
    if n == 0 {
        Seq::empty()
    } else {
        let prev = colliding(layers, (n - 1) as nat, mask);
        if layers[n - 1].spec_collides_with().contains(mask) {
            prev.push((n - 1) as usize)
        } else {
            prev
        }
    }
}

/// `k` is the first layer whose own kind is `mask`.
pub open spec fn is_first_with_mask(layers: Seq<CollisionLayer>, k: int, mask: CollisionMask) -> bool {
    &&& 0 <= k < layers.len()
    &&& layers[k].spec_mask() == mask
    &&& forall|j: int| 0 <= j < k ==> (#[trigger] layers[j]).spec_mask() != mask
}

/// `k` is the first layer that tracks `entity`.
pub open spec fn is_first_tracking(layers: Seq<CollisionLayer>, k: int, entity: Entity) -> bool {
    &&& 0 <= k < layers.len()
    &&& layers[k].tracks(entity)
    &&& forall|j: int| 0 <= j < k ==> !(#[trigger] layers[j]).tracks(entity)
}

/// The layer set after layer `k` alone changed.
pub open spec fn only_changed(before: Seq<CollisionLayer>, after: Seq<CollisionLayer>, k: int) -> bool {
    &&& after.len() == before.len()
    &&& forall|j: int| 0 <= j < before.len() && j != k ==> after[j] == before[j]
    &&& after[k].wf()
    &&& after[k].same_config(&before[k])
}

/// No two layers have the same kind.
pub open spec fn distinct_masks(layers: Seq<CollisionLayer>) -> bool {
    forall|a: int, b: int|
        0 <= a < layers.len() && 0 <= b < layers.len() && a != b ==> (#[trigger] layers[a]).spec_mask()
            != (#[trigger] layers[b]).spec_mask()
}

/// Two layer sequences of equal length whose layers keep their kinds.
proof fn lemma_masks_kept(before: Seq<CollisionLayer>, after: Seq<CollisionLayer>)
    requires
        distinct_masks(before),
        after.len() == before.len(),
        forall|j: int| 0 <= j < before.len() ==> (#[trigger] after[j]).spec_mask() == before[j].spec_mask(),
    ensures
        distinct_masks(after),
{
    assert forall|a: int, b: int|
        0 <= a < after.len() && 0 <= b < after.len() && a != b implies (#[trigger] after[a]).spec_mask()
            != (#[trigger] after[b]).spec_mask() by {
        assert(before[a].spec_mask() != before[b].spec_mask());
    }
}

/// All collision layers, one per kind of entity in use.
pub struct CollisionLayers {
    list: Vec<CollisionLayer>,
}

impl CollisionLayers {
    /// The layers, in configuration order.
    pub closed spec fn layers(&self) -> Seq<CollisionLayer> {
        self.list@
    }

    /// Every layer is well formed, and no two layers have the same kind.
    pub open spec fn wf(&self) -> bool {
        &&& forall|i: int| 0 <= i < self.layers().len() ==> (#[trigger] self.layers()[i]).wf()
        &&& distinct_masks(self.layers())
    }

    pub fn new(list: Vec<CollisionLayer>) -> (r: CollisionLayers)
        requires
            forall|i: int| 0 <= i < list@.len() ==> (#[trigger] list@[i]).wf(),
            distinct_masks(list@),
        ensures
            r.wf(),
            r.layers() == list@,
    {
        CollisionLayers { list }
    }

    pub fn len(&self) -> (r: usize)
        ensures
            r == self.layers().len(),
    {
        self.list.len()
    }

    /// The layer at index `i`.
    pub fn layer(&self, i: usize) -> (r: &CollisionLayer)
        requires
            i < self.layers().len(),
        ensures
            *r == self.layers()[i as int],
    {
        &self.list[i]
    }

    /// Index of the first layer whose own kind is `mask`, or `None` when no layer is
    /// configured for it.
    pub fn mask_layer(&self, mask: CollisionMask) -> (r: Option<usize>)
        ensures
            match r {
                Some(k) => is_first_with_mask(self.layers(), k as int, mask),
                None => forall|j: int| 0 <= j < self.layers().len() ==> (#[trigger] self.layers()[j]).spec_mask() != mask,
            },
    {
        let mut i: usize = 0;
        while i < self.list.len()
            invariant
                i <= self.layers().len(),
                forall|j: int| 0 <= j < i ==> (#[trigger] self.layers()[j]).spec_mask() != mask,
            decreases self.layers().len() - i,
        {
            if self.list[i].mask() == mask {
                return Some(i);
            }
            i += 1;
        }
        None
    }

    /// Indices of all layers that an entity of kind `mask` is tested against, in order.
    pub fn colliding_layers(&self, mask: CollisionMask) -> (r: Vec<usize>)
        ensures
            r@ == colliding(self.layers(), self.layers().len(), mask),
    {
        let mut r: Vec<usize> = Vec::new();
        let mut i: usize = 0;
        while i < self.list.len()
            invariant
                i <= self.layers().len(),
                r@ == colliding(self.layers(), i as nat, mask),
            decreases self.layers().len() - i,
        {
            if self.list[i].collides_with().contains(mask) {
                r.push(i);
            }
            i += 1;
        }
        r
    }

    /// Applies the buffered grid changes of every layer, so that queries see them.
    pub fn commit_changes(&mut self)
        requires
            old(self).wf(),
        ensures
            final(self).wf(),
            final(self).layers().len() == old(self).layers().len(),
            forall|i: int| 0 <= i < old(self).layers().len() ==> {
                &&& (#[trigger] final(self).layers()[i]).same_config(&old(self).layers()[i])
                &&& final(self).layers()[i].handles() == old(self).layers()[i].handles()
                &&& final(self).layers()[i].slots() == commit_all(old(self).layers()[i].slots())
            },
    {
        let n = self.list.len();
        let mut i: usize = 0;
        while i < n
            invariant
                n == self.layers().len(),
                n == old(self).layers().len(),
                i <= n,
                forall|j: int| 0 <= j < n ==> (#[trigger] self.layers()[j]).wf(),
                forall|j: int| 0 <= j < i ==> {
                    &&& (#[trigger] self.layers()[j]).same_config(&old(self).layers()[j])
                    &&& self.layers()[j].handles() == old(self).layers()[j].handles()
                    &&& self.layers()[j].slots() == commit_all(old(self).layers()[j].slots())
                },
                forall|j: int| i <= j < n ==> #[trigger] self.layers()[j] == old(self).layers()[j],
            decreases n - i,
        {
            assert(self.layers()[i as int].wf());
            self.list[i].commit();
            proof {
                assert forall|j: int| 0 <= j < n implies (#[trigger] self.layers()[j]).wf() by {
                    if j != i {
                        assert(self.layers()[j] == old(self).layers()[j] || j < i);
                    }
                }
            }
            i += 1;
        }
        proof {
            lemma_masks_kept(old(self).layers(), self.layers());
        }
    }

    /// Inserts `entity` into layer `k` (see `CollisionLayer::insert`).
    pub fn insert_into(&mut self, k: usize, entity: Entity, shape: ColliderShape, pos: Point) -> (r: GridHandle)
        requires
            old(self).wf(),
            k < old(self).layers().len(),
            old(self).layers()[k as int].slots().len() < usize::MAX,
        ensures
            final(self).wf(),
            only_changed(old(self).layers(), final(self).layers(), k as int),
            r.slot == old(self).layers()[k as int].slots().len(),
            final(self).layers()[k as int].handles() == old(self).layers()[k as int].handles().insert(entity.id, r),
            final(self).layers()[k as int].slots() == after_insert(
                old(self).layers()[k as int].slots(),
                old(self).layers()[k as int].handles(),
                entity,
                shape,
                pos,
            ),
    {
        assert(self.layers()[k as int].wf());
        let r = self.list[k].insert(entity, shape, pos);
        proof {
            self.lemma_only_changed_wf(old(self), k as int);
        }
        r
    }

    /// Schedules a move of the entry of `handle` in layer `k` (see `CollisionLayer::update`).
    pub fn update_in(&mut self, k: usize, handle: GridHandle, pos: Point)
        requires
            old(self).wf(),
            k < old(self).layers().len(),
        ensures
            final(self).wf(),
            only_changed(old(self).layers(), final(self).layers(), k as int),
            final(self).layers()[k as int].handles() == old(self).layers()[k as int].handles(),
            final(self).layers()[k as int].slots() == moved_at(old(self).layers()[k as int].slots(), handle, pos),
    {
        assert(self.layers()[k as int].wf());
        self.list[k].update(handle, pos);
        proof {
            self.lemma_only_changed_wf(old(self), k as int);
        }
    }

    /// Replaces the shape of the entry of `handle` in layer `k` (see `CollisionLayer::set_shape`).
    pub fn set_shape_in(&mut self, k: usize, handle: GridHandle, shape: ColliderShape)
        requires
            old(self).wf(),
            k < old(self).layers().len(),
        ensures
            final(self).wf(),
            only_changed(old(self).layers(), final(self).layers(), k as int),
            final(self).layers()[k as int].handles() == old(self).layers()[k as int].handles(),
            final(self).layers()[k as int].slots() == reshaped_at(old(self).layers()[k as int].slots(), handle, shape),
    {
        assert(self.layers()[k as int].wf());
        self.list[k].set_shape(handle, shape);
        proof {
            self.lemma_only_changed_wf(old(self), k as int);
        }
    }

    proof fn lemma_only_changed_wf(&self, before: &CollisionLayers, k: int)
        requires
            before.wf(),
            0 <= k < before.layers().len(),
            self.layers().len() == before.layers().len(),
            forall|j: int| 0 <= j < before.layers().len() && j != k ==> self.layers()[j] == before.layers()[j],
            self.layers()[k].wf(),
            self.layers()[k].spec_mask() == before.layers()[k].spec_mask(),
        ensures
            self.wf(),
    {
        assert forall|j: int| 0 <= j < before.layers().len() implies (#[trigger] self.layers()[j]).spec_mask()
            == before.layers()[j].spec_mask() by {
            if j != k {
                assert(self.layers()[j] == before.layers()[j]);
            }
        }
        lemma_masks_kept(before.layers(), self.layers());
        assert forall|j: int| 0 <= j < self.layers().len() implies (#[trigger] self.layers()[j]).wf() by {
            if j != k {
                assert(before.layers()[j].wf());
            }
        }
    }

    /// Removes `entity` from the first layer that tracks it; the other layers are left
    /// alone. Returns whether some layer tracked it; when none did, nothing changes.
    pub fn remove(&mut self, entity: Entity) -> (r: bool)
        requires
            old(self).wf(),
        ensures
            final(self).wf(),
            r == exists|i: int| 0 <= i < old(self).layers().len() && #[trigger] old(self).layers()[i].tracks(entity),
            (forall|i: int| 0 <= i < old(self).layers().len() ==> !(#[trigger] old(self).layers()[i]).tracks(entity))
                ==> final(self).layers() == old(self).layers(),
            forall|k: int| is_first_tracking(old(self).layers(), k, entity) ==> {
                &&& only_changed(old(self).layers(), final(self).layers(), k)
                &&& final(self).layers()[k].handles() == old(self).layers()[k].handles().remove(entity.id)
                &&& final(self).layers()[k].slots() == dropped_at(
                    old(self).layers()[k].slots(),
                    old(self).layers()[k].handles()[entity.id],
                )
            },
    {
        let n = self.list.len();
        let mut i: usize = 0;
        while i < n
            invariant
                n == self.list@.len(),
                i <= n,
                self.list@ == old(self).list@,
                self.wf(),
                forall|j: int| 0 <= j < i ==> !(#[trigger] self.list@[j]).tracks(entity),
            decreases n - i,
        {
            assert(self.layers()[i as int].wf());
            if self.list[i].handle_of(entity).is_some() {
                self.list[i].remove(entity);
                proof {
                    assert(only_changed(old(self).layers(), self.layers(), i as int));
                    self.lemma_only_changed_wf(old(self), i as int);
                    assert(is_first_tracking(old(self).layers(), i as int, entity));
                    assert forall|k: int| is_first_tracking(old(self).layers(), k, entity) implies k == i by {
                        if k < i {
                            assert(!old(self).layers()[k].tracks(entity));
                        } else if k > i {
                            assert(!old(self).layers()[i as int].tracks(entity));
                        }
                    }
                }
                return true;
            }
            i += 1;
        }
        assert(self.list@ =~= old(self).list@);
        false
    }
}

} // verus!
