use vstd::prelude::*;

use crate::geometry::{circles_overlap, overlaps, within, ColliderShape, Entity, Point};
use crate::grid::{
    around, commit_all, dropped_at, is_visible, lemma_around_contains, moved_at, reshaped_at,
    GridHandle, Slot,
};
use crate::layer::{after_insert, CollisionLayer};
use crate::layer_set::{colliding, is_first_tracking, is_first_with_mask, CollisionLayers};
use crate::mask::CollisionMask;

verus! {

/// Radius of the neighbourhood searched around an entity during detection.
pub const NEIGHBORHOOD_RADIUS: u32 = 256;

/// One overlap detected during the current tick.
#[derive(Clone, Copy, Debug, PartialEq, Eq, Structural)]
pub struct Collision {
    pub target: Entity,
    pub mask: CollisionMask,
    pub target_pos: Point,
}

/// Per-entity collision state.
pub struct Collider {
    /// The entity's grid slot, once it was inserted into its layer.
    pub handle: Option<GridHandle>,
    /// The kind of the entity, which selects its layer.
    pub mask: CollisionMask,
    /// The overlaps detected for the entity during the current tick.
    pub collisions: Vec<Collision>,
}

impl Collider {
    pub fn new(mask: CollisionMask) -> (r: Collider)
        ensures
            r.handle is None,
            r.mask == mask,
            r.collisions@ == Seq::<Collision>::empty(),
    {
        Collider { handle: None, mask, collisions: Vec::new() }
    }
}

/// An entity together with the data that the collision steps read and write.
pub struct Body {
    pub entity: Entity,
    pub position: Point,
    pub shape: ColliderShape,
    pub collider: Collider,
}

/// The collision that the entry `h` of a layer gives an entity at `pos`, if any.
pub open spec fn collision_with(
    slots: Seq<Slot>,
    layer_mask: CollisionMask,
    h: GridHandle,
    entity: Entity,
    pos: Point,
    shape: ColliderShape,
) -> Option<Collision> {
    if is_visible(slots, h) {
        let s = slots[h.slot as int];
        if s.entity != entity && circles_overlap(pos, shape, s.pos, s.shape) {
            Some(Collision { target: s.entity, mask: layer_mask, target_pos: s.pos })
        } else {
            None
        }
    } else {
        None
    }
}

/// Collisions from the first `n` query hits against one layer, in hit order.
pub open spec fn hits_to_collisions(
    slots: Seq<Slot>,
    layer_mask: CollisionMask,
    hits: Seq<(GridHandle, Point)>,
    n: nat,
    entity: Entity,
    pos: Point,
    shape: ColliderShape,
) -> Seq<Collision>
    decreases n,
{
    if n == 0 || n > hits.len() {
        Seq::empty()
    } else {
        let prev = hits_to_collisions(slots, layer_mask, hits, (n - 1) as nat, entity, pos, shape);
        match collision_with(slots, layer_mask, hits[n - 1].0, entity, pos, shape) {
            Some(c) => prev.push(c),
            None => prev,
        }
    }
}

/// Collisions of an entity at `pos` against one layer.
pub open spec fn layer_collisions(layer: CollisionLayer, entity: Entity, pos: Point, shape: ColliderShape) -> Seq<Collision> {
    let hits = around(layer.slots(), layer.slots().len(), pos, NEIGHBORHOOD_RADIUS);
    hits_to_collisions(layer.slots(), layer.spec_mask(), hits, hits.len(), entity, pos, shape)
}

/// Collisions of an entity against the first `n` of the layers listed in `idx`.
pub open spec fn collisions_over(
    layers: Seq<CollisionLayer>,
    idx: Seq<usize>,
    n: nat,
    entity: Entity,
    pos: Point,
    shape: ColliderShape,
) -> Seq<Collision>
    decreases n,
{
    if n == 0 || n > idx.len() {
        Seq::empty()
    } else {
        collisions_over(layers, idx, (n - 1) as nat, entity, pos, shape) + layer_collisions(
            layers[idx[n - 1] as int],
            entity,
            pos,
            shape,
        )
    }
}

/// Everything an entity of kind `mask` at `pos` overlaps in the layers it is tested against,
/// layer by layer in configuration order, and within a layer in handle order.
pub open spec fn detected(
    layers: Seq<CollisionLayer>,
    entity: Entity,
    pos: Point,
    shape: ColliderShape,
    mask: CollisionMask,
) -> Seq<Collision> {
    let idx = colliding(layers, layers.len(), mask);
    collisions_over(layers, idx, idx.len(), entity, pos, shape)
}

proof fn lemma_colliding_in_range(layers: Seq<CollisionLayer>, n: nat, mask: CollisionMask)
    requires
        n <= layers.len(),
    ensures
        forall|k: int| 0 <= k < colliding(layers, n, mask).len() ==> #[trigger] colliding(layers, n, mask)[k] < n,
    decreases n,
{
    if n > 0 {
        lemma_colliding_in_range(layers, (n - 1) as nat, mask);
        let prev = colliding(layers, (n - 1) as nat, mask);
        assert forall|k: int| 0 <= k < colliding(layers, n, mask).len() implies #[trigger] colliding(layers, n, mask)[k] < n by {
            if k < prev.len() {
                assert(prev[k] < n - 1);
            }
        }
    }
}

/// The overlaps of one entity against one layer.
pub fn detect_in_layer(layer: &CollisionLayer, entity: Entity, pos: Point, shape: ColliderShape) -> (r: Vec<Collision>)
    ensures
        r@ == layer_collisions(*layer, entity, pos, shape),
{
    let hits = layer.query_around(pos, NEIGHBORHOOD_RADIUS);
    let layer_mask = layer.mask();
    let mut r: Vec<Collision> = Vec::new();
    let mut i: usize = 0;
    while i < hits.len()
        invariant
            i <= hits@.len(),
            hits@ == around(layer.slots(), layer.slots().len(), pos, NEIGHBORHOOD_RADIUS),
            layer_mask == layer.spec_mask(),
            r@ == hits_to_collisions(layer.slots(), layer_mask, hits@, i as nat, entity, pos, shape),
        decreases hits@.len() - i,
    {
        let (h, _) = hits[i];
        match layer.get(h) {
            Some((other_pos, other, other_shape)) => {
                if other != entity && overlaps(pos, shape, other_pos, other_shape) {
                    r.push(Collision { target: other, mask: layer_mask, target_pos: other_pos });
                }
            },
            None => {},
        }
        i += 1;
    }
    r
}

/// The overlaps of one entity of kind `mask` at `pos` against every layer that tests kind
/// `mask`. Reads the layers only.
pub fn detect(layers: &CollisionLayers, entity: Entity, pos: Point, shape: ColliderShape, mask: CollisionMask) -> (r: Vec<Collision>)
    ensures
        r@ == detected(layers.layers(), entity, pos, shape, mask),
{
    let idx = layers.colliding_layers(mask);
    proof {
        lemma_colliding_in_range(layers.layers(), layers.layers().len(), mask);
    }
    let mut r: Vec<Collision> = Vec::new();
    let mut i: usize = 0;
    while i < idx.len()
        invariant
            i <= idx@.len(),
            idx@ == colliding(layers.layers(), layers.layers().len(), mask),
            forall|k: int| 0 <= k < idx@.len() ==> #[trigger] idx@[k] < layers.layers().len(),
            r@ == collisions_over(layers.layers(), idx@, i as nat, entity, pos, shape),
        decreases idx@.len() - i,
    {
        let k = idx[i];
        let mut found = detect_in_layer(layers.layer(k), entity, pos, shape);
        r.append(&mut found);
        i += 1;
    }
    r
}

/// `a` agrees with `b` in everything but the collision list.
pub open spec fn same_but_collisions(a: &Body, b: &Body) -> bool {
    &&& a.entity == b.entity
    &&& a.position == b.position
    &&& a.shape == b.shape
    &&& a.collider.handle == b.collider.handle
    &&& a.collider.mask == b.collider.mask
}

/// No body after `i` names the same grid entry as body `i` (same kind, same handle).
pub open spec fn last_for_handle(bodies: Seq<Body>, i: int) -> bool {
    forall|j: int|
        i < j < bodies.len() ==> !((#[trigger] bodies[j]).collider.mask == bodies[i].collider.mask
            && bodies[j].collider.handle == bodies[i].collider.handle)
}


/// Detection step: appends to each body's collision list what it overlaps in the layers
/// that its kind is tested against. The layers are only read, and each body gains only
/// its own records.
pub fn check_collisions(layers: &CollisionLayers, bodies: &mut Vec<Body>)
    ensures
        final(bodies)@.len() == old(bodies)@.len(),
        forall|i: int| 0 <= i < old(bodies)@.len() ==> {
            &&& same_but_collisions(&#[trigger] final(bodies)@[i], &old(bodies)@[i])
            &&& final(bodies)@[i].collider.collisions@ == old(bodies)@[i].collider.collisions@ + detected(
                layers.layers(),
                old(bodies)@[i].entity,
                old(bodies)@[i].position,
                old(bodies)@[i].shape,
                old(bodies)@[i].collider.mask,
            )
        },
{
    let n = bodies.len();
    let mut i: usize = 0;
    while i < n
        invariant
            n == bodies@.len(),
            n == old(bodies)@.len(),
            i <= n,
            forall|j: int| 0 <= j < i ==> {
                &&& same_but_collisions(&#[trigger] bodies@[j], &old(bodies)@[j])
                &&& bodies@[j].collider.collisions@ == old(bodies)@[j].collider.collisions@ + detected(
                    layers.layers(),
                    old(bodies)@[j].entity,
                    old(bodies)@[j].position,
                    old(bodies)@[j].shape,
                    old(bodies)@[j].collider.mask,
                )
            },
            forall|j: int| i <= j < n ==> #[trigger] bodies@[j] == old(bodies)@[j],
        decreases n - i,
    {
        let mut found = detect(layers, bodies[i].entity, bodies[i].position, bodies[i].shape, bodies[i].collider.mask);
        bodies[i].collider.collisions.append(&mut found);
        i += 1;
    }
}

/// Reset step: empties every collision list and changes nothing else.
pub fn reset_collisions(bodies: &mut Vec<Body>)
    ensures
        final(bodies)@.len() == old(bodies)@.len(),
        forall|i: int| 0 <= i < old(bodies)@.len() ==> {
            &&& same_but_collisions(&#[trigger] final(bodies)@[i], &old(bodies)@[i])
            &&& final(bodies)@[i].collider.collisions@ == Seq::<Collision>::empty()
        },
{
    let n = bodies.len();
    let mut i: usize = 0;
    while i < n
        invariant
            n == bodies@.len(),
            n == old(bodies)@.len(),
            i <= n,
            forall|j: int| 0 <= j < i ==> {
                &&& same_but_collisions(&#[trigger] bodies@[j], &old(bodies)@[j])
                &&& bodies@[j].collider.collisions@ == Seq::<Collision>::empty()
            },
            forall|j: int| i <= j < n ==> #[trigger] bodies@[j] == old(bodies)@[j],
        decreases n - i,
    {
        bodies[i].collider.collisions.clear();
        i += 1;
    }
}

/// Index of the first layer state, from `i` on, whose handle table holds `id`; the number of
/// states when there is none.
pub open spec fn tracking_index_from(states: Seq<(Map<u64, GridHandle>, Seq<Slot>)>, id: u64, i: int) -> int
    decreases states.len() - i,
{
    if i < 0 || i >= states.len() {
        states.len() as int
    } else if states[i].0.contains_key(id) {
        i
    } else {
        tracking_index_from(states, id, i + 1)
    }
}

proof fn lemma_tracking_index_from(states: Seq<(Map<u64, GridHandle>, Seq<Slot>)>, id: u64, i: int)
    requires
        0 <= i <= states.len(),
        forall|j: int| 0 <= j < i ==> !(#[trigger] states[j]).0.contains_key(id),
    ensures
        0 <= tracking_index_from(states, id, i) <= states.len(),
        tracking_index_from(states, id, i) < states.len() ==> states[tracking_index_from(states, id, i)].0.contains_key(id),
        forall|j: int| 0 <= j < tracking_index_from(states, id, i) ==> !(#[trigger] states[j]).0.contains_key(id),
    decreases states.len() - i,
{
    if i < states.len() && !states[i].0.contains_key(id) {
        assert forall|j: int| 0 <= j < i + 1 implies !(#[trigger] states[j]).0.contains_key(id) by {
            if j < i {
                assert(!states[j].0.contains_key(id));
            }
        }
        lemma_tracking_index_from(states, id, i + 1);
    }
}

/// The layer states after the removal step has handled the first `n` removed entities: the
/// first layer that tracks an entity drops it from its table and schedules its slot for
/// removal; an entity no layer tracks changes nothing.
pub open spec fn removed_states(layers: Seq<CollisionLayer>, removed: Seq<Entity>, n: nat) -> Seq<
    (Map<u64, GridHandle>, Seq<Slot>),
>
    decreases n,
{
    if n == 0 || n > removed.len() {
        layer_states(layers)
    } else {
        let prev = removed_states(layers, removed, (n - 1) as nat);
        let id = removed[n - 1].id;
        let k = tracking_index_from(prev, id, 0);
        if k < prev.len() {
            prev.update(k, (prev[k].0.remove(id), dropped_at(prev[k].1, prev[k].0[id])))
        } else {
            prev
        }
    }
}

proof fn lemma_removed_len(layers: Seq<CollisionLayer>, removed: Seq<Entity>, n: nat)
    ensures
        removed_states(layers, removed, n).len() == layers.len(),
    decreases n,
{
    if n > 0 && n <= removed.len() {
        lemma_removed_len(layers, removed, (n - 1) as nat);
        let prev = removed_states(layers, removed, (n - 1) as nat);
        lemma_tracking_index_from(prev, removed[n - 1].id, 0);
    }
}

/// Removal step: takes each removed entity out of the first layer that tracks it. Each
/// layer ends with exactly the handle table and slots of `removed_states`.
pub fn remove_grid_colliders(layers: &mut CollisionLayers, removed: &Vec<Entity>)
    requires
        old(layers).wf(),
    ensures
        final(layers).wf(),
        final(layers).layers().len() == old(layers).layers().len(),
        forall|k: int| 0 <= k < old(layers).layers().len() ==> {
            &&& (#[trigger] final(layers).layers()[k]).same_config(&old(layers).layers()[k])
            &&& final(layers).layers()[k].handles() == removed_states(
                old(layers).layers(),
                removed@,
                removed@.len(),
            )[k].0
            &&& final(layers).layers()[k].slots() == removed_states(
                old(layers).layers(),
                removed@,
                removed@.len(),
            )[k].1
        },
{
    let n = removed.len();
    let ghost ol = old(layers).layers();
    let mut i: usize = 0;
    while i < n
        invariant
            n == removed@.len(),
            ol == old(layers).layers(),
            i <= n,
            layers.wf(),
            layers.layers().len() == ol.len(),
            removed_states(ol, removed@, i as nat).len() == ol.len(),
            forall|k: int| 0 <= k < ol.len() ==> {
                &&& (#[trigger] layers.layers()[k]).same_config(&ol[k])
                &&& layers.layers()[k].handles() == removed_states(ol, removed@, i as nat)[k].0
                &&& layers.layers()[k].slots() == removed_states(ol, removed@, i as nat)[k].1
            },
        decreases n - i,
    {
        let e = removed[i];
        let ghost before = layers.layers();
        let ghost prev = removed_states(ol, removed@, i as nat);
        proof {
            lemma_removed_len(ol, removed@, (i + 1) as nat);
            lemma_tracking_index_from(prev, e.id, 0);
        }
        let found = layers.remove(e);
        proof {
            let k = tracking_index_from(prev, e.id, 0);
            let next = removed_states(ol, removed@, (i + 1) as nat);
            assert(removed@[i as int] == e);
            if k < prev.len() {
                assert(before[k].tracks(e));
                assert forall|j: int| 0 <= j < k implies !(#[trigger] before[j]).tracks(e) by {
                    assert(!prev[j].0.contains_key(e.id));
                }
                assert(is_first_tracking(before, k, e));
                assert(next == prev.update(k, (prev[k].0.remove(e.id), dropped_at(prev[k].1, prev[k].0[e.id]))));
                assert forall|m: int| 0 <= m < ol.len() implies {
                    &&& (#[trigger] layers.layers()[m]).same_config(&ol[m])
                    &&& layers.layers()[m].handles() == next[m].0
                    &&& layers.layers()[m].slots() == next[m].1
                } by {
                    assert(before[m].same_config(&ol[m]));
                    if m != k {
                        assert(layers.layers()[m] == before[m]);
                    }
                }
            } else {
                assert forall|j: int| 0 <= j < before.len() implies !(#[trigger] before[j]).tracks(e) by {
                    assert(!prev[j].0.contains_key(e.id));
                }
                assert(next == prev);
            }
        }
        i += 1;
    }
}


/// The layer states after the shape step has handled the first `n` changed bodies: a body
/// with a handle, whose kind has a layer, replaces the shape of its entry there.
pub open spec fn reshaped_states(layers: Seq<CollisionLayer>, changed: Seq<Body>, n: nat) -> Seq<
    (Map<u64, GridHandle>, Seq<Slot>),
>
    decreases n,
{
    if n == 0 || n > changed.len() {
        layer_states(layers)
    } else {
        let prev = reshaped_states(layers, changed, (n - 1) as nat);
        let b = changed[n - 1];
        let k = layer_index(layers, b.collider.mask);
        if k < layers.len() && b.collider.handle is Some {
            prev.update(k, (prev[k].0, reshaped_at(prev[k].1, b.collider.handle->Some_0, b.shape)))
        } else {
            prev
        }
    }
}

proof fn lemma_reshaped_len(layers: Seq<CollisionLayer>, changed: Seq<Body>, n: nat)
    ensures
        reshaped_states(layers, changed, n).len() == layers.len(),
    decreases n,
{
    if n > 0 && n <= changed.len() {
        lemma_reshaped_len(layers, changed, (n - 1) as nat);
        lemma_layer_index(layers, changed[n - 1].collider.mask);
    }
}

/// Shape step: pushes the shape of each changed body into its grid entry. A body without
/// a handle, or whose kind has no layer, is skipped. Handle tables do not change, and each
/// layer ends with exactly the slots of `reshaped_states`.
pub fn update_collider_shapes(layers: &mut CollisionLayers, changed: &Vec<Body>)
    requires
        old(layers).wf(),
    ensures
        final(layers).wf(),
        final(layers).layers().len() == old(layers).layers().len(),
        forall|k: int| 0 <= k < old(layers).layers().len() ==> {
            &&& (#[trigger] final(layers).layers()[k]).same_config(&old(layers).layers()[k])
            &&& final(layers).layers()[k].handles() == old(layers).layers()[k].handles()
            &&& final(layers).layers()[k].slots() == reshaped_states(
                old(layers).layers(),
                changed@,
                changed@.len(),
            )[k].1
        },
{
    let n = changed.len();
    let ghost ol = old(layers).layers();
    let mut i: usize = 0;
    while i < n
        invariant
            n == changed@.len(),
            ol == old(layers).layers(),
            i <= n,
            layers.wf(),
            layers.layers().len() == ol.len(),
            reshaped_states(ol, changed@, i as nat).len() == ol.len(),
            forall|k: int| 0 <= k < ol.len() ==> {
                &&& (#[trigger] layers.layers()[k]).same_config(&ol[k])
                &&& layers.layers()[k].handles() == ol[k].handles()
                &&& layers.layers()[k].slots() == reshaped_states(ol, changed@, i as nat)[k].1
            },
        decreases n - i,
    {
        let b = &changed[i];
        let ghost before = layers.layers();
        let ghost prev = reshaped_states(ol, changed@, i as nat);
        proof {
            lemma_layer_index(ol, b.collider.mask);
            lemma_reshaped_len(ol, changed@, (i + 1) as nat);
        }
        match b.collider.handle {
            Some(h) => {
                match layers.mask_layer(b.collider.mask) {
                    Some(k) => {
                        layers.set_shape_in(k, h, b.shape);
                        proof {
                            lemma_first_mask_same(ol, before, k as int, b.collider.mask);
                            let next = reshaped_states(ol, changed@, (i + 1) as nat);
                            assert(next == prev.update(k as int, (prev[k as int].0, reshaped_at(prev[k as int].1, h, b.shape))));
                            assert forall|m: int| 0 <= m < ol.len() implies {
                                &&& (#[trigger] layers.layers()[m]).same_config(&ol[m])
                                &&& layers.layers()[m].handles() == ol[m].handles()
                                &&& layers.layers()[m].slots() == next[m].1
                            } by {
                                assert(before[m].same_config(&ol[m]));
                                if m != k {
                                    assert(layers.layers()[m] == before[m]);
                                }
                            }
                        }
                    },
                    None => {
                        proof {
                            let kk = layer_index(ol, b.collider.mask);
                            if kk < ol.len() {
                                assert(layers.layers()[kk].spec_mask() == ol[kk].spec_mask());
                            }
                        }
                    },
                }
            },
            None => {},
        }
        i += 1;
    }
}

/// A layer that is first with some kind in one layer set is first with it in any layer set
/// with the same kinds.
proof fn lemma_first_mask_same(a: Seq<CollisionLayer>, b: Seq<CollisionLayer>, k: int, mask: CollisionMask)
    requires
        a.len() == b.len(),
        forall|j: int| 0 <= j < a.len() ==> (#[trigger] b[j]).spec_mask() == a[j].spec_mask(),
        is_first_with_mask(b, k, mask),
    ensures
        is_first_with_mask(a, k, mask),
{
    assert forall|j: int| 0 <= j < k implies (#[trigger] a[j]).spec_mask() != mask by {
        assert(b[j].spec_mask() != mask);
    }
}

/// The first layer of one kind is not the first layer of another kind.
proof fn lemma_first_mask_unique(layers: Seq<CollisionLayer>, a: int, b: int, ma: CollisionMask, mb: CollisionMask)
    requires
        is_first_with_mask(layers, a, ma),
        is_first_with_mask(layers, b, mb),
    ensures
        (a == b) <==> (ma == mb),
{
    if ma == mb && a != b {
        if a < b {
            assert(layers[a].spec_mask() != mb);
        } else {
            assert(layers[b].spec_mask() != ma);
        }
    }
}

/// `a` agrees with `b` in everything but the grid handle.
pub open spec fn same_but_handle(a: &Body, b: &Body) -> bool {
    &&& a.entity == b.entity
    &&& a.position == b.position
    &&& a.shape == b.shape
    &&& a.collider.mask == b.collider.mask
    &&& a.collider.collisions@ == b.collider.collisions@
}

/// Index of the first layer, from `i` on, whose own kind is `mask`; the number of layers
/// when there is none.
pub open spec fn layer_index_from(layers: Seq<CollisionLayer>, mask: CollisionMask, i: int) -> int
    decreases layers.len() - i,
{
    if i < 0 || i >= layers.len() {
        layers.len() as int
    } else if layers[i].spec_mask() == mask {
        i
    } else {
        layer_index_from(layers, mask, i + 1)
    }
}

/// Index of the layer that serves kind `mask`; the number of layers when none does.
pub open spec fn layer_index(layers: Seq<CollisionLayer>, mask: CollisionMask) -> int {
    layer_index_from(layers, mask, 0)
}

proof fn lemma_layer_index_from(layers: Seq<CollisionLayer>, mask: CollisionMask, i: int)
    requires
        0 <= i <= layers.len(),
        forall|j: int| 0 <= j < i ==> (#[trigger] layers[j]).spec_mask() != mask,
    ensures
        0 <= layer_index_from(layers, mask, i) <= layers.len(),
        layer_index_from(layers, mask, i) < layers.len() ==> is_first_with_mask(
            layers,
            layer_index_from(layers, mask, i),
            mask,
        ),
        layer_index_from(layers, mask, i) == layers.len() ==> forall|j: int|
            0 <= j < layers.len() ==> (#[trigger] layers[j]).spec_mask() != mask,
    decreases layers.len() - i,
{
    if i < layers.len() && layers[i].spec_mask() != mask {
        assert forall|j: int| 0 <= j < i + 1 implies (#[trigger] layers[j]).spec_mask() != mask by {
            if j < i {
                assert(layers[j].spec_mask() != mask);
            }
        }
        lemma_layer_index_from(layers, mask, i + 1);
    }
}

/// `layer_index` names the first layer of kind `mask`, or no layer when none has it.
pub proof fn lemma_layer_index(layers: Seq<CollisionLayer>, mask: CollisionMask)
    ensures
        0 <= layer_index(layers, mask) <= layers.len(),
        layer_index(layers, mask) < layers.len() ==> is_first_with_mask(layers, layer_index(layers, mask), mask),
        layer_index(layers, mask) == layers.len() ==> forall|j: int|
            0 <= j < layers.len() ==> (#[trigger] layers[j]).spec_mask() != mask,
        forall|k: int| is_first_with_mask(layers, k, mask) ==> k == layer_index(layers, mask),
{
    lemma_layer_index_from(layers, mask, 0);
    assert forall|k: int| is_first_with_mask(layers, k, mask) implies k == layer_index(layers, mask) by {
        let idx = layer_index(layers, mask);
        if idx < layers.len() {
            lemma_first_mask_unique(layers, k, idx, mask, mask);
        } else {
            assert(layers[k].spec_mask() != mask);
        }
    }
}

/// The handle table and slot table of every layer.
pub open spec fn layer_states(layers: Seq<CollisionLayer>) -> Seq<(Map<u64, GridHandle>, Seq<Slot>)> {
    Seq::new(layers.len(), |k: int| (layers[k].handles(), layers[k].slots()))
}

/// The layer states after the grid-update step has handled the first `n` bodies, before the
/// commit: a body with a handle moves its entry, a body without one is inserted into the
/// layer of its kind, and a body whose kind has no layer changes nothing.
pub open spec fn staged_states(layers: Seq<CollisionLayer>, bodies: Seq<Body>, n: nat) -> Seq<
    (Map<u64, GridHandle>, Seq<Slot>),
>
    decreases n,
{
    if n == 0 || n > bodies.len() {
        layer_states(layers)
    } else {
        let prev = staged_states(layers, bodies, (n - 1) as nat);
        let b = bodies[n - 1];
        let k = layer_index(layers, b.collider.mask);
        if k < layers.len() {
            let hs = prev[k].0;
            let ss = prev[k].1;
            match b.collider.handle {
                Some(h) => prev.update(k, (hs, moved_at(ss, h, b.position))),
                None => prev.update(
                    k,
                    (
                        hs.insert(b.entity.id, GridHandle { slot: ss.len() as usize }),
                        after_insert(ss, hs, b.entity, b.shape, b.position),
                    ),
                ),
            }
        } else {
            prev
        }
    }
}

/// The handle body `i` holds after the grid-update step: the one it had, or, when it had
/// none and a layer serves its kind, the slot appended for it in that layer.
pub open spec fn settled_handle(layers: Seq<CollisionLayer>, bodies: Seq<Body>, i: int) -> Option<GridHandle> {
    let k = layer_index(layers, bodies[i].collider.mask);
    if bodies[i].collider.handle is None && k < layers.len() {
        Some(GridHandle { slot: staged_states(layers, bodies, i as nat)[k].1.len() as usize })
    } else {
        bodies[i].collider.handle
    }
}

proof fn lemma_staged_len(layers: Seq<CollisionLayer>, bodies: Seq<Body>, n: nat)
    ensures
        staged_states(layers, bodies, n).len() == layers.len(),
    decreases n,
{
    if n > 0 && n <= bodies.len() {
        lemma_staged_len(layers, bodies, (n - 1) as nat);
        lemma_layer_index(layers, bodies[n - 1].collider.mask);
    }
}

/// Grid-update step: moves each body's grid entry to its current position, inserting the
/// bodies that have none yet into the layer of their kind, then commits every layer. A body
/// whose kind has no layer is skipped. Each layer ends with exactly the handle table of
/// `staged_states` and the committed form of its slots, and each body with `settled_handle`.
pub fn update_collision_grids(layers: &mut CollisionLayers, bodies: &mut Vec<Body>)
    requires
        old(layers).wf(),
        forall|k: int|
            0 <= k < old(layers).layers().len() ==> (#[trigger] old(layers).layers()[k]).slots().len()
                + old(bodies)@.len() < usize::MAX,
    ensures
        final(layers).wf(),
        final(layers).layers().len() == old(layers).layers().len(),
        forall|k: int| 0 <= k < old(layers).layers().len() ==> {
            &&& (#[trigger] final(layers).layers()[k]).same_config(&old(layers).layers()[k])
            &&& final(layers).layers()[k].handles() == staged_states(
                old(layers).layers(),
                old(bodies)@,
                old(bodies)@.len(),
            )[k].0
            &&& final(layers).layers()[k].slots() == commit_all(
                staged_states(old(layers).layers(), old(bodies)@, old(bodies)@.len())[k].1,
            )
        },
        final(bodies)@.len() == old(bodies)@.len(),
        forall|i: int| 0 <= i < old(bodies)@.len() ==> {
            &&& same_but_handle(&#[trigger] final(bodies)@[i], &old(bodies)@[i])
            &&& final(bodies)@[i].collider.handle == settled_handle(old(layers).layers(), old(bodies)@, i)
        },
{
    let n = bodies.len();
    let ghost ol = old(layers).layers();
    let ghost ob = old(bodies)@;
    let mut i: usize = 0;
    while i < n
        invariant
            n == bodies@.len(),
            n == ob.len(),
            ob == old(bodies)@,
            ol == old(layers).layers(),
            i <= n,
            layers.wf(),
            layers.layers().len() == ol.len(),
            staged_states(ol, ob, i as nat).len() == ol.len(),
            forall|k: int| 0 <= k < ol.len() ==> {
                &&& (#[trigger] layers.layers()[k]).same_config(&ol[k])
                &&& layers.layers()[k].handles() == staged_states(ol, ob, i as nat)[k].0
                &&& layers.layers()[k].slots() == staged_states(ol, ob, i as nat)[k].1
                &&& layers.layers()[k].slots().len() <= ol[k].slots().len() + i
            },
            forall|k: int| 0 <= k < ol.len() ==> #[trigger] ol[k].slots().len() + n < usize::MAX,
            forall|j: int| 0 <= j < n ==> same_but_handle(&#[trigger] bodies@[j], &ob[j]),
            forall|j: int| i <= j < n ==> (#[trigger] bodies@[j]).collider.handle == ob[j].collider.handle,
            forall|j: int| 0 <= j < i ==> (#[trigger] bodies@[j]).collider.handle == settled_handle(ol, ob, j),
        decreases n - i,
    {
        let mask = bodies[i].collider.mask;
        let pos = bodies[i].position;
        let ghost before = layers.layers();
        let ghost bodies_before = bodies@;
        let ghost prev = staged_states(ol, ob, i as nat);
        proof {
            lemma_layer_index(ol, mask);
            lemma_staged_len(ol, ob, (i + 1) as nat);
            assert(same_but_handle(&bodies@[i as int], &ob[i as int]));
        }
        match layers.mask_layer(mask) {
            Some(k) => {
                proof {
                    lemma_first_mask_same(ol, before, k as int, mask);
                    assert(k == layer_index(ol, mask));
                    assert(before[k as int].handles() == prev[k as int].0);
                    assert(before[k as int].slots() == prev[k as int].1);
                }
                match bodies[i].collider.handle {
                    Some(h) => {
                        layers.update_in(k, h, pos);
                        proof {
                            let next = staged_states(ol, ob, (i + 1) as nat);
                            assert(next == prev.update(k as int, (prev[k as int].0, moved_at(prev[k as int].1, h, pos))));
                            assert forall|m: int| 0 <= m < ol.len() implies {
                                &&& (#[trigger] layers.layers()[m]).same_config(&ol[m])
                                &&& layers.layers()[m].handles() == next[m].0
                                &&& layers.layers()[m].slots() == next[m].1
                                &&& layers.layers()[m].slots().len() <= ol[m].slots().len() + i + 1
                            } by {
                                assert(before[m].same_config(&ol[m]));
                                if m != k {
                                    assert(layers.layers()[m] == before[m]);
                                }
                            }
                            assert forall|j: int| 0 <= j < i + 1 implies (#[trigger] bodies@[j]).collider.handle
                                == settled_handle(ol, ob, j) by {
                                if j == i {
                                    assert(ob[j].collider.handle == Some(h));
                                }
                            }
                        }
                    },
                    None => {
                        let h = layers.insert_into(k, bodies[i].entity, bodies[i].shape, pos);
                        bodies[i].collider.handle = Some(h);
                        proof {
                            let next = staged_states(ol, ob, (i + 1) as nat);
                            assert(ob[i as int].collider.handle is None);
                            assert(next == prev.update(
                                k as int,
                                (
                                    prev[k as int].0.insert(ob[i as int].entity.id, GridHandle { slot: prev[k as int].1.len() as usize }),
                                    after_insert(prev[k as int].1, prev[k as int].0, ob[i as int].entity, ob[i as int].shape, pos),
                                ),
                            ));
                            assert(h == GridHandle { slot: prev[k as int].1.len() as usize });
                            assert forall|m: int| 0 <= m < ol.len() implies {
                                &&& (#[trigger] layers.layers()[m]).same_config(&ol[m])
                                &&& layers.layers()[m].handles() == next[m].0
                                &&& layers.layers()[m].slots() == next[m].1
                                &&& layers.layers()[m].slots().len() <= ol[m].slots().len() + i + 1
                            } by {
                                assert(before[m].same_config(&ol[m]));
                                if m != k {
                                    assert(layers.layers()[m] == before[m]);
                                }
                            }
                            assert forall|j: int| 0 <= j < n implies same_but_handle(&#[trigger] bodies@[j], &ob[j]) by {
                                assert(same_but_handle(&bodies_before[j], &ob[j]));
                            }
                            assert forall|j: int| i < j < n implies (#[trigger] bodies@[j]).collider.handle == ob[j].collider.handle by {
                                assert(bodies_before[j].collider.handle == ob[j].collider.handle);
                            }
                            assert forall|j: int| 0 <= j < i + 1 implies (#[trigger] bodies@[j]).collider.handle
                                == settled_handle(ol, ob, j) by {
                                if j < i {
                                    assert(bodies@[j] == bodies_before[j]);
                                }
                            }
                        }
                    },
                }
            },
            None => {
                proof {
                    let kk = layer_index(ol, mask);
                    if kk < ol.len() {
                        assert(layers.layers()[kk].spec_mask() == ol[kk].spec_mask());
                    }
                    let next = staged_states(ol, ob, (i + 1) as nat);
                    assert(next == prev);
                    assert forall|m: int| 0 <= m < ol.len() implies
                        (#[trigger] layers.layers()[m]).slots().len() <= ol[m].slots().len() + i + 1 by {
                        assert(layers.layers()[m].slots().len() <= ol[m].slots().len() + i);
                    }
                }
            },
        }
        i += 1;
    }
    let ghost staged = layers.layers();
    layers.commit_changes();
    proof {
        assert forall|k: int| 0 <= k < ol.len() implies {
            &&& (#[trigger] layers.layers()[k]).same_config(&ol[k])
            &&& layers.layers()[k].handles() == staged_states(ol, ob, ob.len())[k].0
            &&& layers.layers()[k].slots() == commit_all(staged_states(ol, ob, ob.len())[k].1)
        } by {
            assert(staged[k].same_config(&ol[k]));
        }
    }
}

proof fn lemma_colliding_empty(layers: Seq<CollisionLayer>, n: nat, mask: CollisionMask)
    requires
        n <= layers.len(),
        forall|k: int| 0 <= k < layers.len() ==> !(#[trigger] layers[k]).spec_collides_with().contains(mask),
    ensures
        colliding(layers, n, mask) == Seq::<usize>::empty(),
    decreases n,
{
    if n > 0 {
        lemma_colliding_empty(layers, (n - 1) as nat, mask);
        assert(!layers[n - 1].spec_collides_with().contains(mask));
    }
}

proof fn lemma_colliding_contains(layers: Seq<CollisionLayer>, n: nat, mask: CollisionMask, k: int)
    requires
        n <= layers.len(),
        layers.len() <= usize::MAX,
        0 <= k < n,
        layers[k].spec_collides_with().contains(mask),
    ensures
        colliding(layers, n, mask).contains(k as usize),
    decreases n,
{
    let prev = colliding(layers, (n - 1) as nat, mask);
    if k < n - 1 {
        lemma_colliding_contains(layers, (n - 1) as nat, mask, k);
        let j = choose|j: int| 0 <= j < prev.len() && prev[j] == k as usize;
        if layers[n - 1].spec_collides_with().contains(mask) {
            assert(prev.push((n - 1) as usize)[j] == k as usize);
        }
    } else {
        assert(prev.push((n - 1) as usize)[prev.len() as int] == k as usize);
    }
}

proof fn lemma_hits_contain(
    slots: Seq<Slot>,
    layer_mask: CollisionMask,
    hits: Seq<(GridHandle, Point)>,
    n: nat,
    entity: Entity,
    pos: Point,
    shape: ColliderShape,
    m: int,
)
    requires
        n <= hits.len(),
        0 <= m < n,
        collision_with(slots, layer_mask, hits[m].0, entity, pos, shape) is Some,
    ensures
        hits_to_collisions(slots, layer_mask, hits, n, entity, pos, shape).contains(
            collision_with(slots, layer_mask, hits[m].0, entity, pos, shape)->Some_0,
        ),
    decreases n,
{
    let c = collision_with(slots, layer_mask, hits[m].0, entity, pos, shape)->Some_0;
    let prev = hits_to_collisions(slots, layer_mask, hits, (n - 1) as nat, entity, pos, shape);
    if m < n - 1 {
        lemma_hits_contain(slots, layer_mask, hits, (n - 1) as nat, entity, pos, shape, m);
        let j = choose|j: int| 0 <= j < prev.len() && prev[j] == c;
        match collision_with(slots, layer_mask, hits[n - 1].0, entity, pos, shape) {
            Some(d) => {
                assert(prev.push(d)[j] == c);
            },
            None => {},
        }
    } else {
        assert(prev.push(c)[prev.len() as int] == c);
    }
}

proof fn lemma_over_contains(
    layers: Seq<CollisionLayer>,
    idx: Seq<usize>,
    n: nat,
    entity: Entity,
    pos: Point,
    shape: ColliderShape,
    m: int,
    c: Collision,
)
    requires
        n <= idx.len(),
        0 <= m < n,
        layer_collisions(layers[idx[m] as int], entity, pos, shape).contains(c),
    ensures
        collisions_over(layers, idx, n, entity, pos, shape).contains(c),
    decreases n,
{
    let prev = collisions_over(layers, idx, (n - 1) as nat, entity, pos, shape);
    let last = layer_collisions(layers[idx[n - 1] as int], entity, pos, shape);
    if m < n - 1 {
        lemma_over_contains(layers, idx, (n - 1) as nat, entity, pos, shape, m, c);
        let j = choose|j: int| 0 <= j < prev.len() && prev[j] == c;
        assert((prev + last)[j] == c);
    } else {
        let j = choose|j: int| 0 <= j < last.len() && last[j] == c;
        assert((prev + last)[prev.len() + j] == c);
    }
}

/// An entity whose kind no layer's interaction set names is tested against no layer, so it
/// detects nothing.
pub proof fn lemma_unnamed_kind_detects_nothing(
    layers: Seq<CollisionLayer>,
    entity: Entity,
    pos: Point,
    shape: ColliderShape,
    mask: CollisionMask,
)
    requires
        forall|k: int| 0 <= k < layers.len() ==> !(#[trigger] layers[k]).spec_collides_with().contains(mask),
    ensures
        detected(layers, entity, pos, shape, mask) == Seq::<Collision>::empty(),
{
    lemma_colliding_empty(layers, layers.len(), mask);
}

/// An entity of kind `mask` detects every other entity that sits in a visible entry of a
/// layer whose interaction set names `mask`, when that entry lies within the neighbourhood
/// radius and the two circles overlap; the record names the layer's own kind.
pub proof fn lemma_detects_overlap(
    layers: Seq<CollisionLayer>,
    entity: Entity,
    pos: Point,
    shape: ColliderShape,
    mask: CollisionMask,
    k: int,
    h: GridHandle,
)
    requires
        layers.len() <= usize::MAX,
        0 <= k < layers.len(),
        layers[k].slots().len() <= usize::MAX,
        layers[k].spec_collides_with().contains(mask),
        is_visible(layers[k].slots(), h),
        layers[k].slots()[h.slot as int].entity != entity,
        within(layers[k].slots()[h.slot as int].pos, pos, NEIGHBORHOOD_RADIUS),
        circles_overlap(pos, shape, layers[k].slots()[h.slot as int].pos, layers[k].slots()[h.slot as int].shape),
    ensures
        detected(layers, entity, pos, shape, mask).contains(
            Collision {
                target: layers[k].slots()[h.slot as int].entity,
                mask: layers[k].spec_mask(),
                target_pos: layers[k].slots()[h.slot as int].pos,
            },
        ),
{
    let slots = layers[k].slots();
    let s = slots[h.slot as int];
    let c = Collision { target: s.entity, mask: layers[k].spec_mask(), target_pos: s.pos };
    let hits = around(slots, slots.len(), pos, NEIGHBORHOOD_RADIUS);
    lemma_around_contains(slots, slots.len(), pos, NEIGHBORHOOD_RADIUS, h, s.pos);
    let m = choose|m: int| 0 <= m < hits.len() && hits[m] == (h, s.pos);
    lemma_hits_contain(slots, layers[k].spec_mask(), hits, hits.len(), entity, pos, shape, m);
    let idx = colliding(layers, layers.len(), mask);
    lemma_colliding_contains(layers, layers.len(), mask, k);
    let j = choose|j: int| 0 <= j < idx.len() && idx[j] == k as usize;
    lemma_over_contains(layers, idx, idx.len(), entity, pos, shape, j, c);
}

} // verus!
