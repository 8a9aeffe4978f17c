use collisions::{
    check_collisions, detect, overlaps, remove_grid_colliders, reset_collisions,
    update_collider_shapes, update_collision_grids, Body, Collider, ColliderShape, Collision,
    CollisionLayer, CollisionLayers, CollisionMask, Entity, GridHandle, MaskSet, Point,
    SpatialGrid,
};

fn pt(x: i32, y: i32) -> Point {
    Point { x, y }
}

fn body(id: u64, mask: CollisionMask, radius: u32, x: i32, y: i32) -> Body {
    Body {
        entity: Entity { id },
        position: pt(x, y),
        shape: ColliderShape { radius },
        collider: Collider::new(mask),
    }
}

fn two_layers() -> CollisionLayers {
    CollisionLayers::new(vec![
        CollisionLayer::new(CollisionMask::Enemies, MaskSet::of(CollisionMask::Players), 256),
        CollisionLayer::new(CollisionMask::Players, MaskSet::of(CollisionMask::Enemies), 256),
    ])
}

fn tick(layers: &mut CollisionLayers, bodies: &mut Vec<Body>) {
    update_collision_grids(layers, bodies);
    check_collisions(layers, bodies);
}

#[test]
fn overlap_is_strict_at_tangency() {
    let s = ColliderShape { radius: 10 };
    assert!(!overlaps(pt(0, 0), s, pt(20, 0), s));
    assert!(overlaps(pt(0, 0), s, pt(19, 0), s));
    assert!(!overlaps(pt(0, 0), s, pt(12, 16), s));
    assert!(overlaps(pt(0, 0), s, pt(12, 15), s));
}

#[test]
fn overlap_handles_extreme_coordinates() {
    let big = ColliderShape { radius: u32::MAX };
    let zero = ColliderShape { radius: 0 };
    assert!(overlaps(pt(i32::MIN, i32::MIN), big, pt(i32::MAX, i32::MAX), big));
    assert!(!overlaps(pt(i32::MIN, 0), zero, pt(i32::MAX, 0), zero));
    assert!(!overlaps(pt(5, 5), zero, pt(5, 5), zero));
}

#[test]
fn distance_squared_is_exact() {
    assert_eq!(collisions::distance_squared(pt(0, 0), pt(3, 4)), 25);
    assert_eq!(
        collisions::distance_squared(pt(i32::MIN, 0), pt(i32::MAX, 0)),
        (u32::MAX as i128) * (u32::MAX as i128)
    );
}

#[test]
fn mask_set_membership() {
    let none = MaskSet::empty();
    assert!(!none.contains(CollisionMask::Players));
    assert!(!none.contains(CollisionMask::Enemies));
    let players = MaskSet::of(CollisionMask::Players);
    assert!(players.contains(CollisionMask::Players));
    assert!(!players.contains(CollisionMask::Enemies));
    let both = players.with(CollisionMask::Enemies);
    assert!(both.contains(CollisionMask::Players));
    assert!(both.contains(CollisionMask::Enemies));
}

#[test]
fn scenario_two_layers_one_tick() {
    let mut layers = two_layers();
    let mut bodies = vec![
        body(1, CollisionMask::Enemies, 10, 0, 0),
        body(2, CollisionMask::Players, 10, 15, 0),
    ];
    tick(&mut layers, &mut bodies);
    assert_eq!(
        bodies[0].collider.collisions,
        vec![Collision { target: Entity { id: 2 }, mask: CollisionMask::Players, target_pos: pt(15, 0) }]
    );
    assert_eq!(
        bodies[1].collider.collisions,
        vec![Collision { target: Entity { id: 1 }, mask: CollisionMask::Enemies, target_pos: pt(0, 0) }]
    );

    reset_collisions(&mut bodies);
    bodies[1].position = pt(25, 0);
    tick(&mut layers, &mut bodies);
    assert!(bodies[0].collider.collisions.is_empty());
    assert!(bodies[1].collider.collisions.is_empty());
}

#[test]
fn detection_is_directional() {
    let mut layers = CollisionLayers::new(vec![
        CollisionLayer::new(CollisionMask::Enemies, MaskSet::of(CollisionMask::Players), 256),
        CollisionLayer::new(CollisionMask::Players, MaskSet::empty(), 256),
    ]);
    let mut bodies = vec![
        body(1, CollisionMask::Enemies, 10, 0, 0),
        body(2, CollisionMask::Players, 10, 5, 5),
    ];
    tick(&mut layers, &mut bodies);
    // The player is tested against the enemy layer, whose interaction set names players;
    // nothing names enemies, so the enemy is tested against no layer.
    assert!(bodies[0].collider.collisions.is_empty());
    assert_eq!(
        bodies[1].collider.collisions,
        vec![Collision { target: Entity { id: 1 }, mask: CollisionMask::Enemies, target_pos: pt(0, 0) }]
    );
}

#[test]
fn layer_tests_against_itself() {
    let mut layers = CollisionLayers::new(vec![CollisionLayer::new(
        CollisionMask::Enemies,
        MaskSet::of(CollisionMask::Enemies),
        64,
    )]);
    let mut bodies = vec![
        body(1, CollisionMask::Enemies, 4, 0, 0),
        body(2, CollisionMask::Enemies, 4, 6, 0),
        body(3, CollisionMask::Enemies, 4, 100, 0),
    ];
    tick(&mut layers, &mut bodies);
    assert_eq!(bodies[0].collider.collisions.len(), 1);
    assert_eq!(bodies[0].collider.collisions[0].target, Entity { id: 2 });
    assert_eq!(bodies[1].collider.collisions[0].target, Entity { id: 1 });
    assert!(bodies[2].collider.collisions.is_empty());
}

#[test]
fn neighbourhood_radius_bounds_the_search() {
    let mut layers = two_layers();
    let mut bodies = vec![
        body(1, CollisionMask::Enemies, 200, 0, 0),
        body(2, CollisionMask::Players, 200, 300, 0),
    ];
    tick(&mut layers, &mut bodies);
    assert!(bodies[0].collider.collisions.is_empty());
    assert!(bodies[1].collider.collisions.is_empty());
}

#[test]
fn reset_clears_every_list() {
    let mut layers = two_layers();
    let mut bodies = vec![
        body(1, CollisionMask::Enemies, 10, 0, 0),
        body(2, CollisionMask::Players, 10, 1, 1),
    ];
    tick(&mut layers, &mut bodies);
    assert!(!bodies[0].collider.collisions.is_empty());
    reset_collisions(&mut bodies);
    assert!(bodies[0].collider.collisions.is_empty());
    assert!(bodies[1].collider.collisions.is_empty());
    assert_eq!(bodies[0].position, pt(0, 0));
    assert!(bodies[0].collider.handle.is_some());
}

#[test]
fn unconfigured_mask_is_skipped() {
    let mut layers = CollisionLayers::new(vec![CollisionLayer::new(
        CollisionMask::Enemies,
        MaskSet::of(CollisionMask::Players),
        256,
    )]);
    assert_eq!(layers.mask_layer(CollisionMask::Players), None);
    assert_eq!(layers.mask_layer(CollisionMask::Enemies), Some(0));
    let mut bodies = vec![body(7, CollisionMask::Players, 10, 0, 0)];
    update_collision_grids(&mut layers, &mut bodies);
    assert_eq!(bodies[0].collider.handle, None);
    assert_eq!(layers.layer(0).slot_count(), 0);
}

#[test]
fn colliding_layers_lists_matching_layers_in_order() {
    let layers = CollisionLayers::new(vec![
        CollisionLayer::new(
            CollisionMask::Enemies,
            MaskSet::of(CollisionMask::Players).with(CollisionMask::Enemies),
            256,
        ),
        CollisionLayer::new(CollisionMask::Players, MaskSet::of(CollisionMask::Enemies), 128),
    ]);
    assert_eq!(layers.colliding_layers(CollisionMask::Players), vec![0]);
    assert_eq!(layers.colliding_layers(CollisionMask::Enemies), vec![0, 1]);
    assert_eq!(layers.mask_layer(CollisionMask::Players), Some(1));
    assert_eq!(layers.layer(1).cell_size(), 128);
}

#[test]
fn removing_untracked_entity_is_a_no_op() {
    let mut layer = CollisionLayer::new(CollisionMask::Players, MaskSet::empty(), 32);
    let h = layer.insert(Entity { id: 1 }, ColliderShape { radius: 3 }, pt(4, 4));
    assert!(!layer.remove(Entity { id: 2 }));
    assert_eq!(layer.slot_count(), 1);
    assert_eq!(layer.handle_of(Entity { id: 1 }), Some(h));
    assert_eq!(layer.get(h), Some((pt(4, 4), Entity { id: 1 }, ColliderShape { radius: 3 })));

    let mut layers = CollisionLayers::new(vec![layer]);
    assert!(!layers.remove(Entity { id: 9 }));
    assert_eq!(layers.layer(0).handle_of(Entity { id: 1 }), Some(h));
    assert!(layers.remove(Entity { id: 1 }));
    assert_eq!(layers.layer(0).handle_of(Entity { id: 1 }), None);
}

#[test]
fn insert_then_query_finds_the_entry() {
    let mut layer = CollisionLayer::new(CollisionMask::Enemies, MaskSet::empty(), 256);
    let e = Entity { id: 42 };
    let s = ColliderShape { radius: 8 };
    let h = layer.insert(e, s, pt(-30, 70));
    layer.commit();
    let hits = layer.query_around(pt(-30, 70), 0);
    assert_eq!(hits, vec![(h, pt(-30, 70))]);
    assert_eq!(layer.get(h), Some((pt(-30, 70), e, s)));
}

#[test]
fn moves_and_removals_wait_for_commit() {
    let mut layer = CollisionLayer::new(CollisionMask::Enemies, MaskSet::empty(), 256);
    let e = Entity { id: 5 };
    let h = layer.insert(e, ColliderShape { radius: 1 }, pt(0, 0));
    layer.update(h, pt(50, 0));
    assert_eq!(layer.query_around(pt(0, 0), 1), vec![(h, pt(0, 0))]);
    layer.commit();
    assert_eq!(layer.query_around(pt(0, 0), 1), vec![]);
    assert_eq!(layer.query_around(pt(50, 0), 1), vec![(h, pt(50, 0))]);

    assert!(layer.remove(e));
    assert_eq!(layer.query_around(pt(50, 0), 1), vec![(h, pt(50, 0))]);
    layer.commit();
    assert_eq!(layer.query_around(pt(50, 0), 1), vec![]);
    assert_eq!(layer.get(h), None);
    assert_eq!(layer.handle_of(e), None);
}

#[test]
fn reinserting_an_entity_keeps_one_entry() {
    let mut layer = CollisionLayer::new(CollisionMask::Players, MaskSet::empty(), 256);
    let e = Entity { id: 3 };
    let first = layer.insert(e, ColliderShape { radius: 2 }, pt(0, 0));
    let second = layer.insert(e, ColliderShape { radius: 2 }, pt(1, 0));
    layer.commit();
    assert_ne!(first, second);
    assert_eq!(layer.handle_of(e), Some(second));
    assert_eq!(layer.query_around(pt(0, 0), 10), vec![(second, pt(1, 0))]);
}

#[test]
fn stale_handles_are_ignored() {
    let mut layer = CollisionLayer::new(CollisionMask::Players, MaskSet::empty(), 256);
    let stale = GridHandle { slot: 7 };
    layer.update(stale, pt(1, 1));
    layer.set_shape(stale, ColliderShape { radius: 9 });
    layer.commit();
    assert_eq!(layer.slot_count(), 0);
    assert_eq!(layer.get(stale), None);
}

#[test]
fn grid_query_orders_by_handle_and_includes_boundary() {
    let mut grid = SpatialGrid::new(16);
    let a = grid.insert(pt(3, 4), Entity { id: 1 }, ColliderShape { radius: 1 });
    let b = grid.insert(pt(0, 0), Entity { id: 2 }, ColliderShape { radius: 1 });
    let _far = grid.insert(pt(6, 0), Entity { id: 3 }, ColliderShape { radius: 1 });
    assert_eq!(grid.query_around(pt(0, 0), 5), vec![(a, pt(3, 4)), (b, pt(0, 0))]);
    assert_eq!(grid.cell_size(), 16);
    assert_eq!(grid.len(), 3);
}

#[test]
fn shape_changes_reach_detection() {
    let mut layers = two_layers();
    let mut bodies = vec![
        body(1, CollisionMask::Enemies, 5, 0, 0),
        body(2, CollisionMask::Players, 5, 30, 0),
    ];
    tick(&mut layers, &mut bodies);
    assert!(bodies[0].collider.collisions.is_empty());
    reset_collisions(&mut bodies);

    bodies[1].shape = ColliderShape { radius: 40 };
    update_collider_shapes(&mut layers, &bodies);
    let found = detect(&layers, Entity { id: 1 }, pt(0, 0), ColliderShape { radius: 5 }, CollisionMask::Enemies);
    assert_eq!(
        found,
        vec![Collision { target: Entity { id: 2 }, mask: CollisionMask::Players, target_pos: pt(30, 0) }]
    );
}

#[test]
fn removed_colliders_leave_the_grid() {
    let mut layers = two_layers();
    let mut bodies = vec![
        body(1, CollisionMask::Enemies, 10, 0, 0),
        body(2, CollisionMask::Players, 10, 5, 0),
    ];
    tick(&mut layers, &mut bodies);
    remove_grid_colliders(&mut layers, &vec![Entity { id: 2 }, Entity { id: 99 }]);
    assert_eq!(layers.layer(1).handle_of(Entity { id: 2 }), None);
    reset_collisions(&mut bodies);
    bodies.truncate(1);
    tick(&mut layers, &mut bodies);
    assert!(bodies[0].collider.collisions.is_empty());
}

#[test]
fn grid_update_moves_known_entries() {
    let mut layers = two_layers();
    let mut bodies = vec![body(1, CollisionMask::Players, 10, 0, 0)];
    update_collision_grids(&mut layers, &mut bodies);
    let h = bodies[0].collider.handle.unwrap();
    bodies[0].position = pt(-40, 12);
    update_collision_grids(&mut layers, &mut bodies);
    assert_eq!(bodies[0].collider.handle, Some(h));
    assert_eq!(
        layers.layer(1).get(h),
        Some((pt(-40, 12), Entity { id: 1 }, ColliderShape { radius: 10 }))
    );
    assert_eq!(layers.layer(1).slot_count(), 1);
}

#[test]
fn removal_keeps_other_entries() {
    let mut layers = two_layers();
    let mut bodies = vec![
        body(1, CollisionMask::Players, 10, 0, 0),
        body(2, CollisionMask::Players, 10, 50, 0),
        body(3, CollisionMask::Enemies, 10, 90, 0),
    ];
    update_collision_grids(&mut layers, &mut bodies);
    let kept = bodies[1].collider.handle.unwrap();
    remove_grid_colliders(&mut layers, &vec![Entity { id: 1 }]);
    assert_eq!(layers.layer(1).handle_of(Entity { id: 1 }), None);
    assert_eq!(layers.layer(1).handle_of(Entity { id: 2 }), Some(kept));
    assert_eq!(layers.layer(0).handle_of(Entity { id: 3 }), bodies[2].collider.handle);
    layers.commit_changes();
    assert_eq!(layers.layer(1).get(bodies[0].collider.handle.unwrap()), None);
    assert_eq!(
        layers.layer(1).get(kept),
        Some((pt(50, 0), Entity { id: 2 }, ColliderShape { radius: 10 }))
    );
}

#[test]
fn shape_step_touches_only_named_entries() {
    let mut layers = two_layers();
    let mut bodies = vec![
        body(1, CollisionMask::Players, 10, 0, 0),
        body(2, CollisionMask::Players, 10, 50, 0),
    ];
    update_collision_grids(&mut layers, &mut bodies);
    let changed = vec![Body {
        entity: Entity { id: 1 },
        position: pt(0, 0),
        shape: ColliderShape { radius: 30 },
        collider: Collider {
            handle: bodies[0].collider.handle,
            mask: CollisionMask::Players,
            collisions: Vec::new(),
        },
    }];
    update_collider_shapes(&mut layers, &changed);
    let first = layers.layer(1).get(bodies[0].collider.handle.unwrap()).unwrap();
    let second = layers.layer(1).get(bodies[1].collider.handle.unwrap()).unwrap();
    assert_eq!(first.2, ColliderShape { radius: 30 });
    assert_eq!(second.2, ColliderShape { radius: 10 });
}
