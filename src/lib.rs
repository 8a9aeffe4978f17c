pub mod geometry;
pub mod grid;
pub mod layer;
pub mod layer_set;
pub mod mask;
pub mod pipeline;

pub use geometry::{distance_squared, overlaps, ColliderShape, Entity, Point};
pub use grid::{GridHandle, SpatialGrid};
pub use layer::CollisionLayer;
pub use layer_set::CollisionLayers;
pub use mask::{CollisionMask, MaskSet};
pub use pipeline::{
    check_collisions, detect, remove_grid_colliders, reset_collisions, update_collider_shapes,
    update_collision_grids, Body, Collider, Collision, NEIGHBORHOOD_RADIUS,
};
