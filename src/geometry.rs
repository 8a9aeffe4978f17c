use vstd::prelude::*;

verus! {

/// Identity of a simulated entity.
#[derive(Clone, Copy, Debug, PartialEq, Eq, Structural)]
pub struct Entity {
    pub id: u64,
}

/// A position in world units.
#[derive(Clone, Copy, Debug, PartialEq, Eq, Structural)]
pub struct Point {
    pub x: i32,
    pub y: i32,
}

/// Circular collision footprint of an entity.
#[derive(Clone, Copy, Debug, PartialEq, Eq, Structural)]
pub struct ColliderShape {
    pub radius: u32,
}

/// Squared euclidean distance between two points.
pub open spec fn dist_sq(a: Point, b: Point) -> int {
    (a.x - b.x) * (a.x - b.x) + (a.y - b.y) * (a.y - b.y)
}

/// Two circles overlap when their centres are strictly closer than the sum of their radii.
pub open spec fn circles_overlap(a_pos: Point, a: ColliderShape, b_pos: Point, b: ColliderShape) -> bool {
    dist_sq(a_pos, b_pos) < (a.radius + b.radius) * (a.radius + b.radius)
}

/// Whether `p` lies within `radius` of `center` (boundary included).
pub open spec fn within(p: Point, center: Point, radius: u32) -> bool {
    dist_sq(p, center) <= radius * radius
}

proof fn lemma_square_bound(d: int)
    requires
        -0x4_0000_0000 <= d <= 0x4_0000_0000,
    ensures
        0 <= d * d <= 0x10_0000_0000_0000_0000,
{
    assert(0 <= d * d <= 0x10_0000_0000_0000_0000) by (nonlinear_arith)
        requires -0x4_0000_0000 <= d <= 0x4_0000_0000;
}

/// Exact squared distance, computed without overflow.
pub fn distance_squared(a: Point, b: Point) -> (r: i128)
    ensures
        r == dist_sq(a, b),
{
    let dx: i128 = a.x as i128 - b.x as i128;
    let dy: i128 = a.y as i128 - b.y as i128;
    proof {
        lemma_square_bound(dx as int);
        lemma_square_bound(dy as int);
    }
    dx * dx + dy * dy
}

/// Broad-phase circle test: true iff the squared centre distance is strictly below the
/// squared sum of the radii, so touching circles do not overlap.
pub fn overlaps(a_pos: Point, a_shape: ColliderShape, b_pos: Point, b_shape: ColliderShape) -> (r: bool)
    ensures
        r == circles_overlap(a_pos, a_shape, b_pos, b_shape),
{
    let reach: i128 = a_shape.radius as i128 + b_shape.radius as i128;
    proof {
        lemma_square_bound(reach as int);
    }
    distance_squared(a_pos, b_pos) < reach * reach
}

/// Whether `p` lies within `radius` of `center`.
pub fn is_within(p: Point, center: Point, radius: u32) -> (r: bool)
    ensures
        r == within(p, center, radius),
{
    proof {
        lemma_square_bound(radius as int);
    }
    let r2: i128 = radius as i128 * radius as i128;
    distance_squared(p, center) <= r2
}

} // verus!
