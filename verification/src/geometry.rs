//! Where a ray meets a surface: which solution of the surface's equation
//! counts as the hit.
//!
//! A distance along a ray is carried as a key: the bit pattern of a double
//! that is not negative, read as an integer. Among such numbers the order
//! of the integers is the order of the distances. What is no positive
//! distance (a negative solution, or none at all) is carried as `0`.

use vstd::prelude::*;

verus! {

/// The key of one thousandth, the closest distance at which a hit counts.
/// Anything closer is taken for the surface that the ray has just left.
pub const EPSILON: u64 = 0x3f50_624d_d2f1_a9fc;

/// The key that reports a miss. No hit has it, because every hit lies at
/// least `EPSILON` away.
pub const MISS: u64 = 0;

/// Whether a solution counts as a hit: it lies beyond the closest distance
/// and before the limit.
pub open spec fn within(t: u64, t_max: u64) -> bool {
    EPSILON < t < t_max
}

/// What a plane reports. `steepness` is the key of how steeply the ray runs
/// against the plane, and `t` the solution of the plane's equation. A ray
/// that runs nearly along the plane misses it; otherwise the solution is the
/// hit if it counts as one.
pub open spec fn plane_hit_of(steepness: u64, t: u64, t_max: u64) -> u64 {
    if steepness > EPSILON && within(t, t_max) {
        t
    } else {
        MISS
    }
}

/// What a sphere reports, given the two solutions of its equation: the
/// nearer one if it counts as a hit, else the farther one if that counts,
/// else a miss.
pub open spec fn sphere_hit_of(near: u64, far: u64, t_max: u64) -> u64 {
    if within(near, t_max) {
        near
    } else if within(far, t_max) {
        far
    } else {
        MISS
    }
}

/// Picks what a plane reports for a ray.
pub fn plane_hit(steepness: u64, t: u64, t_max: u64) -> (hit: u64)
    ensures
        hit == plane_hit_of(steepness, t, t_max),
        hit == MISS || within(hit, t_max),
{
    if steepness > EPSILON {
        if t > EPSILON && t < t_max {
            return t;
        }
    }
    MISS
}

/// Picks what a sphere reports for a ray.
pub fn sphere_hit(near: u64, far: u64, t_max: u64) -> (hit: u64)
    ensures
        hit == sphere_hit_of(near, far, t_max),
        hit == MISS || within(hit, t_max),
{
    if (near < t_max) && (near > EPSILON) {
        return near;
    }
    if (far < t_max) && (far > EPSILON) {
        return far;
    }
    MISS
}

/// A ray none of whose solutions counts as a hit misses the sphere: the
/// report is exactly the key of a miss.
pub proof fn lemma_sphere_miss(near: u64, far: u64, t_max: u64)
    requires
        !within(near, t_max),
        !within(far, t_max),
    ensures
        sphere_hit_of(near, far, t_max) == MISS,
{
}

/// A ray whose solution does not count as a hit, or that runs nearly along
/// the plane, misses the plane: the report is exactly the key of a miss.
pub proof fn lemma_plane_miss(steepness: u64, t: u64, t_max: u64)
    requires
        steepness <= EPSILON || !within(t, t_max),
    ensures
        plane_hit_of(steepness, t, t_max) == MISS,
{
}

/// What a surface reports is either a miss or a hit that the scene can
/// tell from one: it is never the key that stands for "no limit".
pub proof fn lemma_report_is_miss_or_hit(near: u64, far: u64, steepness: u64, t: u64, t_max: u64)
    ensures
        sphere_hit_of(near, far, t_max) == MISS || crate::scene::is_hit(
            sphere_hit_of(near, far, t_max),
        ),
        plane_hit_of(steepness, t, t_max) == MISS || crate::scene::is_hit(
            plane_hit_of(steepness, t, t_max),
        ),
{
}

} // verus!
