//! The decisions of the radiance integrator: which hit is the closest,
//! which surface it belongs to, and whether a path goes on.
//!
//! A surface reports where a ray meets it as a key: `0` when the ray misses
//! it, and otherwise a positive number that grows with the distance along
//! the ray. The largest key stands for "no limit" and is never a hit. A
//! random draw from the unit interval is carried as a key in the same way.

use vstd::prelude::*;
use crate::material::Material;
use crate::material::MaterialsFactory;
use crate::material::canonical_materials;
use crate::material::resolve;

verus! {

/// Beyond this depth a path goes on only if it survives a random draw.
pub const ROULETTE_DEPTH: i64 = 3;

/// The key of three tenths: a path beyond the roulette depth goes on only
/// if its draw is not above it.
pub const CONTINUATION: u64 = 0x3fd3_3333_3333_3333;

/// The key that stands for "no limit on the distance".
pub const UNBOUNDED: u64 = 0xffff_ffff_ffff_ffff;

/// Whether a key reports a hit.
pub open spec fn is_hit(t: u64) -> bool {
    t != 0 && t != UNBOUNDED
}

/// Whether no surface reports a hit.
pub open spec fn none_hit(hits: Seq<u64>) -> bool {
    forall|i: int| 0 <= i < hits.len() ==> !is_hit(#[trigger] hits[i])
}

/// Whether `t` is the closest hit among `hits`: some surface reports it, and
/// no surface reports a closer one.
pub open spec fn is_closest(hits: Seq<u64>, t: u64) -> bool {
    &&& is_hit(t)
    &&& hits.contains(t)
    &&& forall|i: int| 0 <= i < hits.len() && is_hit(#[trigger] hits[i]) ==> t <= hits[i]
}

/// The closest hit among `hits`, if any surface reports one.
pub open spec fn closest(hits: Seq<u64>) -> Option<u64> {
    if exists|t: u64| is_closest(hits, t) {
        Some(choose|t: u64| is_closest(hits, t))
    } else {
        None
    }
}

/// Whether `i` is the first surface that reports exactly `t`.
pub open spec fn is_first_at(hits: Seq<u64>, t: u64, i: int) -> bool {
    &&& 0 <= i < hits.len()
    &&& hits[i] == t
    &&& forall|j: int| 0 <= j < i ==> #[trigger] hits[j] != t
}

/// The first surface that reports exactly `t`, if any does.
pub open spec fn first_at(hits: Seq<u64>, t: u64) -> Option<int> {
    if exists|i: int| is_first_at(hits, t, i) {
        Some(choose|i: int| is_first_at(hits, t, i))
    } else {
        None
    }
}

/// Whether a path at this depth has to survive a random draw to go on.
pub open spec fn roulette_applies(depth: i64) -> bool {
    depth > ROULETTE_DEPTH
}

/// Whether the roulette ends a path at this depth with this draw. The
/// light of a path that goes on is not scaled up for the paths that ended.
pub open spec fn roulette_ends(depth: i64, draw: u64) -> bool {
    roulette_applies(depth) && draw > CONTINUATION
}

/// What the integrator does with one ray.
#[derive(Clone, Copy, Debug, PartialEq, Eq, Structural)]
pub enum Step {
    /// The path ends here and contributes no light.
    Terminate,
    /// The ray reaches the surface with this index, which is of this
    /// material: the surface is shaded and the path goes on from it.
    Shade { surface: usize, material: Material },
}

/// The decision for one ray, over plain values. `surfaces` holds the
/// material key of every surface, `nearest` what every surface reports with
/// no limit on the distance, and `hits` what it reports within the limit
/// that the caller set.
///
/// A path that the roulette ends contributes nothing. Neither does one
/// whose ray meets nothing, nor one whose closest hit no surface reports
/// within the limit. Otherwise the first surface that reports the closest
/// hit is shaded, with the material that its key resolves to.
pub open spec fn decide(
    materials: Map<Seq<char>, Material>,
    surfaces: Seq<Seq<char>>,
    depth: i64,
    draw: u64,
    nearest: Seq<u64>,
    hits: Seq<u64>,
) -> Step {
    if roulette_ends(depth, draw) {
        Step::Terminate
    } else {
        match closest(nearest) {
            None => Step::Terminate,
            Some(t) => match first_at(hits, t) {
                None => Step::Terminate,
                Some(i) => Step::Shade {
                    surface: i as usize,
                    material: resolve(materials, surfaces[i]),
                },
            },
        }
    }
}

/// The material keys of a list of surfaces.
pub open spec fn keys_of(render_list: Seq<String>) -> Seq<Seq<char>> {
    Seq::new(render_list.len(), |i: int| render_list[i]@)
}

/// There is at most one closest hit.
pub proof fn lemma_closest_is_unique(hits: Seq<u64>, t1: u64, t2: u64)
    requires
        is_closest(hits, t1),
        is_closest(hits, t2),
    ensures
        t1 == t2,
{
    let i1 = choose|i: int| 0 <= i < hits.len() && hits[i] == t1;
    let i2 = choose|i: int| 0 <= i < hits.len() && hits[i] == t2;
    assert(is_hit(hits[i1]));
    assert(is_hit(hits[i2]));
}

/// At most one surface is the first to report a given key.
pub proof fn lemma_first_is_unique(hits: Seq<u64>, t: u64, i1: int, i2: int)
    requires
        is_first_at(hits, t, i1),
        is_first_at(hits, t, i2),
    ensures
        i1 == i2,
{
    if i1 < i2 {
        assert(hits[i1] != t);
    } else if i2 < i1 {
        assert(hits[i2] != t);
    }
}

/// In a scene without surfaces every path ends at once and contributes no
/// light, whatever the ray, the depth and the draw.
pub proof fn lemma_empty_scene_is_dark(
    materials: Map<Seq<char>, Material>,
    depth: i64,
    draw: u64,
    nearest: Seq<u64>,
    hits: Seq<u64>,
)
    requires
        nearest.len() == 0,
        hits.len() == 0,
    ensures
        decide(materials, Seq::<Seq<char>>::empty(), depth, draw, nearest, hits)
            == Step::Terminate,
{
    assert forall|t: u64| !is_closest(nearest, t) by {
        if nearest.contains(t) {
            let i = choose|i: int| 0 <= i < nearest.len() && nearest[i] == t;
        }
    }
}

/// A path whose ray meets no surface ends and contributes no light.
pub proof fn lemma_miss_is_dark(
    materials: Map<Seq<char>, Material>,
    surfaces: Seq<Seq<char>>,
    depth: i64,
    draw: u64,
    nearest: Seq<u64>,
    hits: Seq<u64>,
)
    requires
        none_hit(nearest),
    ensures
        decide(materials, surfaces, depth, draw, nearest, hits) == Step::Terminate,
{
    assert forall|t: u64| !is_closest(nearest, t) by {
        if is_hit(t) && nearest.contains(t) {
            let i = choose|i: int| 0 <= i < nearest.len() && nearest[i] == t;
            assert(!is_hit(nearest[i]));
        }
    }
}

/// A ray that meets the only surface of a scene within the caller's limit
/// has that surface shaded, with the material that its key resolves to,
/// unless the roulette ended the path.
pub proof fn lemma_lone_surface_is_shaded(
    materials: Map<Seq<char>, Material>,
    key: Seq<char>,
    depth: i64,
    draw: u64,
    t: u64,
)
    requires
        is_hit(t),
        !roulette_ends(depth, draw),
    ensures
        decide(materials, seq![key], depth, draw, seq![t], seq![t]) == (Step::Shade {
            surface: 0,
            material: resolve(materials, key),
        }),
{
    let hits = seq![t];
    assert(hits[0] == t);
    assert(is_closest(hits, t));
    let found = choose|other: u64| is_closest(hits, other);
    lemma_closest_is_unique(hits, t, found);
    assert(is_first_at(hits, t, 0));
    let first = choose|i: int| is_first_at(hits, t, i);
    lemma_first_is_unique(hits, t, 0, first);
}

/// The surfaces of a scene, each known by its material key, and the registry
/// that resolves those keys.
pub struct Scene {
    renderables: Vec<String>,
    materials: MaterialsFactory,
}

impl Scene {
    /// The material key of every surface, in scene order.
    pub closed spec fn surfaces(&self) -> Seq<Seq<char>> {
        keys_of(self.renderables@)
    }

    /// The registry of the scene, as a map from key to material.
    pub closed spec fn materials(&self) -> Map<Seq<char>, Material> {
        self.materials@
    }

    /// A scene of the given surfaces, with a registry of the canonical
    /// materials.
    pub fn new(render_list: Vec<String>) -> (scene: Scene)
        ensures
            scene.surfaces() == keys_of(render_list@),
            scene.materials() == canonical_materials(),
    {
        Scene { renderables: render_list, materials: MaterialsFactory::new() }
    }

    /// How many surfaces the scene holds.
    pub fn len(&self) -> (n: usize)
        ensures
            n == self.surfaces().len(),
    {
        self.renderables.len()
    }

    /// Whether a path at this depth goes on only if it survives a random
    /// draw.
    pub fn roulette_applies(depth: i64) -> (applies: bool)
        ensures
            applies == roulette_applies(depth),
    {
        depth > ROULETTE_DEPTH
    }

    /// Whether the roulette ends a path at this depth with this draw.
    pub fn roulette_ends(depth: i64, draw: u64) -> (ends: bool)
        ensures
            ends == roulette_ends(depth, draw),
    {
        depth > ROULETTE_DEPTH && draw > CONTINUATION
    }

    /// The closest hit among what the surfaces report, or `None` when the
    /// ray meets none of them.
    pub fn get_closest_intersection(&self, hits: &Vec<u64>) -> (t: Option<u64>)
        ensures
            t == closest(hits@),
            match t {
                Some(t) => is_closest(hits@, t),
                None => none_hit(hits@),
            },
    {
        let mut t: u64 = UNBOUNDED;
        let mut i: usize = 0;
        while i < hits.len()
            invariant
                0 <= i <= hits@.len(),
                t == UNBOUNDED ==> forall|j: int| 0 <= j < i ==> !is_hit(#[trigger] hits@[j]),
                t != UNBOUNDED ==> is_closest(hits@.take(i as int), t),
            decreases hits@.len() - i,
        {
            let t2 = hits[i];
            proof {
                let before = hits@.take(i as int);
                let after = hits@.take(i + 1);
                assert(after == before.push(t2));
                assert(forall|j: int| 0 <= j < i ==> after[j] == before[j]);
                if t > t2 && t2 != 0 {
                    assert(after[i as int] == t2);
                    assert forall|j: int| 0 <= j < after.len() && is_hit(#[trigger] after[j]) implies t2
                        <= after[j] by {
                        if j < i {
                            assert(before[j] == after[j]);
                        }
                    }
                } else if t != UNBOUNDED {
                    let at = choose|j: int| 0 <= j < before.len() && before[j] == t;
                    assert(after[at] == t);
                }
            }
            if t > t2 && t2 != 0 {
                t = t2;
            }
            i = i + 1;
        }
        proof {
            assert(hits@.take(i as int) == hits@);
            if t != UNBOUNDED {
                assert forall|other: u64| is_closest(hits@, other) implies other == t by {
                    lemma_closest_is_unique(hits@, t, other);
                }
            } else {
                assert forall|other: u64| !is_closest(hits@, other) by {
                    if is_hit(other) && hits@.contains(other) {
                        let at = choose|j: int| 0 <= j < hits@.len() && hits@[j] == other;
                        assert(!is_hit(hits@[at]));
                    }
                }
            }
        }
        if t == UNBOUNDED {
            None
        } else {
            Some(t)
        }
    }

    /// Decides what becomes of one ray. `depth` counts the bounces before
    /// it, and `draw` is the path's random draw, which is read only where
    /// the roulette applies. `nearest` holds what every surface reports
    /// with no limit on the distance, `hits` what it reports within the
    /// caller's limit.
    pub fn render(&self, depth: i64, draw: u64, nearest: &Vec<u64>, hits: &Vec<u64>) -> (step:
        Step)
        requires
            hits@.len() == self.surfaces().len(),
        ensures
            step == decide(self.materials(), self.surfaces(), depth, draw, nearest@, hits@),
    {
        if Self::roulette_ends(depth, draw) {
            return Step::Terminate;
        }
        let t = match self.get_closest_intersection(nearest) {
            None => {
                return Step::Terminate;
            },
            Some(t) => t,
        };
        let mut i: usize = 0;
        while i < hits.len()
            invariant
                0 <= i <= hits@.len(),
                hits@.len() == self.surfaces().len(),
                !roulette_ends(depth, draw),
                closest(nearest@) == Some(t),
                forall|j: int| 0 <= j < i ==> #[trigger] hits@[j] != t,
            decreases hits@.len() - i,
        {
            if hits[i] == t {
                proof {
                    assert(is_first_at(hits@, t, i as int));
                    let first = choose|k: int| is_first_at(hits@, t, k);
                    lemma_first_is_unique(hits@, t, i as int, first);
                }
                let material = self.materials.get_material_by_key(self.renderables[i].clone());
                return Step::Shade { surface: i, material };
            }
            i = i + 1;
        }
        proof {
            assert forall|k: int| !is_first_at(hits@, t, k) by {
                if 0 <= k < hits@.len() {
                    assert(hits@[k] != t);
                }
            }
        }
        Step::Terminate
    }
}

} // verus!
