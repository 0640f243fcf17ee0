use vstd::prelude::*;

use crate::vec::{
    dot_fits, dot_spec, in_i64, is_root, lemma_root_exists, lemma_root_unique, lemma_square_bound,
    root, sqr_spec, Vec3,
};

verus! {

/// A sphere with its material: surface colour, emitted light, transparency and reflectivity.
/// `sqr_radius` caches the square of `radius`.
#[derive(Copy, Clone)]
pub struct Sphere<T> where T: Copy {
    pub center: Vec3<T>,
    pub radius: T,
    pub sqr_radius: T,
    pub surface_color: Vec3<T>,
    pub emission: Vec3<T>,
    pub transparency: T,
    pub reflection: T,
}

/// A half-line from `origin` along `direction`, which the caller keeps at unit length.
#[derive(Copy, Clone)]
pub struct Ray<T> where T: Copy {
    pub origin: Vec3<T>,
    pub direction: Vec3<T>,
}

/// The cached squared radius is the square of the radius.
pub open spec fn sphere_wf(s: Sphere<i64>) -> bool {
    s.sqr_radius == s.radius * s.radius
}

/// The vector from the ray's origin to the sphere's center, when it fits an `i64`.
pub open spec fn to_center(s: Sphere<i64>, ray: Ray<i64>) -> Vec3<i64> {
    Vec3 {
        x: (s.center.x - ray.origin.x) as i64,
        y: (s.center.y - ray.origin.y) as i64,
        z: (s.center.z - ray.origin.z) as i64,
    }
}

/// Distance along the ray to the foot of the perpendicular from the center.
pub open spec fn closest_approach(s: Sphere<i64>, ray: Ray<i64>) -> int {
    dot_spec(to_center(s, ray), ray.direction)
}

/// Squared distance from the center to the line of the ray.
pub open spec fn sqr_miss(s: Sphere<i64>, ray: Ray<i64>) -> int {
    let tca = closest_approach(s, ray);
    sqr_spec(to_center(s, ray)) - tca * tca
}

/// Half the length of the chord that the ray cuts through the sphere.
pub open spec fn half_chord(s: Sphere<i64>, ray: Ray<i64>) -> int {
    root(s.sqr_radius - sqr_miss(s, ray))
}

/// The two distances along the ray at which it crosses the sphere, nearest first; none
/// when the center lies behind the origin or the line passes outside the sphere.
pub open spec fn intersect_spec(s: Sphere<i64>, ray: Ray<i64>) -> Option<(int, int)> {
    let tca = closest_approach(s, ray);
    if tca < 0 {
        None
    } else if sqr_miss(s, ray) > s.sqr_radius {
        None
    } else {
        let thc = half_chord(s, ray);
        Some((tca - thc, tca + thc))
    }
}

/// Every intermediate value of the intersection test fits an `i64`.
pub open spec fn intersect_fits(s: Sphere<i64>, ray: Ray<i64>) -> bool {
    let l = to_center(s, ray);
    let tca = closest_approach(s, ray);
    &&& in_i64(s.center.x - ray.origin.x)
    &&& in_i64(s.center.y - ray.origin.y)
    &&& in_i64(s.center.z - ray.origin.z)
    &&& dot_fits(l, ray.direction)
    &&& (tca >= 0 ==> {
        &&& sqr_spec(l) <= i64::MAX
        &&& tca * tca <= i64::MAX
        &&& (sqr_miss(s, ray) <= s.sqr_radius ==> {
            &&& in_i64(s.sqr_radius - sqr_miss(s, ray))
            &&& in_i64(tca + half_chord(s, ray))
        })
    })
}

/// Where the ray meets the sphere ahead of its origin: the near crossing, or the far one
/// when the near one lies behind the origin.
pub open spec fn hit_distance(s: Sphere<i64>, ray: Ray<i64>) -> Option<int> {
    match intersect_spec(s, ray) {
        Some((t0, t1)) => Some(if t0 < 0 { t1 } else { t0 }),
        None => None,
    }
}

/// A miss, or a hit no nearer than `t`.
pub open spec fn not_nearer(d: Option<int>, t: int) -> bool {
    match d {
        Some(v) => v >= t,
        None => true,
    }
}

/// A miss, or a hit strictly farther than `t`.
pub open spec fn farther(d: Option<int>, t: int) -> bool {
    match d {
        Some(v) => v > t,
        None => true,
    }
}

/// Sphere `k` is hit at distance `t`, no sphere is hit nearer, and no sphere before `k` is
/// hit as near.
pub open spec fn is_nearest(spheres: Seq<Sphere<i64>>, ray: Ray<i64>, k: int, t: int) -> bool {
    &&& 0 <= k < spheres.len()
    &&& hit_distance(spheres[k], ray) == Some(t)
    &&& forall|i: int| 0 <= i < spheres.len() ==> not_nearer(#[trigger] hit_distance(spheres[i], ray), t)
    &&& forall|i: int| 0 <= i < k ==> farther(#[trigger] hit_distance(spheres[i], ray), t)
}

/// The first of the nearest spheres that the ray hits, with its distance; none when the ray
/// hits no sphere.
pub fn nearest_hit(ray: &Ray<i64>, spheres: &Vec<Sphere<i64>>) -> (r: Option<(usize, i64)>)
    requires
        forall|i: int| 0 <= i < spheres.len() ==> intersect_fits(#[trigger] spheres[i], *ray),
    ensures
        match r {
            Some((k, t)) => is_nearest(spheres@, *ray, k as int, t as int),
            None => forall|i: int|
                0 <= i < spheres.len() ==> (#[trigger] hit_distance(spheres[i], *ray)) is None,
        },
{
    let mut best: Option<(usize, i64)> = None;
    let mut i: usize = 0;
    while i < spheres.len()
        invariant
            i <= spheres.len(),
            forall|j: int| 0 <= j < spheres.len() ==> intersect_fits(#[trigger] spheres[j], *ray),
            match best {
                Some((k, t)) => {
                    &&& k < i
                    &&& hit_distance(spheres[k as int], *ray) == Some(t as int)
                    &&& forall|j: int|
                        0 <= j < i ==> not_nearer(#[trigger] hit_distance(spheres[j], *ray), t as int)
                    &&& forall|j: int|
                        0 <= j < k ==> farther(#[trigger] hit_distance(spheres[j], *ray), t as int)
                },
                None => forall|j: int|
                    0 <= j < i ==> (#[trigger] hit_distance(spheres[j], *ray)) is None,
            },
        decreases spheres.len() - i,
    {
        if let Some((t0, t1)) = spheres[i].intersect(ray) {
            let d = if t0 < 0 { t1 } else { t0 };
            match best {
                None => {
                    best = Some((i, d));
                },
                Some((_, t)) => {
                    if d < t {
                        best = Some((i, d));
                    }
                },
            }
        }
        i += 1;
    }
    best
}

/// Whether a shadow ray toward the light source `light` is blocked: some sphere other than
/// the light itself crosses it.
pub fn shadow_blocked(ray: &Ray<i64>, spheres: &Vec<Sphere<i64>>, light: usize) -> (r: bool)
    requires
        forall|i: int| 0 <= i < spheres.len() ==> intersect_fits(#[trigger] spheres[i], *ray),
    ensures
        r <==> exists|j: int|
            0 <= j < spheres.len() && j != light && (#[trigger] intersect_spec(spheres[j], *ray)) is Some,
{
    let mut j: usize = 0;
    while j < spheres.len()
        invariant
            j <= spheres.len(),
            forall|i: int| 0 <= i < spheres.len() ==> intersect_fits(#[trigger] spheres[i], *ray),
            forall|i: int| 0 <= i < j && i != light ==> (#[trigger] intersect_spec(spheres[i], *ray)) is None,
        decreases spheres.len() - j,
    {
        if j != light && spheres[j].intersect(ray).is_some() {
            return true;
        }
        j += 1;
    }
    false
}

/// A ray from `(0, 0, 5)` along `(0, 0, -1)` meets a sphere of radius `r` centered at the
/// origin at distances `5 - r` and `5 + r`.
pub proof fn lemma_axis_ray_through_center(s: Sphere<i64>)
    requires
        sphere_wf(s),
        s.radius >= 0,
        s.center.x == 0 && s.center.y == 0 && s.center.z == 0,
    ensures
        ({
            let ray = Ray::<i64> {
                origin: Vec3 { x: 0i64, y: 0i64, z: 5i64 },
                direction: Vec3 { x: 0i64, y: 0i64, z: -1i64 },
            };
            &&& intersect_fits(s, ray)
            &&& intersect_spec(s, ray) == Some((5 - s.radius, 5 + s.radius))
        }),
{
    let ray = Ray::<i64> {
                origin: Vec3 { x: 0i64, y: 0i64, z: 5i64 },
                direction: Vec3 { x: 0i64, y: 0i64, z: -1i64 },
            };
    let r = s.radius as int;
    assert(to_center(s, ray) == Vec3 { x: 0i64, y: 0i64, z: -5i64 });
    assert(closest_approach(s, ray) == 5);
    assert(sqr_miss(s, ray) == 0);
    assert(r * r < (r + 1) * (r + 1)) by (nonlinear_arith)
        requires r >= 0;
    assert(is_root(r, r * r));
    lemma_root_exists(r * r);
    lemma_root_unique(r, root(r * r), r * r);
    lemma_square_bound(r);
}

impl Sphere<i64> {
    /// A sphere with the given geometry and material; the squared radius is computed here.
    pub fn new(
        center: Vec3<i64>,
        radius: i64,
        surface_color: Vec3<i64>,
        emission: Vec3<i64>,
        transparency: i64,
        reflection: i64,
    ) -> (r: Self)
        requires
            radius * radius <= i64::MAX,
        ensures
            sphere_wf(r),
            r.center == center,
            r.radius == radius,
            r.surface_color == surface_color,
            r.emission == emission,
            r.transparency == transparency,
            r.reflection == reflection,
    {
        assert(radius * radius >= 0) by (nonlinear_arith);
        Sphere {
            center,
            radius,
            sqr_radius: radius * radius,
            surface_color,
            emission,
            transparency,
            reflection,
        }
    }

    /// The distances along `ray` at which it enters and leaves the sphere, nearest first.
    /// A sphere whose center projects behind the ray's origin is missed, even when the origin
    /// lies inside it.
    pub fn intersect(&self, ray: &Ray<i64>) -> (r: Option<(i64, i64)>)
        requires
            intersect_fits(*self, *ray),
        ensures
            r matches Some((t0, t1)) ==> intersect_spec(*self, *ray) == Some((t0 as int, t1 as int))
                && t0 <= t1,
            r is None <==> intersect_spec(*self, *ray) is None,
            closest_approach(*self, *ray) < 0 ==> r is None,
    {
        let l = self.center.sub(ray.origin);
        assert(l == to_center(*self, *ray));
        let tca = l.dot_product(ray.direction);
        if tca < 0 {
            return None;
        }
        assert(tca * tca >= 0) by (nonlinear_arith);
        let d2 = l.sqr_magnitude() - tca * tca;
        if d2 > self.sqr_radius {
            return None;
        }
        let thc = crate::vec::floor_sqrt((self.sqr_radius - d2) as u128) as i64;
        assert(thc == half_chord(*self, *ray));
        Some((tca - thc, tca + thc))
    }
}

} // verus!
