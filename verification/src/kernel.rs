use crate::geom::lower;
use crate::geom::upper;
use vstd::prelude::*;

verus! {

/// The band of keys that count as zero: those strictly between `below`, the
/// key of the margin taken negative, and `above`, the key of the margin.
#[derive(Clone, Copy, Debug, PartialEq, Eq, Structural)]
pub struct Margin {
    pub below: i32,
    pub above: i32,
}

impl Margin {
    pub open spec fn spec_near_zero(&self, key: i32) -> bool {
        self.below < key < self.above
    }

    /// Whether a key lies within the margin around zero.
    pub fn near_zero(&self, key: i32) -> (near: bool)
        ensures
            near == self.spec_near_zero(key),
    {
        self.below < key && key < self.above
    }
}

/// One axis of the test of a ray against a box: the ray's direction and
/// origin along the axis, the two faces of the box across it, and the
/// parameters `t1` and `t2` at which the ray meets the faces.
///
/// The parameters count only where the direction is not near zero.
#[derive(Clone, Copy, Debug, PartialEq, Eq, Structural)]
pub struct Slab {
    pub direction: i32,
    pub origin: i32,
    pub min: i32,
    pub max: i32,
    pub t1: i32,
    pub t2: i32,
}

/// The stretch of a ray that the test against a box starts from, and the
/// key of zero: a ray begins just after its origin, at `near`, and ends at
/// `far`.
#[derive(Clone, Copy, Debug, PartialEq, Eq, Structural)]
pub struct Reach {
    pub near: i32,
    pub far: i32,
    pub zero: i32,
}

/// Where the ray has entered all of the first `n` slabs that it runs
/// across, if it ever is in all of them.
pub open spec fn near_after(slabs: Seq<Slab>, margin: Margin, reach: Reach, n: nat) -> i32
    decreases n,
{
    if n == 0 {
        reach.near
    } else {
        let before = near_after(slabs, margin, reach, (n - 1) as nat);
        let slab = slabs[n - 1];
        if margin.spec_near_zero(slab.direction) {
            before
        } else {
            upper(before, lower(slab.t1, slab.t2))
        }
    }
}

/// Where the ray leaves the first of the first `n` slabs that it runs
/// across.
pub open spec fn far_after(slabs: Seq<Slab>, margin: Margin, reach: Reach, n: nat) -> i32
    decreases n,
{
    if n == 0 {
        reach.far
    } else {
        let before = far_after(slabs, margin, reach, (n - 1) as nat);
        let slab = slabs[n - 1];
        if margin.spec_near_zero(slab.direction) {
            before
        } else {
            lower(before, upper(slab.t1, slab.t2))
        }
    }
}

/// The slab with index `i` does not rule a hit out. A ray that runs along
/// the slab has to start between its faces. A ray that runs across it has
/// to be, for some stretch that does not lie behind its origin, in this
/// slab and in all the slabs before that it runs across.
pub open spec fn slab_passes(slabs: Seq<Slab>, margin: Margin, reach: Reach, i: int) -> bool {
    let slab = slabs[i];
    if margin.spec_near_zero(slab.direction) {
        slab.min <= slab.origin <= slab.max
    } else {
        &&& near_after(slabs, margin, reach, (i + 1) as nat) <= far_after(
            slabs,
            margin,
            reach,
            (i + 1) as nat,
        )
        &&& far_after(slabs, margin, reach, (i + 1) as nat) >= reach.zero
    }
}

/// Whether a ray meets a box, by the slab method: every axis passes.
pub open spec fn spec_ray_aabb_intersect(slabs: Seq<Slab>, margin: Margin, reach: Reach) -> bool {
    forall|i: int| 0 <= i < slabs.len() ==> slab_passes(slabs, margin, reach, i)
}

/// Whether a ray meets a box, by the slab method. The three slabs are the
/// three axes; the arithmetic that gives their parameters is the caller's.
pub fn ray_aabb_intersect(slabs: &[Slab; 3], margin: &Margin, reach: &Reach) -> (hit: bool)
    ensures
        hit == spec_ray_aabb_intersect(slabs@, *margin, *reach),
{
    let mut near = reach.near;
    let mut far = reach.far;
    let mut dimension: usize = 0;
    while dimension < 3
        invariant
            dimension <= 3,
            slabs@.len() == 3,
            near == near_after(slabs@, *margin, *reach, dimension as nat),
            far == far_after(slabs@, *margin, *reach, dimension as nat),
            forall|i: int| 0 <= i < dimension ==> slab_passes(slabs@, *margin, *reach, i),
        decreases 3 - dimension,
    {
        let slab = slabs[dimension];
        if margin.near_zero(slab.direction) {
            if slab.origin < slab.min || slab.origin > slab.max {
                assert(!slab_passes(slabs@, *margin, *reach, dimension as int));
                return false;
            }
        } else {
            let mut t1 = slab.t1;
            let mut t2 = slab.t2;
            if t1 > t2 {
                let temp = t1;
                t1 = t2;
                t2 = temp;
            }
            if t1 > near {
                near = t1;
            }
            if t2 < far {
                far = t2;
            }
            if near > far || far < reach.zero {
                assert(!slab_passes(slabs@, *margin, *reach, dimension as int));
                return false;
            }
        }
        dimension += 1;
    }
    true
}

/// A ray that meets a box stays, over one stretch that does not lie behind
/// its origin, within every slab that it runs across, and starts within
/// every slab that it runs along. And where the reach a ray starts with is
/// not empty, such a ray meets the box.
pub proof fn lemma_slabs_share_a_stretch(slabs: Seq<Slab>, margin: Margin, reach: Reach)
    requires
        reach.near <= reach.far,
        reach.zero <= reach.far,
    ensures
        spec_ray_aabb_intersect(slabs, margin, reach) <==> {
            &&& forall|i: int|
                0 <= i < slabs.len() && margin.spec_near_zero((#[trigger] slabs[i]).direction)
                    ==> slabs[i].min <= slabs[i].origin <= slabs[i].max
            &&& near_after(slabs, margin, reach, slabs.len()) <= far_after(
                slabs,
                margin,
                reach,
                slabs.len(),
            )
            &&& far_after(slabs, margin, reach, slabs.len()) >= reach.zero
        },
{
    let n = slabs.len();
    lemma_stretch_narrows(slabs, margin, reach, n, n);
    if spec_ray_aabb_intersect(slabs, margin, reach) {
        assert forall|i: int|
            0 <= i < slabs.len() && margin.spec_near_zero((#[trigger] slabs[i]).direction) implies slabs[i].min
            <= slabs[i].origin <= slabs[i].max by {
            assert(slab_passes(slabs, margin, reach, i));
        }
        lemma_last_crossing(slabs, margin, reach, n);
    }
    if (forall|i: int|
        0 <= i < slabs.len() && margin.spec_near_zero((#[trigger] slabs[i]).direction)
            ==> slabs[i].min <= slabs[i].origin <= slabs[i].max) && near_after(
        slabs,
        margin,
        reach,
        n,
    ) <= far_after(slabs, margin, reach, n) && far_after(slabs, margin, reach, n) >= reach.zero {
        assert forall|i: int| 0 <= i < slabs.len() implies slab_passes(slabs, margin, reach, i) by {
            lemma_stretch_narrows(slabs, margin, reach, (i + 1) as nat, n);
        }
    }
}

/// With every further slab the stretch can only shrink.
proof fn lemma_stretch_narrows(slabs: Seq<Slab>, margin: Margin, reach: Reach, m: nat, n: nat)
    requires
        m <= n,
    ensures
        near_after(slabs, margin, reach, m) <= near_after(slabs, margin, reach, n),
        far_after(slabs, margin, reach, n) <= far_after(slabs, margin, reach, m),
    decreases n,
{
    if m < n {
        lemma_stretch_narrows(slabs, margin, reach, m, (n - 1) as nat);
    }
}

/// The stretch after `n` slabs is the one the ray starts with, or the one
/// that some slab the ray runs across has left.
proof fn lemma_last_crossing(slabs: Seq<Slab>, margin: Margin, reach: Reach, n: nat)
    requires
        n <= slabs.len(),
        reach.near <= reach.far,
        reach.zero <= reach.far,
        forall|i: int| 0 <= i < n ==> slab_passes(slabs, margin, reach, i),
    ensures
        near_after(slabs, margin, reach, n) <= far_after(slabs, margin, reach, n),
        far_after(slabs, margin, reach, n) >= reach.zero,
    decreases n,
{
    if n > 0 {
        if margin.spec_near_zero(slabs[n - 1].direction) {
            lemma_last_crossing(slabs, margin, reach, (n - 1) as nat);
        } else {
            assert(slab_passes(slabs, margin, reach, n - 1));
        }
    }
}

/// What the test of a ray against a triangle has worked out: the
/// determinant, the two barycentric coordinates of the point where the ray
/// meets the triangle's plane, their sum, and the distance to that point.
#[derive(Clone, Copy, Debug, PartialEq, Eq, Structural)]
pub struct TriangleTest {
    pub determinant: i32,
    pub u: i32,
    pub v: i32,
    pub u_plus_v: i32,
    pub distance: i32,
}

/// Whether a ray hits a triangle. It does not when the ray runs in the
/// plane of the triangle, the determinant being near zero; either side of
/// the triangle is hit. The point has to lie within the triangle, and
/// farther ahead of the ray's origin than the margin.
pub open spec fn spec_triangle_hit(test: TriangleTest, margin: Margin, zero: i32, one: i32) -> bool {
    &&& !margin.spec_near_zero(test.determinant)
    &&& zero <= test.u <= one
    &&& zero <= test.v
    &&& test.u_plus_v <= one
    &&& test.distance > margin.above
}

/// The hit of a ray on a triangle: the distance and the two barycentric
/// coordinates, or nothing where the ray misses. The arithmetic that gives
/// the numbers is the caller's.
pub fn ray_triangle_intersect(test: &TriangleTest, margin: &Margin, zero: i32, one: i32) -> (hit:
    Option<(i32, i32, i32)>)
    ensures
        hit == if spec_triangle_hit(*test, *margin, zero, one) {
            Some((test.distance, test.u, test.v))
        } else {
            None
        },
{
    if margin.near_zero(test.determinant) {
        return None;
    }
    if test.u < zero || test.u > one {
        return None;
    }
    if test.v < zero || test.u_plus_v > one {
        return None;
    }
    if test.distance > margin.above {
        return Some((test.distance, test.u, test.v));
    }
    None
}

/// The distance at which a ray hits a sphere, of the two at which its line
/// passes through the surface: the smaller that is not negative. A ray that
/// starts inside the sphere hits it at the larger; a sphere behind the ray
/// is missed, as is one that the line passes by, its distance from the
/// centre, squared, being more than the radius squared.
pub open spec fn spec_ray_sphere(
    squared_distance: i32,
    squared_radius: i32,
    t0: i32,
    t1: i32,
    zero: i32,
) -> Option<i32> {
    if squared_distance > squared_radius {
        None
    } else if lower(t0, t1) >= zero {
        Some(lower(t0, t1))
    } else if upper(t0, t1) >= zero {
        Some(upper(t0, t1))
    } else {
        None
    }
}

/// The distance at which a ray hits a sphere, or nothing where it misses.
/// The arithmetic that gives the numbers is the caller's.
pub fn ray_sphere(squared_distance: i32, squared_radius: i32, t0: i32, t1: i32, zero: i32) -> (hit:
    Option<i32>)
    ensures
        hit == spec_ray_sphere(squared_distance, squared_radius, t0, t1, zero),
{
    if squared_distance > squared_radius {
        return None;
    }
    let mut t0 = t0;
    let mut t1 = t1;
    if t0 > t1 {
        let temp = t0;
        t0 = t1;
        t1 = temp;
    }
    if t0 < zero {
        t0 = t1;
        if t0 < zero {
            return None;
        }
    }
    Some(t0)
}

/// The distance at which a ray hits a plane: nothing where the ray runs
/// along the plane, the denominator being near zero, or where the plane
/// lies behind the ray.
pub open spec fn spec_ray_plane(denominator: i32, t: i32, margin: Margin, zero: i32) -> Option<i32> {
    if margin.spec_near_zero(denominator) || t < zero {
        None
    } else {
        Some(t)
    }
}

/// The distance at which a ray hits a plane, or nothing where it misses.
/// The arithmetic that gives the numbers is the caller's.
pub fn ray_plane(denominator: i32, t: i32, margin: &Margin, zero: i32) -> (hit: Option<i32>)
    ensures
        hit == spec_ray_plane(denominator, t, *margin, zero),
{
    if margin.near_zero(denominator) {
        return None;
    }
    if t < zero {
        return None;
    }
    Some(t)
}

} // verus!
