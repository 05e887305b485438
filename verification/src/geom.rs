use vstd::prelude::*;

verus! {

/// A point in space, each coordinate given by its key.
///
/// A key is an integer that stands for a number. The library never computes
/// with the numbers themselves, it only compares them, so any way of giving
/// keys to numbers will do that keeps their order.
#[derive(Clone, Copy, Debug, PartialEq, Eq, Structural)]
pub struct Point3 {
    pub x: i32,
    pub y: i32,
    pub z: i32,
}

/// An axis-aligned bounding box, given by its two extreme corners.
#[derive(Clone, Copy, Debug, PartialEq, Eq, Structural)]
pub struct AABB {
    pub min: Point3,
    pub max: Point3,
}

/// The smaller of two keys.
pub open spec fn lower(a: i32, b: i32) -> i32 {
    if a <= b {
        a
    } else {
        b
    }
}

/// The larger of two keys.
pub open spec fn upper(a: i32, b: i32) -> i32 {
    if a >= b {
        a
    } else {
        b
    }
}

/// The key halfway between `lo` and `hi`, rounded towards `lo`.
pub open spec fn midway(lo: i32, hi: i32) -> int {
    lo + (hi - lo) / 2
}

fn min_key(a: i32, b: i32) -> (m: i32)
    ensures
        m == lower(a, b),
{
    if a <= b {
        a
    } else {
        b
    }
}

fn max_key(a: i32, b: i32) -> (m: i32)
    ensures
        m == upper(a, b),
{
    if a >= b {
        a
    } else {
        b
    }
}

fn mid_key(lo: i32, hi: i32) -> (m: i32)
    requires
        lo <= hi,
    ensures
        m == midway(lo, hi),
        lo <= m <= hi,
{
    let span: i64 = hi as i64 - lo as i64;
    let half: i64 = span / 2;
    (lo as i64 + half) as i32
}

impl AABB {
    /// The box is not inside out: on every axis `min` does not exceed `max`.
    pub open spec fn wf(&self) -> bool {
        &&& self.min.x <= self.max.x
        &&& self.min.y <= self.max.y
        &&& self.min.z <= self.max.z
    }

    /// The point lies in the box, faces included.
    pub open spec fn holds(&self, p: Point3) -> bool {
        &&& self.min.x <= p.x <= self.max.x
        &&& self.min.y <= p.y <= self.max.y
        &&& self.min.z <= p.z <= self.max.z
    }

    /// The point lies in the box, the three upper faces excluded.
    pub open spec fn spec_contains(&self, p: Point3) -> bool {
        &&& self.min.x <= p.x < self.max.x
        &&& self.min.y <= p.y < self.max.y
        &&& self.min.z <= p.z < self.max.z
    }

    /// The two boxes overlap or touch on every axis.
    pub open spec fn spec_intersects(&self, other: AABB) -> bool {
        &&& self.max.x >= other.min.x && self.min.x <= other.max.x
        &&& self.max.y >= other.min.y && self.min.y <= other.max.y
        &&& self.max.z >= other.min.z && self.min.z <= other.max.z
    }

    /// Every point of `other` lies in this box.
    pub open spec fn encloses(&self, other: AABB) -> bool {
        &&& self.min.x <= other.min.x && other.max.x <= self.max.x
        &&& self.min.y <= other.min.y && other.max.y <= self.max.y
        &&& self.min.z <= other.min.z && other.max.z <= self.max.z
    }

    /// The smallest box around both boxes.
    pub open spec fn union(&self, other: AABB) -> AABB {
        AABB {
            min: Point3 {
                x: lower(self.min.x, other.min.x),
                y: lower(self.min.y, other.min.y),
                z: lower(self.min.z, other.min.z),
            },
            max: Point3 {
                x: upper(self.max.x, other.max.x),
                y: upper(self.max.y, other.max.y),
                z: upper(self.max.z, other.max.z),
            },
        }
    }

    /// The smallest box around the first `n` boxes of a non-empty list.
    pub open spec fn union_of(boxes: Seq<AABB>, n: nat) -> AABB
        decreases n,
    {
        if n <= 1 {
            boxes[0]
        } else {
            Self::union_of(boxes, (n - 1) as nat).union(boxes[n - 1])
        }
    }

    /// The box that holds exactly one point.
    pub open spec fn at(p: Point3) -> AABB {
        AABB { min: p, max: p }
    }

    /// The smallest box around the first `n` points of a non-empty list.
    pub open spec fn hull_of(points: Seq<Point3>, n: nat) -> AABB
        decreases n,
    {
        if n <= 1 {
            Self::at(points[0])
        } else {
            Self::hull_of(points, (n - 1) as nat).union(Self::at(points[n - 1]))
        }
    }

    /// The point in the middle of the box, by keys: on each axis the key
    /// halfway between the two faces.
    pub open spec fn spec_center(&self) -> Point3 {
        Point3 {
            x: midway(self.min.x, self.max.x) as i32,
            y: midway(self.min.y, self.max.y) as i32,
            z: midway(self.min.z, self.max.z) as i32,
        }
    }

    /// The point of the box that lies nearest to `p`: `p` itself where the
    /// box holds it.
    pub open spec fn spec_clamp(&self, p: Point3) -> Point3 {
        Point3 {
            x: upper(self.min.x, lower(p.x, self.max.x)),
            y: upper(self.min.y, lower(p.y, self.max.y)),
            z: upper(self.min.z, lower(p.z, self.max.z)),
        }
    }

    /// One of the eight boxes that the three planes through the point `cut`
    /// cut this box into. Bit 0 of `index` picks the upper part along x, bit
    /// 1 along y, bit 2 along z. Neighbouring octants share the cutting
    /// plane.
    pub open spec fn spec_octant_at(&self, cut: Point3, index: int) -> AABB {
        let high_x = index % 2 == 1;
        let high_y = (index / 2) % 2 == 1;
        let high_z = (index / 4) % 2 == 1;
        AABB {
            min: Point3 {
                x: if high_x {
                    cut.x
                } else {
                    self.min.x
                },
                y: if high_y {
                    cut.y
                } else {
                    self.min.y
                },
                z: if high_z {
                    cut.z
                } else {
                    self.min.z
                },
            },
            max: Point3 {
                x: if high_x {
                    self.max.x
                } else {
                    cut.x
                },
                y: if high_y {
                    self.max.y
                } else {
                    cut.y
                },
                z: if high_z {
                    self.max.z
                } else {
                    cut.z
                },
            },
        }
    }

    /// One of the eight boxes that the planes through the middle of this box
    /// cut it into.
    pub open spec fn spec_octant(&self, index: int) -> AABB {
        self.spec_octant_at(self.spec_center(), index)
    }

    /// The smallest box around a set of boxes, which must not be empty.
    pub fn from_bounds(bounds: &Vec<AABB>) -> (hull: AABB)
        requires
            bounds@.len() > 0,
        ensures
            hull == Self::union_of(bounds@, bounds@.len()),
    {
        let mut result = bounds[0];
        let mut i: usize = 1;
        while i < bounds.len()
            invariant
                1 <= i <= bounds@.len(),
                result == Self::union_of(bounds@, i as nat),
            decreases bounds@.len() - i,
        {
            result.expand(&bounds[i]);
            i += 1;
        }
        result
    }

    /// Whether the two boxes have a point in common.
    pub fn intersects_bounds(&self, other: &AABB) -> (hit: bool)
        ensures
            hit == self.spec_intersects(*other),
    {
        if self.max.x < other.min.x || self.min.x > other.max.x {
            return false;
        }
        if self.max.y < other.min.y || self.min.y > other.max.y {
            return false;
        }
        if self.max.z < other.min.z || self.min.z > other.max.z {
            return false;
        }
        true
    }

    /// Whether the point lies in the box, the three upper faces excluded.
    pub fn contains(&self, point: &Point3) -> (inside: bool)
        ensures
            inside == self.spec_contains(*point),
    {
        point.x >= self.min.x && point.x < self.max.x && point.y >= self.min.y && point.y
            < self.max.y && point.z >= self.min.z && point.z < self.max.z
    }

    /// The smallest box around both boxes.
    pub fn combine(first: &AABB, second: &AABB) -> (hull: AABB)
        ensures
            hull == first.union(*second),
    {
        let mut result = *first;
        result.expand(second);
        result
    }

    /// Grows this box until it also holds `other`.
    pub fn expand(&mut self, other: &AABB)
        ensures
            *final(self) == old(self).union(*other),
    {
        self.min.x = min_key(self.min.x, other.min.x);
        self.min.y = min_key(self.min.y, other.min.y);
        self.min.z = min_key(self.min.z, other.min.z);
        self.max.x = max_key(self.max.x, other.max.x);
        self.max.y = max_key(self.max.y, other.max.y);
        self.max.z = max_key(self.max.z, other.max.z);
    }

    /// The smallest box around a set of points, which must not be empty.
    pub fn from_vector3(vertices: &Vec<Point3>) -> (hull: AABB)
        requires
            vertices@.len() > 0,
        ensures
            hull == Self::hull_of(vertices@, vertices@.len()),
    {
        let first = vertices[0];
        let mut smallest = first;
        let mut largest = first;
        let mut i: usize = 1;
        while i < vertices.len()
            invariant
                1 <= i <= vertices@.len(),
                (AABB { min: smallest, max: largest }) == Self::hull_of(vertices@, i as nat),
            decreases vertices@.len() - i,
        {
            let vertex = vertices[i];
            if vertex.x < smallest.x {
                smallest.x = vertex.x;
            }
            if vertex.x > largest.x {
                largest.x = vertex.x;
            }
            if vertex.y < smallest.y {
                smallest.y = vertex.y;
            }
            if vertex.y > largest.y {
                largest.y = vertex.y;
            }
            if vertex.z < smallest.z {
                smallest.z = vertex.z;
            }
            if vertex.z > largest.z {
                largest.z = vertex.z;
            }
            i += 1;
        }
        AABB { min: smallest, max: largest }
    }

    /// The point in the middle of the box, by keys.
    pub fn center(&self) -> (middle: Point3)
        requires
            self.wf(),
        ensures
            middle == self.spec_center(),
            self.holds(middle),
    {
        Point3 {
            x: mid_key(self.min.x, self.max.x),
            y: mid_key(self.min.y, self.max.y),
            z: mid_key(self.min.z, self.max.z),
        }
    }

    /// The point of the box that lies nearest to `p`.
    pub fn clamp(&self, p: &Point3) -> (nearest: Point3)
        requires
            self.wf(),
        ensures
            nearest == self.spec_clamp(*p),
            self.holds(nearest),
            self.holds(*p) ==> nearest == *p,
    {
        Point3 {
            x: max_key(self.min.x, min_key(p.x, self.max.x)),
            y: max_key(self.min.y, min_key(p.y, self.max.y)),
            z: max_key(self.min.z, min_key(p.z, self.max.z)),
        }
    }

    /// The octant with the given index, from 0 to 7, of this box cut at a
    /// point that it holds.
    pub fn octant_at(&self, cut: &Point3, index: usize) -> (part: AABB)
        requires
            self.holds(*cut),
            index < 8,
        ensures
            part == self.spec_octant_at(*cut, index as int),
            part.wf(),
            self.encloses(part),
    {
        let high_x = index % 2 == 1;
        let high_y = (index / 2) % 2 == 1;
        let high_z = (index / 4) % 2 == 1;
        AABB {
            min: Point3 {
                x: if high_x {
                    cut.x
                } else {
                    self.min.x
                },
                y: if high_y {
                    cut.y
                } else {
                    self.min.y
                },
                z: if high_z {
                    cut.z
                } else {
                    self.min.z
                },
            },
            max: Point3 {
                x: if high_x {
                    self.max.x
                } else {
                    cut.x
                },
                y: if high_y {
                    self.max.y
                } else {
                    cut.y
                },
                z: if high_z {
                    self.max.z
                } else {
                    cut.z
                },
            },
        }
    }

    /// The octant with the given index, from 0 to 7, of this box cut in the
    /// middle.
    pub fn octant(&self, index: usize) -> (part: AABB)
        requires
            self.wf(),
            index < 8,
        ensures
            part == self.spec_octant(index as int),
            part.wf(),
            self.encloses(part),
    {
        let middle = self.center();
        self.octant_at(&middle, index)
    }
}

/// The hull of a non-empty list of points is the tightest box around them:
/// it holds every point, and each of its six faces passes through one.
pub proof fn lemma_hull_is_tight(points: Seq<Point3>, n: nat)
    requires
        0 < n <= points.len(),
    ensures
        AABB::hull_of(points, n).wf(),
        forall|i: int| 0 <= i < n ==> AABB::hull_of(points, n).holds(#[trigger] points[i]),
        exists|i: int| 0 <= i < n && (#[trigger] points[i]).x == AABB::hull_of(points, n).min.x,
        exists|i: int| 0 <= i < n && (#[trigger] points[i]).y == AABB::hull_of(points, n).min.y,
        exists|i: int| 0 <= i < n && (#[trigger] points[i]).z == AABB::hull_of(points, n).min.z,
        exists|i: int| 0 <= i < n && (#[trigger] points[i]).x == AABB::hull_of(points, n).max.x,
        exists|i: int| 0 <= i < n && (#[trigger] points[i]).y == AABB::hull_of(points, n).max.y,
        exists|i: int| 0 <= i < n && (#[trigger] points[i]).z == AABB::hull_of(points, n).max.z,
    decreases n,
{
    let hull = AABB::hull_of(points, n);
    if n == 1 {
        assert(points[0].x == hull.min.x);
    } else {
        let m = (n - 1) as nat;
        lemma_hull_is_tight(points, m);
        let inner = AABB::hull_of(points, m);
        let last = points[n - 1];
        let ix0 = choose|i: int| 0 <= i < m && (#[trigger] points[i]).x == inner.min.x;
        let iy0 = choose|i: int| 0 <= i < m && (#[trigger] points[i]).y == inner.min.y;
        let iz0 = choose|i: int| 0 <= i < m && (#[trigger] points[i]).z == inner.min.z;
        let ix1 = choose|i: int| 0 <= i < m && (#[trigger] points[i]).x == inner.max.x;
        let iy1 = choose|i: int| 0 <= i < m && (#[trigger] points[i]).y == inner.max.y;
        let iz1 = choose|i: int| 0 <= i < m && (#[trigger] points[i]).z == inner.max.z;
        let jx0 = if last.x < inner.min.x { n - 1 } else { ix0 };
        let jy0 = if last.y < inner.min.y { n - 1 } else { iy0 };
        let jz0 = if last.z < inner.min.z { n - 1 } else { iz0 };
        let jx1 = if last.x > inner.max.x { n - 1 } else { ix1 };
        let jy1 = if last.y > inner.max.y { n - 1 } else { iy1 };
        let jz1 = if last.z > inner.max.z { n - 1 } else { iz1 };
        assert(points[jx0].x == hull.min.x);
        assert(points[jy0].y == hull.min.y);
        assert(points[jz0].z == hull.min.z);
        assert(points[jx1].x == hull.max.x);
        assert(points[jy1].y == hull.max.y);
        assert(points[jz1].z == hull.max.z);
        assert forall|i: int| 0 <= i < n implies hull.holds(#[trigger] points[i]) by {
            if i < m {
                assert(inner.holds(points[i]));
            }
        }
    }
}

/// The union of a non-empty list of boxes encloses each of them, and is
/// itself a proper box when they are.
pub proof fn lemma_union_encloses(boxes: Seq<AABB>, n: nat)
    requires
        0 < n <= boxes.len(),
        forall|i: int| 0 <= i < n ==> (#[trigger] boxes[i]).wf(),
    ensures
        AABB::union_of(boxes, n).wf(),
        forall|i: int| 0 <= i < n ==> AABB::union_of(boxes, n).encloses(#[trigger] boxes[i]),
    decreases n,
{
    if n > 1 {
        let m = (n - 1) as nat;
        lemma_union_encloses(boxes, m);
        let inner = AABB::union_of(boxes, m);
        assert(boxes[n - 1].wf());
        assert forall|i: int| 0 <= i < n implies AABB::union_of(boxes, n).encloses(
            #[trigger] boxes[i],
        ) by {
            if i < m {
                assert(inner.encloses(boxes[i]));
            }
        }
    } else {
        assert(boxes[0].wf());
    }
}

/// Two proper boxes intersect exactly when some point lies in both.
pub proof fn lemma_intersects_iff_common_point(a: AABB, b: AABB)
    requires
        a.wf(),
        b.wf(),
    ensures
        a.spec_intersects(b) <==> exists|p: Point3| a.holds(p) && b.holds(p),
{
    if a.spec_intersects(b) {
        let p = Point3 {
            x: upper(a.min.x, b.min.x),
            y: upper(a.min.y, b.min.y),
            z: upper(a.min.z, b.min.z),
        };
        assert(a.holds(p) && b.holds(p));
    }
}

/// The eight octants of a box, cut at a point that it holds, leave no point
/// of it out.
pub proof fn lemma_octants_cover(whole: AABB, cut: Point3, p: Point3)
    requires
        whole.holds(cut),
        whole.holds(p),
    ensures
        exists|k: int| 0 <= k < 8 && (#[trigger] whole.spec_octant_at(cut, k)).holds(p),
{
    let bx: int = if p.x > cut.x { 1 } else { 0 };
    let by: int = if p.y > cut.y { 1 } else { 0 };
    let bz: int = if p.z > cut.z { 1 } else { 0 };
    let k = bx + 2 * by + 4 * bz;
    assert(whole.spec_octant_at(cut, k).holds(p));
}

} // verus!
