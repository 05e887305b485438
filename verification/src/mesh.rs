use crate::geom::Point3;
use crate::geom::AABB;
use crate::octree::proper_boxes;
use crate::octree::Octree;
use crate::scene::given_by;
use crate::scene::computes;
use crate::scene::is_nearest;
use crate::scene::EntityType;
use crate::scene::Intersection;
use crate::scene::SceneEntity;
use vstd::prelude::*;

verus! {

/// A node of a mesh's tree is cut once it holds this many triangles.
pub const VERTEX_THRESHOLD: usize = 500;

/// No node of a mesh's tree lies more cuts than this below the root.
pub const MESH_DEPTH_LIMIT: usize = 5;

/// The point where a ray meets a mesh.
pub struct MeshIntersection<P> {
    /// The position of the triangle that was hit in the mesh's list.
    pub triangle: usize,
    /// The corners of that triangle, as positions in the mesh's list of
    /// coordinates.
    pub indices: (u32, u32, u32),
    pub distance: u64,
    pub material_index: usize,
    /// What the caller's triangle test found at the hit.
    pub detail: P,
}

/// A triangle mesh with a spatial index over its triangles.
pub struct OctreeMesh {
    tree: Octree,
    bounds: AABB,
    coordinates: Vec<Point3>,
    indices: Vec<(u32, u32, u32)>,
    material_index: usize,
    name: String,
}

/// Every corner of every triangle is a position in the list of coordinates.
pub open spec fn indices_in_range(indices: Seq<(u32, u32, u32)>, count: nat) -> bool {
    forall|i: int|
        0 <= i < indices.len() ==> (#[trigger] indices[i]).0 < count && indices[i].1 < count
            && indices[i].2 < count
}

/// The smallest box around a triangle.
pub open spec fn triangle_box(coordinates: Seq<Point3>, corners: (u32, u32, u32)) -> AABB {
    AABB::at(coordinates[corners.0 as int]).union(AABB::at(coordinates[corners.1 as int])).union(
        AABB::at(coordinates[corners.2 as int]),
    )
}

/// What the mesh's index knows of the triangle at position `i`.
pub open spec fn triangle_record(
    coordinates: Seq<Point3>,
    indices: Seq<(u32, u32, u32)>,
    i: int,
) -> SceneEntity {
    SceneEntity {
        id: i as u32,
        kind: EntityType::Triangle,
        bounds: Some(triangle_box(coordinates, indices[i])),
        emissive: false,
    }
}

/// The hit of the mesh's index that a hit of the mesh stands for.
pub open spec fn index_hit<P>(found: Option<MeshIntersection<P>>) -> Option<Intersection<P>> {
    match found {
        Some(hit) => Some(
            Intersection { entity: hit.triangle, distance: hit.distance, detail: hit.detail },
        ),
        None => None,
    }
}

impl OctreeMesh {
    /// The index lists the triangles of the mesh, each with the smallest box
    /// around it, and the mesh's own box is the smallest around all its
    /// coordinates.
    #[verifier::type_invariant]
    pub closed spec fn wf(&self) -> bool {
        &&& self.tree.wf()
        &&& self.coordinates@.len() > 0
        &&& self.indices@.len() <= u32::MAX
        &&& indices_in_range(self.indices@, self.coordinates@.len())
        &&& self.bounds == AABB::hull_of(self.coordinates@, self.coordinates@.len())
        &&& self.tree.entities().len() == self.indices@.len()
        &&& forall|i: int|
            0 <= i < self.indices@.len() ==> #[trigger] self.tree.entities()[i] == triangle_record(
                self.coordinates@,
                self.indices@,
                i,
            )
        &&& self.tree.spec_depth_limit() == MESH_DEPTH_LIMIT
        &&& self.tree.spec_threshold() == VERTEX_THRESHOLD - 1
    }

    /// The index over the triangles, each listed as an entity at the
    /// triangle's position.
    pub closed spec fn index(&self) -> Octree {
        self.tree
    }

    pub closed spec fn spec_coordinates(&self) -> Seq<Point3> {
        self.coordinates@
    }

    /// The triangles, each as the positions of its three corners.
    pub closed spec fn spec_indices(&self) -> Seq<(u32, u32, u32)> {
        self.indices@
    }

    pub closed spec fn spec_material_index(&self) -> usize {
        self.material_index
    }

    pub closed spec fn spec_name(&self) -> Seq<char> {
        self.name@
    }

    pub closed spec fn spec_bounds(&self) -> AABB {
        self.bounds
    }

    /// A mesh of the given triangles, with its index built. The nodes of
    /// the index are cut in the middle of their box, by keys.
    pub fn new(
        name: String,
        coordinates: Vec<Point3>,
        indices: Vec<(u32, u32, u32)>,
        material_index: usize,
    ) -> (mesh: OctreeMesh)
        requires
            coordinates@.len() > 0,
            indices@.len() <= u32::MAX,
            indices_in_range(indices@, coordinates@.len()),
        ensures
            mesh.wf(),
            mesh.spec_name() == name@,
            mesh.spec_coordinates() == coordinates@,
            mesh.spec_indices() == indices@,
            mesh.spec_material_index() == material_index,
            mesh.spec_bounds() == AABB::hull_of(coordinates@, coordinates@.len()),
            mesh.index().cut_in_the_middle(),
    {
        let middle = |b: AABB| -> (c: Point3)
            requires
                b.wf(),
            ensures
                c == b.spec_center(),
        {
            b.center()
        };
        let mesh = Self::new_with(name, coordinates, indices, material_index, middle);
        proof {
            let halved = |b: AABB| b.spec_center();
            assert(computes(middle, halved));
            assert(mesh.index().cut_where(halved));
            use_type_invariant(&mesh);
            assert forall|o: int|
                0 <= o < mesh.index().octant_count() && (#[trigger] mesh.index().octant_children(
                    o,
                )).len() > 0 implies mesh.index().octant_cut(o) == mesh.index().octant_bounds(
                o,
            ).spec_center() by {
                crate::octree::lemma_octant_shape(mesh.index(), o);
            }
        }
        mesh
    }

    /// A mesh of the given triangles, with its index built. `halve` says
    /// where the box of a node of the index is to be cut.
    pub fn new_with<F: Fn(AABB) -> Point3>(
        name: String,
        coordinates: Vec<Point3>,
        indices: Vec<(u32, u32, u32)>,
        material_index: usize,
        halve: F,
    ) -> (mesh: OctreeMesh)
        requires
            coordinates@.len() > 0,
            indices@.len() <= u32::MAX,
            indices_in_range(indices@, coordinates@.len()),
            forall|b: AABB| b.wf() ==> halve.requires((b,)),
        ensures
            mesh.wf(),
            mesh.spec_name() == name@,
            mesh.spec_coordinates() == coordinates@,
            mesh.spec_indices() == indices@,
            mesh.spec_material_index() == material_index,
            mesh.spec_bounds() == AABB::hull_of(coordinates@, coordinates@.len()),
            forall|halved: spec_fn(AABB) -> Point3| #[trigger]
                computes(halve, halved) ==> mesh.index().cut_where(halved),
    {
        let bounds = AABB::from_vector3(&coordinates);
        let mut records: Vec<SceneEntity> = Vec::new();
        let mut i: usize = 0;
        while i < indices.len()
            invariant
                i <= indices@.len(),
                indices@.len() <= u32::MAX,
                indices_in_range(indices@, coordinates@.len()),
                records@.len() == i,
                proper_boxes(records@),
                forall|j: int|
                    0 <= j < i ==> #[trigger] records@[j] == triangle_record(
                        coordinates@,
                        indices@,
                        j,
                    ),
            decreases indices@.len() - i,
        {
            let corners = indices[i];
            let first = coordinates[corners.0 as usize];
            let mut around = AABB { min: first, max: first };
            let second = coordinates[corners.1 as usize];
            around.expand(&AABB { min: second, max: second });
            let third = coordinates[corners.2 as usize];
            around.expand(&AABB { min: third, max: third });
            let ghost before = records@;
            records.push(
                SceneEntity {
                    id: i as u32,
                    kind: EntityType::Triangle,
                    bounds: Some(around),
                    emissive: false,
                },
            );
            proof {
                assert(around.wf());
                assert forall|j: int| 0 <= j < records@.len() implies (
                #[trigger] records@[j].bounds matches Some(b) ==> b.wf()) by {
                    if j < i {
                        assert(records@[j] == before[j]);
                    }
                }
            }
            i += 1;
        }
        let tree = Octree::create_with(records, MESH_DEPTH_LIMIT, VERTEX_THRESHOLD - 1, halve);
        OctreeMesh { tree, bounds, coordinates, indices, material_index, name }
    }

    pub fn name(&self) -> (name: &String)
        ensures
            name@ == self.spec_name(),
    {
        &self.name
    }

    pub fn material_index(&self) -> (index: usize)
        ensures
            index == self.spec_material_index(),
    {
        self.material_index
    }

    /// The smallest box around the coordinates of the mesh.
    pub fn bounds(&self) -> (bounds: &AABB)
        ensures
            *bounds == self.spec_bounds(),
    {
        &self.bounds
    }

    /// The number of nodes of the mesh's tree.
    pub fn octants(&self) -> (count: usize)
        ensures
            count == self.index().octant_count(),
    {
        self.tree.octants()
    }

    /// The number of triangles.
    pub fn len(&self) -> (count: usize)
        ensures
            count == self.spec_indices().len(),
    {
        self.indices.len()
    }

    /// The three corners of the triangle at a position of the mesh's list.
    pub fn triangle(&self, position: usize) -> (corners: (Point3, Point3, Point3))
        requires
            position < self.spec_indices().len(),
        ensures
            ({
                let at = self.spec_indices()[position as int];
                &&& at.0 < self.spec_coordinates().len()
                &&& at.1 < self.spec_coordinates().len()
                &&& at.2 < self.spec_coordinates().len()
                &&& corners.0 == self.spec_coordinates()[at.0 as int]
                &&& corners.1 == self.spec_coordinates()[at.1 as int]
                &&& corners.2 == self.spec_coordinates()[at.2 as int]
            }),
    {
        proof {
            use_type_invariant(self);
        }
        let at = self.indices[position];
        (
            self.coordinates[at.0 as usize],
            self.coordinates[at.1 as usize],
            self.coordinates[at.2 as usize],
        )
    }

    /// The nearest hit of a ray among the triangles of the mesh that the
    /// index tests. `crosses` is the ray's box test, `hit` its test of the
    /// triangle at a position of the mesh's list.
    pub fn intersects<P, B: Fn(AABB) -> bool, H: Fn(usize) -> Option<(u64, P)>>(
        &self,
        crosses: B,
        hit: H,
    ) -> (best: Option<MeshIntersection<P>>)
        requires
            forall|b: AABB| crosses.requires((b,)),
            forall|t: usize| t < self.spec_indices().len() ==> hit.requires((t,)),
        ensures
            given_by(index_hit(best), hit, self.spec_indices().len()),
            forall|crossed: spec_fn(AABB) -> bool, found: spec_fn(usize) -> Option<(u64, P)>|
                #![trigger computes(crosses, crossed), computes(hit, found)]
                computes(crosses, crossed) && computes(hit, found) ==> is_nearest(
                    index_hit(best),
                    |t: usize| self.index().tested(crossed, t),
                    found,
                ),
            best matches Some(nearest) ==> {
                &&& nearest.triangle < self.spec_indices().len()
                &&& nearest.indices == self.spec_indices()[nearest.triangle as int]
                &&& nearest.material_index == self.spec_material_index()
            },
    {
        proof {
            use_type_invariant(self);
        }
        let found = self.tree.find_intersection(crosses, hit);
        match found {
            Some(nearest) => Some(
                MeshIntersection {
                    triangle: nearest.entity,
                    indices: self.indices[nearest.entity],
                    distance: nearest.distance,
                    material_index: self.material_index,
                    detail: nearest.detail,
                },
            ),
            None => None,
        }
    }
}

/// The index of a mesh is a sound tree over its triangles: it lists each
/// triangle as an entity at the triangle's position, with the smallest box
/// around the triangle, and cuts a node once it holds 500 triangles, down to
/// five cuts below the root. What holds of every tree holds of it.
pub proof fn lemma_mesh_index(mesh: OctreeMesh)
    requires
        mesh.wf(),
    ensures
        mesh.index().wf(),
        mesh.index().entities().len() == mesh.spec_indices().len(),
        forall|i: int|
            0 <= i < mesh.spec_indices().len() ==> #[trigger] mesh.index().entities()[i]
                == triangle_record(mesh.spec_coordinates(), mesh.spec_indices(), i),
        mesh.index().spec_depth_limit() == MESH_DEPTH_LIMIT,
        mesh.index().spec_threshold() == VERTEX_THRESHOLD - 1,
        indices_in_range(mesh.spec_indices(), mesh.spec_coordinates().len()),
        mesh.spec_bounds() == AABB::hull_of(mesh.spec_coordinates(), mesh.spec_coordinates().len()),
{
}

} // verus!
