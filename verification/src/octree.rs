use crate::geom::lemma_intersects_iff_common_point;
use crate::geom::lemma_octants_cover;
use crate::geom::lemma_union_encloses;
use crate::geom::Point3;
use crate::geom::AABB;
use crate::scene::computes;
use crate::scene::given_by;
use crate::scene::is_nearest;
use crate::scene::lemma_nearer_merges;
use crate::scene::lemma_nearest_among_same;
use crate::scene::lemma_nearest_distance_unique;
use crate::scene::nearer;
use crate::scene::Intersection;
use crate::scene::SceneEntity;
use vstd::prelude::*;

verus! {

/// A node of the tree: a box, and either the entities to test in it or the
/// eight octants it was cut into.
struct Octant {
    entities: Vec<usize>,
    children: Vec<usize>,
    bounds: AABB,
    /// The node this one was cut from.
    parent: Ghost<int>,
    /// How many cuts lie between the root and this node.
    level: Ghost<nat>,
    /// The entities handed to this node when it was made.
    assigned: Ghost<Seq<usize>>,
    /// The point through which this node was cut, if it was cut.
    cut: Ghost<Point3>,
}

/// A spatial index over the entities of a scene.
///
/// Entities with a box are sorted into a tree of octants; the others are
/// kept in a list that every query tests in full.
pub struct Octree {
    entities: Vec<SceneEntity>,
    boundless_entities: Vec<usize>,
    octants: Vec<Octant>,
    depth_limit: usize,
    threshold: usize,
}

/// A node of a scene's tree is cut once it holds more entities than this.
pub const ENTITY_THRESHOLD: usize = 4;

/// When a node is cut: it holds more entities than `threshold`, and fewer
/// than `depth` cuts lie between it and the root.
pub struct Limits {
    pub depth: usize,
    pub threshold: usize,
}

/// The entity at position `e` has a box, and the box meets `region`.
pub open spec fn touches(entities: Seq<SceneEntity>, e: usize, region: AABB) -> bool {
    &&& e < entities.len()
    &&& entities[e as int].bounds matches Some(b) && b.spec_intersects(region)
}

/// Those of the first `n` entries of `list` whose box meets `region`, in order.
pub open spec fn overlapping(
    list: Seq<usize>,
    entities: Seq<SceneEntity>,
    region: AABB,
    n: nat,
) -> Seq<usize>
    decreases n,
{
    if n == 0 {
        Seq::empty()
    } else {
        let rest = overlapping(list, entities, region, (n - 1) as nat);
        if touches(entities, list[n - 1], region) {
            rest.push(list[n - 1])
        } else {
            rest
        }
    }
}

/// The positions, among the first `n` entities, of those with a box.
pub open spec fn bounded_indices(entities: Seq<SceneEntity>, n: nat) -> Seq<usize>
    decreases n,
{
    if n == 0 {
        Seq::empty()
    } else {
        let rest = bounded_indices(entities, (n - 1) as nat);
        if entities[n - 1].bounds is Some {
            rest.push((n - 1) as usize)
        } else {
            rest
        }
    }
}

/// The positions, among the first `n` entities, of those without a box.
pub open spec fn boundless_indices(entities: Seq<SceneEntity>, n: nat) -> Seq<usize>
    decreases n,
{
    if n == 0 {
        Seq::empty()
    } else {
        let rest = boundless_indices(entities, (n - 1) as nat);
        if entities[n - 1].bounds is None {
            rest.push((n - 1) as usize)
        } else {
            rest
        }
    }
}

/// The boxes of the first `n` entities, leaving out those without one.
pub open spec fn bounded_boxes(entities: Seq<SceneEntity>, n: nat) -> Seq<AABB>
    decreases n,
{
    if n == 0 {
        Seq::empty()
    } else {
        let rest = bounded_boxes(entities, (n - 1) as nat);
        match entities[n - 1].bounds {
            Some(b) => rest.push(b),
            None => rest,
        }
    }
}

/// The positions, among the first `n` entities, of those that give off
/// light.
pub open spec fn emissive_indices(entities: Seq<SceneEntity>, n: nat) -> Seq<usize>
    decreases n,
{
    if n == 0 {
        Seq::empty()
    } else {
        let rest = emissive_indices(entities, (n - 1) as nat);
        if entities[n - 1].emissive {
            rest.push((n - 1) as usize)
        } else {
            rest
        }
    }
}

/// Every box in the scene is a proper one.
pub open spec fn proper_boxes(entities: Seq<SceneEntity>) -> bool {
    forall|i: int|
        0 <= i < entities.len() ==> (#[trigger] entities[i].bounds matches Some(b) ==> b.wf())
}

/// Every entry names an entity of the scene that has a box.
spec fn list_ok(list: Seq<usize>, entities: Seq<SceneEntity>) -> bool {
    forall|k: int|
        0 <= k < list.len() ==> (#[trigger] list[k]) < entities.len() && entities[list[k] as int].bounds is Some
}

spec fn is_leaf(node: Octant) -> bool {
    node.children@.len() == 0
}

spec fn wants_split(node: Octant, limits: Limits) -> bool {
    node.assigned@.len() > limits.threshold && node.level@ < limits.depth
}

/// The `k`-th child of node `o` is the `k`-th octant of its box and was
/// handed the entities of `o` that meet it.
spec fn child_ok(octants: Seq<Octant>, entities: Seq<SceneEntity>, o: int, k: int) -> bool {
    let node = octants[o];
    let c = node.children@[k] as int;
    &&& o < c < octants.len()
    &&& octants[c].parent@ == o
    &&& octants[c].bounds == node.bounds.spec_octant_at(node.cut@, k)
    &&& octants[c].assigned@ == overlapping(
        node.assigned@,
        entities,
        octants[c].bounds,
        node.assigned@.len(),
    )
}

/// What holds of every node of a tree, finished or under construction.
spec fn node_ok(
    octants: Seq<Octant>,
    entities: Seq<SceneEntity>,
    limits: Limits,
    o: int,
) -> bool {
    let node = octants[o];
    &&& node.bounds.wf()
    &&& list_ok(node.assigned@, entities)
    &&& node.level@ <= limits.depth
    &&& if o == 0 {
        node.level@ == 0
    } else {
        &&& 0 <= node.parent@ < o
        &&& node.level@ == octants[node.parent@].level@ + 1
        &&& exists|k: int|
            0 <= k < octants[node.parent@].children@.len()
                && #[trigger] octants[node.parent@].children@[k] == o
    }
    &&& if is_leaf(node) {
        node.entities@ == node.assigned@
    } else {
        &&& node.entities@.len() == 0
        &&& node.children@.len() == 8
        &&& node.bounds.holds(node.cut@)
        &&& wants_split(node, limits)
        &&& forall|k: int| 0 <= k < 8 ==> #[trigger] child_ok(octants, entities, o, k)
    }
}

/// The node needs no further cut.
spec fn settled(node: Octant, limits: Limits) -> bool {
    is_leaf(node) ==> !wants_split(node, limits)
}

spec fn nodes_ok(octants: Seq<Octant>, entities: Seq<SceneEntity>, limits: Limits) -> bool {
    forall|o: int| 0 <= o < octants.len() ==> #[trigger] node_ok(octants, entities, limits, o)
}

/// The root, if the scene has entities with a box, was handed all of them
/// and has the smallest box around theirs.
spec fn root_ok(octants: Seq<Octant>, entities: Seq<SceneEntity>) -> bool {
    if bounded_indices(entities, entities.len()).len() == 0 {
        octants.len() == 0
    } else {
        &&& octants.len() > 0
        &&& octants[0].assigned@ == bounded_indices(entities, entities.len())
        &&& octants[0].bounds == AABB::union_of(
            bounded_boxes(entities, entities.len()),
            bounded_boxes(entities, entities.len()).len(),
        )
    }
}

/// A query that has come to node `o` goes on down to node `l`: `l` lies in
/// the subtree of `o`, and the ray crosses the box of every node from `o`
/// to `l`.
spec fn path_crossed(octants: Seq<Octant>, crossed: spec_fn(AABB) -> bool, o: int, l: int) -> bool
    decreases l,
{
    if o < 0 || l < o || l >= octants.len() {
        false
    } else if l == o {
        crossed(octants[o].bounds)
    } else {
        &&& crossed(octants[l].bounds)
        &&& 0 <= octants[l].parent@ < l
        &&& path_crossed(octants, crossed, o, octants[l].parent@)
    }
}

/// A query that has come to node `o` tests entity `e` in some leaf below.
spec fn tested_under(
    octants: Seq<Octant>,
    crossed: spec_fn(AABB) -> bool,
    o: int,
    e: usize,
) -> bool {
    exists|l: int|
        #[trigger] path_crossed(octants, crossed, o, l) && is_leaf(octants[l])
            && octants[l].entities@.contains(e)
}

/// Entity `e` is among the first `n` entries of `list`.
spec fn in_prefix(list: Seq<usize>, n: int, e: usize) -> bool {
    exists|j: int| 0 <= j < n && #[trigger] list[j] == e
}

/// A query tests entity `e` below one of the first `n` of the given nodes.
spec fn under_some(
    octants: Seq<Octant>,
    crossed: spec_fn(AABB) -> bool,
    children: Seq<usize>,
    n: int,
    e: usize,
) -> bool {
    exists|k: int|
        0 <= k < n && #[trigger] tested_under(octants, crossed, children[k] as int, e)
}

proof fn lemma_path_bounds(octants: Seq<Octant>, crossed: spec_fn(AABB) -> bool, o: int, l: int)
    requires
        path_crossed(octants, crossed, o, l),
    ensures
        0 <= o <= l < octants.len(),
        crossed(octants[o].bounds),
    decreases l,
{
    if l != o {
        lemma_path_bounds(octants, crossed, o, octants[l].parent@);
    }
}

proof fn lemma_path_step_down(
    octants: Seq<Octant>,
    entities: Seq<SceneEntity>,
    limits: Limits,
    crossed: spec_fn(AABB) -> bool,
    o: int,
    l: int,
) -> (k: int)
    requires
        nodes_ok(octants, entities, limits),
        path_crossed(octants, crossed, o, l),
        l != o,
    ensures
        0 <= k < octants[o].children@.len(),
        path_crossed(octants, crossed, octants[o].children@[k] as int, l),
    decreases l,
{
    lemma_path_bounds(octants, crossed, o, l);
    let p = octants[l].parent@;
    assert(node_ok(octants, entities, limits, l));
    if p == o {
        let k = choose|k: int|
            0 <= k < octants[p].children@.len() && #[trigger] octants[p].children@[k] == l;
        k
    } else {
        let k = lemma_path_step_down(octants, entities, limits, crossed, o, p);
        lemma_path_bounds(octants, crossed, octants[o].children@[k] as int, p);
        k
    }
}

proof fn lemma_path_step_up(
    octants: Seq<Octant>,
    entities: Seq<SceneEntity>,
    limits: Limits,
    crossed: spec_fn(AABB) -> bool,
    o: int,
    k: int,
    l: int,
)
    requires
        nodes_ok(octants, entities, limits),
        0 <= o < octants.len(),
        0 <= k < octants[o].children@.len(),
        crossed(octants[o].bounds),
        path_crossed(octants, crossed, octants[o].children@[k] as int, l),
    ensures
        path_crossed(octants, crossed, o, l),
    decreases l,
{
    let c = octants[o].children@[k] as int;
    assert(node_ok(octants, entities, limits, o));
    assert(child_ok(octants, entities, o, k));
    lemma_path_bounds(octants, crossed, c, l);
    if l == c {
        assert(path_crossed(octants, crossed, o, o));
    } else {
        lemma_path_step_up(octants, entities, limits, crossed, o, k, octants[l].parent@);
    }
}

/// Of a leaf that the ray crosses, a query tests exactly the entities listed.
proof fn lemma_tested_in_leaf(
    octants: Seq<Octant>,
    entities: Seq<SceneEntity>,
    limits: Limits,
    crossed: spec_fn(AABB) -> bool,
    o: int,
    e: usize,
)
    requires
        nodes_ok(octants, entities, limits),
        0 <= o < octants.len(),
        is_leaf(octants[o]),
        crossed(octants[o].bounds),
    ensures
        tested_under(octants, crossed, o, e) <==> octants[o].entities@.contains(e),
{
    if tested_under(octants, crossed, o, e) {
        let l = choose|l: int|
            #[trigger] path_crossed(octants, crossed, o, l) && is_leaf(octants[l])
                && octants[l].entities@.contains(e);
        if l != o {
            let k = lemma_path_step_down(octants, entities, limits, crossed, o, l);
        }
    }
    if octants[o].entities@.contains(e) {
        assert(path_crossed(octants, crossed, o, o));
    }
}

/// Below a cut node that the ray crosses, a query tests what it tests below
/// the eight children.
proof fn lemma_tested_in_children(
    octants: Seq<Octant>,
    entities: Seq<SceneEntity>,
    limits: Limits,
    crossed: spec_fn(AABB) -> bool,
    o: int,
    e: usize,
)
    requires
        nodes_ok(octants, entities, limits),
        0 <= o < octants.len(),
        !is_leaf(octants[o]),
        crossed(octants[o].bounds),
    ensures
        tested_under(octants, crossed, o, e) <==> under_some(
            octants,
            crossed,
            octants[o].children@,
            octants[o].children@.len() as int,
            e,
        ),
{
    let children = octants[o].children@;
    if tested_under(octants, crossed, o, e) {
        let l = choose|l: int|
            #[trigger] path_crossed(octants, crossed, o, l) && is_leaf(octants[l])
                && octants[l].entities@.contains(e);
        let k = lemma_path_step_down(octants, entities, limits, crossed, o, l);
        assert(tested_under(octants, crossed, children[k] as int, e));
    }
    if under_some(octants, crossed, children, children.len() as int, e) {
        let k = choose|k: int|
            0 <= k < children.len() && #[trigger] tested_under(
                octants,
                crossed,
                children[k] as int,
                e,
            );
        let l = choose|l: int|
            #[trigger] path_crossed(octants, crossed, children[k] as int, l) && is_leaf(octants[l])
                && octants[l].entities@.contains(e);
        lemma_path_step_up(octants, entities, limits, crossed, o, k, l);
    }
}

/// A query never tests below a node whose box the ray misses.
proof fn lemma_nothing_tested_when_missed(
    octants: Seq<Octant>,
    crossed: spec_fn(AABB) -> bool,
    o: int,
    e: usize,
)
    requires
        0 <= o < octants.len(),
        !crossed(octants[o].bounds),
    ensures
        !tested_under(octants, crossed, o, e),
{
    if tested_under(octants, crossed, o, e) {
        let l = choose|l: int|
            #[trigger] path_crossed(octants, crossed, o, l) && is_leaf(octants[l])
                && octants[l].entities@.contains(e);
        lemma_path_bounds(octants, crossed, o, l);
    }
}

/// What a query tests below a node is an entity of the scene.
proof fn lemma_tested_is_entity(
    octants: Seq<Octant>,
    entities: Seq<SceneEntity>,
    limits: Limits,
    crossed: spec_fn(AABB) -> bool,
    o: int,
    e: usize,
)
    requires
        nodes_ok(octants, entities, limits),
        tested_under(octants, crossed, o, e),
    ensures
        e < entities.len(),
        entities[e as int].bounds is Some,
{
    let l = choose|l: int|
        #[trigger] path_crossed(octants, crossed, o, l) && is_leaf(octants[l])
            && octants[l].entities@.contains(e);
    lemma_path_bounds(octants, crossed, o, l);
    assert(node_ok(octants, entities, limits, l));
    let j = choose|j: int| 0 <= j < octants[l].entities@.len() && octants[l].entities@[j] == e;
    assert(octants[l].assigned@[j] == e);
}

/// Every entry of a filtered list names an entity with a box.
proof fn lemma_overlapping_ok(
    list: Seq<usize>,
    entities: Seq<SceneEntity>,
    region: AABB,
    n: nat,
)
    requires
        n <= list.len(),
    ensures
        list_ok(overlapping(list, entities, region, n), entities),
        overlapping(list, entities, region, n).len() <= n,
    decreases n,
{
    if n > 0 {
        lemma_overlapping_ok(list, entities, region, (n - 1) as nat);
    }
}

/// An entry of a list whose box meets the region survives the filter.
proof fn lemma_overlapping_keeps(
    list: Seq<usize>,
    entities: Seq<SceneEntity>,
    region: AABB,
    n: nat,
    j: int,
)
    requires
        0 <= j < n <= list.len(),
        touches(entities, list[j], region),
    ensures
        overlapping(list, entities, region, n).contains(list[j]),
    decreases n,
{
    let rest = overlapping(list, entities, region, (n - 1) as nat);
    if j == n - 1 {
        assert(rest.push(list[j])[rest.len() as int] == list[j]);
    } else {
        lemma_overlapping_keeps(list, entities, region, (n - 1) as nat, j);
        let w = choose|w: int| 0 <= w < rest.len() && rest[w] == list[j];
        if touches(entities, list[n - 1], region) {
            assert(rest.push(list[n - 1])[w] == list[j]);
        }
    }
}

/// The lists of entities with and without a box name entities of the scene,
/// each in the right list, and between them leave none out.
proof fn lemma_partition(entities: Seq<SceneEntity>, n: nat)
    requires
        n <= entities.len() <= usize::MAX,
    ensures
        list_ok(bounded_indices(entities, n), entities),
        bounded_indices(entities, n).len() == bounded_boxes(entities, n).len(),
        forall|k: int|
            0 <= k < bounded_indices(entities, n).len() ==> (#[trigger] bounded_indices(
                entities,
                n,
            )[k]) < n && entities[bounded_indices(entities, n)[k] as int].bounds == Some(
                bounded_boxes(entities, n)[k],
            ),
        forall|k: int|
            0 <= k < boundless_indices(entities, n).len() ==> (#[trigger] boundless_indices(
                entities,
                n,
            )[k]) < n && entities[boundless_indices(entities, n)[k] as int].bounds is None,
        forall|e: usize|
            e < n && entities[e as int].bounds is Some ==> #[trigger] bounded_indices(
                entities,
                n,
            ).contains(e),
        forall|e: usize|
            e < n && entities[e as int].bounds is None ==> #[trigger] boundless_indices(
                entities,
                n,
            ).contains(e),
    decreases n,
{
    if n > 0 {
        let m = (n - 1) as nat;
        lemma_partition(entities, m);
        let with_box = bounded_indices(entities, n);
        let without = boundless_indices(entities, n);
        let boxes = bounded_boxes(entities, n);
        assert forall|k: int| 0 <= k < with_box.len() implies (#[trigger] with_box[k]) < n
            && entities[with_box[k] as int].bounds == Some(boxes[k]) by {
            let inner = bounded_indices(entities, m);
            if k < inner.len() {
                assert(with_box[k] == inner[k]);
                assert(boxes[k] == bounded_boxes(entities, m)[k]);
            }
        }
        assert forall|k: int| 0 <= k < without.len() implies (#[trigger] without[k]) < n
            && entities[without[k] as int].bounds is None by {
            let inner = boundless_indices(entities, m);
            if k < inner.len() {
                assert(without[k] == inner[k]);
            }
        }
        assert forall|e: usize| e < n && entities[e as int].bounds is Some implies #[trigger]
            with_box.contains(e) by {
            if e < m {
                let inner = bounded_indices(entities, m);
                assert(inner.contains(e));
                let w = choose|w: int| 0 <= w < inner.len() && inner[w] == e;
                assert(with_box[w] == e);
            } else {
                assert(with_box[with_box.len() - 1] == e);
            }
        }
        assert forall|e: usize| e < n && entities[e as int].bounds is None implies #[trigger]
            without.contains(e) by {
            if e < m {
                let inner = boundless_indices(entities, m);
                assert(inner.contains(e));
                let w = choose|w: int| 0 <= w < inner.len() && inner[w] == e;
                assert(without[w] == e);
            } else {
                assert(without[without.len() - 1] == e);
            }
        }
    }
}

/// Adds to the tree a leaf for the part `child_bounds` of the node `parent`,
/// which is still a leaf, and hands it the entities of `parent` that meet
/// that part.
fn insert_new_octant(
    octants: &mut Vec<Octant>,
    entities: &Vec<SceneEntity>,
    parent: usize,
    child_bounds: AABB,
) -> (child: usize)
    requires
        parent < old(octants)@.len(),
        list_ok(old(octants)@[parent as int].entities@, entities@),
    ensures
        child == old(octants)@.len(),
        final(octants)@.len() == old(octants)@.len() + 1,
        forall|j: int| 0 <= j < old(octants)@.len() ==> final(octants)@[j] == old(octants)@[j],
        final(octants)@[child as int].bounds == child_bounds,
        is_leaf(final(octants)@[child as int]),
        final(octants)@[child as int].parent@ == parent,
        final(octants)@[child as int].level@ == old(octants)@[parent as int].level@ + 1,
        final(octants)@[child as int].entities@ == final(octants)@[child as int].assigned@,
        final(octants)@[child as int].assigned@ == overlapping(
            old(octants)@[parent as int].entities@,
            entities@,
            child_bounds,
            old(octants)@[parent as int].entities@.len(),
        ),
{
    let ghost source = octants@[parent as int].entities@;
    let ghost level = octants@[parent as int].level@;
    let mut child_entities: Vec<usize> = Vec::new();
    let count = octants[parent].entities.len();
    let mut j: usize = 0;
    while j < count
        invariant
            j <= count,
            count == source.len(),
            parent < octants@.len(),
            octants@[parent as int].entities@ == source,
            list_ok(source, entities@),
            child_entities@ == overlapping(source, entities@, child_bounds, j as nat),
        decreases count - j,
    {
        let e = octants[parent].entities[j];
        assert(source[j as int] == e);
        let meets = match entities[e].bounds {
            Some(b) => b.intersects_bounds(&child_bounds),
            None => false,
        };
        if meets {
            child_entities.push(e);
        }
        j += 1;
    }
    let child_index = octants.len();
    let child = Octant {
        assigned: Ghost(child_entities@),
        entities: child_entities,
        children: Vec::new(),
        bounds: child_bounds,
        parent: Ghost(parent as int),
        level: Ghost(level + 1),
        cut: Ghost(child_bounds.min),
    };
    octants.push(child);
    child_index
}

/// The node was cut where `halve` said, or at the point of the node's box
/// nearest to that.
spec fn cut_as_told<F: Fn(AABB) -> Point3>(halve: F, node: Octant) -> bool {
    exists|told: Point3|
        halve.ensures((node.bounds,), told) && node.cut@ == node.bounds.spec_clamp(told)
}

/// Every node that was cut was cut where `halve` said.
spec fn all_cut_as_told<F: Fn(AABB) -> Point3>(halve: F, octants: Seq<Octant>) -> bool {
    forall|o: int|
        0 <= o < octants.len() && !is_leaf(#[trigger] octants[o]) ==> cut_as_told(halve, octants[o])
}

/// Cuts the leaf `current` into its eight octants, if it holds more
/// entities than the threshold allows. `halve` says where to cut.
fn split_octant<F: Fn(AABB) -> Point3>(
    octants: &mut Vec<Octant>,
    entities: &Vec<SceneEntity>,
    current: usize,
    threshold: usize,
    halve: &F,
    Ghost(limits): Ghost<Limits>,
) -> (cut: bool)
    requires
        forall|b: AABB| b.wf() ==> halve.requires((b,)),
        all_cut_as_told(*halve, old(octants)@),
        current < old(octants)@.len(),
        nodes_ok(old(octants)@, entities@, limits),
        is_leaf(old(octants)@[current as int]),
        old(octants)@[current as int].level@ < limits.depth,
        threshold == limits.threshold,
    ensures
        nodes_ok(final(octants)@, entities@, limits),
        all_cut_as_told(*halve, final(octants)@),
        settled(final(octants)@[current as int], limits),
        final(octants)@.len() == old(octants)@.len() + if cut {
            8int
        } else {
            0int
        },
        forall|j: int|
            0 <= j < old(octants)@.len() && j != current ==> final(octants)@[j] == old(
                octants,
            )@[j],
        final(octants)@[current as int].bounds == old(octants)@[current as int].bounds,
        final(octants)@[current as int].assigned@ == old(octants)@[current as int].assigned@,
        final(octants)@[current as int].level@ == old(octants)@[current as int].level@,
        forall|j: int|
            old(octants)@.len() <= j < final(octants)@.len() ==> is_leaf(
                #[trigger] final(octants)@[j],
            ) && final(octants)@[j].level@ == old(octants)@[current as int].level@ + 1,
{
    let ghost before = octants@;
    let ghost scene = entities@;
    let ghost cur = current as int;
    let ghost node = before[cur];
    assert(node_ok(before, scene, limits, cur));
    if octants[current].entities.len() <= threshold {
        return false;
    }
    let base = octants.len();
    let bounds = octants[current].bounds;
    let told = halve(bounds);
    let cut = bounds.clamp(&told);
    let mut children: Vec<usize> = Vec::new();
    let mut k: usize = 0;
    while k < 8
        invariant
            k <= 8,
            bounds.holds(cut),
            cur == current,
            cur < base,
            base == before.len(),
            node == before[cur],
            bounds == node.bounds,
            bounds.wf(),
            node.entities@ == node.assigned@,
            list_ok(node.assigned@, scene),
            scene == entities@,
            octants@.len() == base + k,
            children@.len() == k,
            forall|j: int| 0 <= j < base ==> octants@[j] == before[j],
            forall|i: int| 0 <= i < k ==> children@[i] == base + i,
            forall|i: int|
                0 <= i < k ==> {
                    let made = #[trigger] octants@[base + i];
                    &&& made.bounds == bounds.spec_octant_at(cut, i)
                    &&& made.bounds.wf()
                    &&& is_leaf(made)
                    &&& made.parent@ == cur
                    &&& made.level@ == node.level@ + 1
                    &&& made.entities@ == made.assigned@
                    &&& made.assigned@ == overlapping(
                        node.assigned@,
                        scene,
                        made.bounds,
                        node.assigned@.len(),
                    )
                },
        decreases 8 - k,
    {
        let child_bounds = bounds.octant_at(&cut, k);
        let ghost so_far = octants@;
        let child = insert_new_octant(octants, entities, current, child_bounds);
        children.push(child);
        proof {
            assert forall|i: int| 0 <= i < k + 1 implies {
                let made = #[trigger] octants@[base + i];
                &&& made.bounds == bounds.spec_octant_at(cut, i)
                &&& made.bounds.wf()
                &&& is_leaf(made)
                &&& made.parent@ == cur
                &&& made.level@ == node.level@ + 1
                &&& made.entities@ == made.assigned@
                &&& made.assigned@ == overlapping(
                    node.assigned@,
                    scene,
                    made.bounds,
                    node.assigned@.len(),
                )
            } by {
                if i < k {
                    assert(octants@[base + i] == so_far[base + i]);
                }
            }
        }
        k += 1;
    }
    let ghost grown = octants@;
    let cut_node = Octant {
        entities: Vec::new(),
        children,
        bounds,
        parent: Ghost(node.parent@),
        level: Ghost(node.level@),
        assigned: Ghost(node.assigned@),
        cut: Ghost(cut),
    };
    octants.set(current, cut_node);
    proof {
        let after = octants@;
        assert(after.len() == base + 8);
        assert forall|o: int| 0 <= o < after.len() && !is_leaf(#[trigger] after[o]) implies cut_as_told(
            *halve,
            after[o],
        ) by {
            if o == cur {
                assert(halve.ensures((after[o].bounds,), told));
            } else if o < base {
                assert(after[o] == before[o]);
            } else {
                assert(after[o] == grown[base + (o - base)]);
            }
        }
        assert forall|o: int| 0 <= o < after.len() implies #[trigger] node_ok(
            after,
            scene,
            limits,
            o,
        ) by {
            if o < base && o != cur {
                assert(after[o] == before[o]);
                assert(node_ok(before, scene, limits, o));
                if o != 0 {
                    let p = before[o].parent@;
                    assert(p != cur);
                    assert(after[p] == before[p]);
                }
                if !is_leaf(after[o]) {
                    assert forall|i: int| 0 <= i < 8 implies #[trigger] child_ok(
                        after,
                        scene,
                        o,
                        i,
                    ) by {
                        assert(child_ok(before, scene, o, i));
                        let c = before[o].children@[i] as int;
                        if c != cur {
                            assert(after[c] == before[c]);
                        }
                    }
                }
            } else if o == cur {
                if o != 0 {
                    let p = node.parent@;
                    assert(p != cur);
                    assert(after[p] == before[p]);
                }
                assert forall|i: int| 0 <= i < 8 implies #[trigger] child_ok(
                    after,
                    scene,
                    o,
                    i,
                ) by {
                    assert(after[base + i] == grown[base + i]);
                }
            } else {
                let i = o - base;
                assert(after[o] == grown[base + i]);
                lemma_overlapping_ok(
                    node.assigned@,
                    scene,
                    after[o].bounds,
                    node.assigned@.len(),
                );
                assert(after[cur].children@[i] == o);
            }
        }
        assert forall|j: int| base <= j < after.len() implies is_leaf(#[trigger] after[j])
            && after[j].level@ == node.level@ + 1 by {
            assert(after[j] == grown[base + (j - base)]);
        }
    }
    true
}

/// Cuts the pending leaves of a tree level by level until none holds more
/// entities than the threshold allows or the depth limit is reached.
fn split_levels<F: Fn(AABB) -> Point3>(
    octants: &mut Vec<Octant>,
    entities: &Vec<SceneEntity>,
    depth_limit: usize,
    threshold: usize,
    halve: &F,
    Ghost(limits): Ghost<Limits>,
)
    requires
        forall|b: AABB| b.wf() ==> halve.requires((b,)),
        limits.depth == depth_limit,
        limits.threshold == threshold,
        old(octants)@.len() == 1,
        nodes_ok(old(octants)@, entities@, limits),
        is_leaf(old(octants)@[0]),
    ensures
        nodes_ok(final(octants)@, entities@, limits),
        all_cut_as_told(*halve, final(octants)@),
        forall|o: int|
            0 <= o < final(octants)@.len() ==> settled(#[trigger] final(octants)@[o], limits),
        final(octants)@.len() >= 1,
        final(octants)@[0].bounds == old(octants)@[0].bounds,
        final(octants)@[0].assigned@ == old(octants)@[0].assigned@,
{
    let ghost root = octants@[0];
    assert(node_ok(octants@, entities@, limits, 0));
    let mut level: usize = 0;
    let mut start: usize = 0;
    while level < depth_limit && start < octants.len()
        invariant
            level <= depth_limit,
            limits.depth == depth_limit,
            limits.threshold == threshold,
            start <= octants@.len(),
            octants@.len() >= 1,
            forall|b: AABB| b.wf() ==> halve.requires((b,)),
            all_cut_as_told(*halve, octants@),
            nodes_ok(octants@, entities@, limits),
            octants@[0].bounds == root.bounds,
            octants@[0].assigned@ == root.assigned@,
            forall|o: int| 0 <= o < start ==> settled(#[trigger] octants@[o], limits),
            forall|o: int|
                start <= o < octants@.len() ==> is_leaf(#[trigger] octants@[o]) && octants@[o].level@
                    == level,
        decreases depth_limit - level,
    {
        let end = octants.len();
        let mut i: usize = start;
        while i < end
            invariant
                level < depth_limit,
                limits.depth == depth_limit,
                limits.threshold == threshold,
                start <= i <= end <= octants@.len(),
                forall|b: AABB| b.wf() ==> halve.requires((b,)),
                all_cut_as_told(*halve, octants@),
                nodes_ok(octants@, entities@, limits),
                octants@[0].bounds == root.bounds,
                octants@[0].assigned@ == root.assigned@,
                forall|o: int| 0 <= o < i ==> settled(#[trigger] octants@[o], limits),
                forall|o: int|
                    i <= o < end ==> is_leaf(#[trigger] octants@[o]) && octants@[o].level@ == level,
                forall|o: int|
                    end <= o < octants@.len() ==> is_leaf(#[trigger] octants@[o])
                        && octants@[o].level@ == level + 1,
            decreases end - i,
        {
            let ghost so_far = octants@;
            assert(is_leaf(so_far[i as int]));
            let _ = split_octant(octants, entities, i, threshold, halve, Ghost(limits));
            proof {
                assert forall|o: int| 0 <= o < i + 1 implies settled(
                    #[trigger] octants@[o],
                    limits,
                ) by {
                    if o < i {
                        assert(octants@[o] == so_far[o]);
                    }
                }
                assert forall|o: int| i + 1 <= o < end implies is_leaf(#[trigger] octants@[o])
                    && octants@[o].level@ == level by {
                    assert(octants@[o] == so_far[o]);
                }
                assert forall|o: int| end <= o < octants@.len() implies is_leaf(
                    #[trigger] octants@[o],
                ) && octants@[o].level@ == level + 1 by {
                    if o < so_far.len() {
                        assert(octants@[o] == so_far[o]);
                    }
                }
            }
            i += 1;
        }
        start = end;
        level += 1;
    }
}

impl Octree {
    /// The tree is sound: the root covers every entity that has a box, each
    /// cut node has handed its entities on to the octants they meet, each
    /// leaf lists what it was handed, and no node is left that should have
    /// been cut.
    #[verifier::type_invariant]
    pub closed spec fn wf(&self) -> bool {
        &&& proper_boxes(self.entities@)
        &&& self.entities@.len() <= usize::MAX
        &&& self.boundless_entities@ == boundless_indices(self.entities@, self.entities@.len())
        &&& root_ok(self.octants@, self.entities@)
        &&& nodes_ok(self.octants@, self.entities@, self.limits())
        &&& forall|o: int|
            0 <= o < self.octants@.len() ==> settled(#[trigger] self.octants@[o], self.limits())
    }

    /// The entities of the scene, in the order they were given.
    pub closed spec fn entities(&self) -> Seq<SceneEntity> {
        self.entities@
    }

    /// The greatest number of cuts between the root and any node.
    pub closed spec fn spec_depth_limit(&self) -> usize {
        self.depth_limit
    }

    /// The number of entities above which a node is cut.
    pub closed spec fn spec_threshold(&self) -> usize {
        self.threshold
    }

    /// When the nodes of this tree are cut.
    pub open spec fn limits(&self) -> Limits {
        Limits { depth: self.spec_depth_limit(), threshold: self.spec_threshold() }
    }

    /// A query whose ray crosses the boxes picked out by `crossed` tests
    /// entity `e`: it has no box, or it is listed in a leaf that the query
    /// comes to.
    pub closed spec fn tested(&self, crossed: spec_fn(AABB) -> bool, e: usize) -> bool {
        ||| self.boundless_entities@.contains(e)
        ||| self.in_tree(crossed, e)
    }

    /// A query whose ray crosses the boxes picked out by `crossed` comes to a
    /// leaf that lists entity `e`.
    pub closed spec fn in_tree(&self, crossed: spec_fn(AABB) -> bool, e: usize) -> bool {
        self.octants@.len() > 0 && tested_under(self.octants@, crossed, 0, e)
    }

    /// Every node that was cut was cut in the middle of its box, by keys.
    pub open spec fn cut_in_the_middle(&self) -> bool {
        forall|o: int|
            0 <= o < self.octant_count() && (#[trigger] self.octant_children(o)).len() > 0
                ==> self.octant_cut(o) == self.octant_bounds(o).spec_center()
    }

    /// Every node that was cut was cut at the point that `halved` gives for
    /// its box, or at the point of the box nearest to that.
    pub open spec fn cut_where(&self, halved: spec_fn(AABB) -> Point3) -> bool {
        forall|o: int|
            0 <= o < self.octant_count() && (#[trigger] self.octant_children(o)).len() > 0
                ==> self.octant_cut(o) == self.octant_bounds(o).spec_clamp(
                halved(self.octant_bounds(o)),
            )
    }

    /// Builds the index of a scene. A node is cut once it holds more than
    /// four entities, in the middle of its box by keys; no node lies more
    /// than `depth_limit` cuts below the root.
    pub fn create(entities: Vec<SceneEntity>, depth_limit: usize) -> (tree: Octree)
        requires
            proper_boxes(entities@),
        ensures
            tree.wf(),
            tree.entities() == entities@,
            tree.spec_depth_limit() == depth_limit,
            tree.spec_threshold() == ENTITY_THRESHOLD,
            tree.cut_in_the_middle(),
    {
        Self::with_threshold(entities, depth_limit, ENTITY_THRESHOLD)
    }

    /// Builds an index whose nodes are cut once they hold more than
    /// `threshold` entities, in the middle of their box by keys; no node
    /// lies more than `depth_limit` cuts below the root.
    pub fn with_threshold(entities: Vec<SceneEntity>, depth_limit: usize, threshold: usize) -> (tree:
        Octree)
        requires
            proper_boxes(entities@),
        ensures
            tree.wf(),
            tree.entities() == entities@,
            tree.spec_depth_limit() == depth_limit,
            tree.spec_threshold() == threshold,
            tree.cut_in_the_middle(),
    {
        let middle = |b: AABB| -> (c: Point3)
            requires
                b.wf(),
            ensures
                c == b.spec_center(),
        {
            b.center()
        };
        let tree = Self::create_with(entities, depth_limit, threshold, middle);
        proof {
            let halved = |b: AABB| b.spec_center();
            assert(computes(middle, halved));
            assert(tree.cut_where(halved));
            use_type_invariant(&tree);
            assert forall|o: int|
                0 <= o < tree.octant_count() && (#[trigger] tree.octant_children(o)).len()
                    > 0 implies tree.octant_cut(o) == tree.octant_bounds(o).spec_center() by {
                assert(node_ok(tree.octants@, tree.entities@, tree.limits(), o));
            }
        }
        tree
    }

    /// Builds an index whose nodes are cut once they hold more than
    /// `threshold` entities; no node lies more than `depth_limit` cuts below
    /// the root. `halve` says where a box is to be cut: a caller who knows
    /// what the keys stand for can have every box cut into equal parts. A
    /// point outside the box is taken for the point of the box nearest to
    /// it.
    pub fn create_with<F: Fn(AABB) -> Point3>(
        entities: Vec<SceneEntity>,
        depth_limit: usize,
        threshold: usize,
        halve: F,
    ) -> (tree: Octree)
        requires
            proper_boxes(entities@),
            forall|b: AABB| b.wf() ==> halve.requires((b,)),
        ensures
            tree.wf(),
            tree.entities() == entities@,
            tree.spec_depth_limit() == depth_limit,
            tree.spec_threshold() == threshold,
            forall|halved: spec_fn(AABB) -> Point3| #[trigger]
                computes(halve, halved) ==> tree.cut_where(halved),
    {
        let ghost limits = Limits { depth: depth_limit, threshold };
        let mut bounded: Vec<usize> = Vec::new();
        let mut boundless: Vec<usize> = Vec::new();
        let mut boxes: Vec<AABB> = Vec::new();
        let mut i: usize = 0;
        while i < entities.len()
            invariant
                i <= entities@.len(),
                bounded@ == bounded_indices(entities@, i as nat),
                boundless@ == boundless_indices(entities@, i as nat),
                boxes@ == bounded_boxes(entities@, i as nat),
            decreases entities@.len() - i,
        {
            match entities[i].bounds {
                Some(b) => {
                    bounded.push(i);
                    boxes.push(b);
                },
                None => {
                    boundless.push(i);
                },
            }
            i += 1;
        }
        proof {
            lemma_partition(entities@, entities@.len());
        }
        let mut octants: Vec<Octant> = Vec::new();
        if bounded.len() > 0 {
            let bounds = AABB::from_bounds(&boxes);
            proof {
                assert forall|k: int| 0 <= k < boxes@.len() implies (#[trigger] boxes@[k]).wf() by {
                    let e = bounded@[k];
                    assert(entities@[e as int].bounds == Some(boxes@[k]));
                }
                lemma_union_encloses(boxes@, boxes@.len());
            }
            let root = Octant {
                assigned: Ghost(bounded@),
                entities: bounded,
                children: Vec::new(),
                bounds,
                parent: Ghost(0int),
                level: Ghost(0nat),
                cut: Ghost(bounds.min),
            };
            octants.push(root);
            assert(node_ok(octants@, entities@, limits, 0));
            split_levels(&mut octants, &entities, depth_limit, threshold, &halve, Ghost(limits));
        }
        let tree = Octree { entities, boundless_entities: boundless, octants, depth_limit, threshold };
        proof {
            assert forall|halved: spec_fn(AABB) -> Point3| #[trigger]
                computes(halve, halved) implies tree.cut_where(halved) by {
                assert forall|o: int|
                    0 <= o < tree.octant_count() && (#[trigger] tree.octant_children(o)).len()
                        > 0 implies tree.octant_cut(o) == tree.octant_bounds(o).spec_clamp(
                    halved(tree.octant_bounds(o)),
                ) by {
                    assert(cut_as_told(halve, tree.octants@[o]));
                }
            }
        }
        tree
    }

    /// The number of nodes of the tree; none where no entity has a box.
    pub closed spec fn octant_count(&self) -> nat {
        self.octants@.len()
    }

    /// The box of the node `o`.
    pub closed spec fn octant_bounds(&self, o: int) -> AABB {
        self.octants@[o].bounds
    }

    /// The entities that a query tests in the node `o`.
    pub closed spec fn octant_entities(&self, o: int) -> Seq<usize> {
        self.octants@[o].entities@
    }

    /// The entities that were handed to the node `o` when it was made.
    pub closed spec fn octant_assigned(&self, o: int) -> Seq<usize> {
        self.octants@[o].assigned@
    }

    /// The nodes that the node `o` was cut into, if it was cut.
    pub closed spec fn octant_children(&self, o: int) -> Seq<usize> {
        self.octants@[o].children@
    }

    /// The number of cuts between the root and the node `o`.
    pub closed spec fn octant_level(&self, o: int) -> nat {
        self.octants@[o].level@
    }

    /// The point through which the node `o` was cut, if it was cut.
    pub closed spec fn octant_cut(&self, o: int) -> Point3 {
        self.octants@[o].cut@
    }

    /// The number of nodes of the tree.
    pub fn octants(&self) -> (count: usize)
        ensures
            count == self.octant_count(),
    {
        self.octants.len()
    }

    /// The number of entities in the scene.
    pub fn len(&self) -> (n: usize)
        ensures
            n == self.entities().len(),
    {
        self.entities.len()
    }

    /// The entity at a position of the scene's list.
    pub fn entity(&self, index: usize) -> (e: &SceneEntity)
        requires
            index < self.entities().len(),
        ensures
            *e == self.entities()[index as int],
    {
        &self.entities[index]
    }

    pub fn depth_limit(&self) -> (d: usize)
        ensures
            d == self.spec_depth_limit(),
    {
        self.depth_limit
    }

    pub fn threshold(&self) -> (t: usize)
        ensures
            t == self.spec_threshold(),
    {
        self.threshold
    }

    /// The entities that give off light, as positions in the scene's list, in
    /// order.
    pub fn get_emissive_entities(&self) -> (lights: Vec<usize>)
        ensures
            lights@ == emissive_indices(self.entities(), self.entities().len()),
    {
        let mut lights: Vec<usize> = Vec::new();
        let mut i: usize = 0;
        while i < self.entities.len()
            invariant
                i <= self.entities@.len(),
                lights@ == emissive_indices(self.entities@, i as nat),
            decreases self.entities@.len() - i,
        {
            if self.entities[i].emissive {
                lights.push(i);
            }
            i += 1;
        }
        lights
    }

    /// The nearest hit that the tree alone yields: the nearest among the
    /// entities listed in the leaves that the query comes to. `crosses` is
    /// the ray's box test, `hit` its surface test for the entity at a
    /// position of the scene's list.
    pub fn trace<P, B: Fn(AABB) -> bool, H: Fn(usize) -> Option<(u64, P)>>(
        &self,
        crosses: B,
        hit: H,
    ) -> (best: Option<Intersection<P>>)
        requires
            forall|b: AABB| crosses.requires((b,)),
            forall|e: usize| e < self.entities().len() ==> hit.requires((e,)),
        ensures
            given_by(best, hit, self.entities().len()),
            forall|crossed: spec_fn(AABB) -> bool, found: spec_fn(usize) -> Option<(u64, P)>|
                #![trigger computes(crosses, crossed), computes(hit, found)]
                computes(crosses, crossed) && computes(hit, found) ==> is_nearest(
                    best,
                    |e: usize| self.in_tree(crossed, e),
                    found,
                ),
    {
        self.trace_root(&crosses, &hit)
    }

    /// The tree's part of a query, from the root.
    fn trace_root<P, B: Fn(AABB) -> bool, H: Fn(usize) -> Option<(u64, P)>>(
        &self,
        crosses: &B,
        hit: &H,
    ) -> (best: Option<Intersection<P>>)
        requires
            forall|b: AABB| crosses.requires((b,)),
            forall|e: usize| e < self.entities().len() ==> hit.requires((e,)),
        ensures
            given_by(best, *hit, self.entities().len()),
            forall|crossed: spec_fn(AABB) -> bool, found: spec_fn(usize) -> Option<(u64, P)>|
                #![trigger computes(*crosses, crossed), computes(*hit, found)]
                computes(*crosses, crossed) && computes(*hit, found) ==> is_nearest(
                    best,
                    |e: usize| self.in_tree(crossed, e),
                    found,
                ),
    {
        if self.octants.len() == 0 {
            None
        } else {
            let best = self.trace_octant(0, crosses, hit);
            proof {
                assert forall|
                    crossed: spec_fn(AABB) -> bool,
                    found: spec_fn(usize) -> Option<(u64, P)>,
                |
                    #![trigger computes(*crosses, crossed), computes(*hit, found)]
                    computes(*crosses, crossed) && computes(*hit, found) implies is_nearest(
                    best,
                    |e: usize| self.in_tree(crossed, e),
                    found,
                ) by {
                    lemma_nearest_among_same(
                        best,
                        |e: usize| tested_under(self.octants@, crossed, 0, e),
                        |e: usize| self.in_tree(crossed, e),
                        found,
                    );
                }
            }
            best
        }
    }

    /// The nearest hit of a ray in the scene: the nearest among the entities
    /// listed in the leaves that the query comes to and the entities without
    /// a box. `crosses` is the ray's box test, `hit` its surface test for the
    /// entity at a position of the scene's list.
    pub fn find_intersection<P, B: Fn(AABB) -> bool, H: Fn(usize) -> Option<(u64, P)>>(
        &self,
        crosses: B,
        hit: H,
    ) -> (best: Option<Intersection<P>>)
        requires
            forall|b: AABB| crosses.requires((b,)),
            forall|e: usize| e < self.entities().len() ==> hit.requires((e,)),
        ensures
            given_by(best, hit, self.entities().len()),
            forall|crossed: spec_fn(AABB) -> bool, found: spec_fn(usize) -> Option<(u64, P)>|
                #![trigger computes(crosses, crossed), computes(hit, found)]
                computes(crosses, crossed) && computes(hit, found) ==> is_nearest(
                    best,
                    |e: usize| self.tested(crossed, e),
                    found,
                ),
    {
        proof {
            use_type_invariant(self);
            lemma_partition(self.entities@, self.entities@.len());
        }
        let octree_result = self.trace_root(&crosses, &hit);
        let mut best_result: Option<Intersection<P>> = None;
        let mut j: usize = 0;
        while j < self.boundless_entities.len()
            invariant
                j <= self.boundless_entities@.len(),
                forall|e: usize| e < self.entities@.len() ==> hit.requires((e,)),
                forall|k: int|
                    0 <= k < self.boundless_entities@.len() ==> (
                    #[trigger] self.boundless_entities@[k]) < self.entities@.len(),
                given_by(best_result, hit, self.entities@.len()),
                forall|found: spec_fn(usize) -> Option<(u64, P)>| #[trigger]
                    computes(hit, found) ==> is_nearest(
                        best_result,
                        |e: usize| in_prefix(self.boundless_entities@, j as int, e),
                        found,
                    ),
            decreases self.boundless_entities@.len() - j,
        {
            let e = self.boundless_entities[j];
            let answer = hit(e);
            let ghost before = best_result;
            let candidate = match answer {
                Some((distance, detail)) => Some(Intersection { entity: e, distance, detail }),
                None => None,
            };
            best_result = nearer(best_result, candidate);
            proof {
                let list = self.boundless_entities@;
                assert(hit.ensures((e,), answer));
                lemma_prefix_grows(list, j as int);
                assert forall|found: spec_fn(usize) -> Option<(u64, P)>| #[trigger]
                    computes(hit, found) implies is_nearest(
                    best_result,
                    |x: usize| in_prefix(list, j + 1, x),
                    found,
                ) by {
                    assert(found(e) == answer);
                    assert(is_nearest(candidate, |x: usize| x == e, found));
                    lemma_nearer_merges(
                        before,
                        candidate,
                        |x: usize| in_prefix(list, j as int, x),
                        |x: usize| x == e,
                        |x: usize| in_prefix(list, j + 1, x),
                        found,
                    );
                }
            }
            j += 1;
        }
        let best = nearer(octree_result, best_result);
        proof {
            let list = self.boundless_entities@;
            assert forall|crossed: spec_fn(AABB) -> bool, found: spec_fn(usize) -> Option<(u64, P)>|
                #![trigger computes(crosses, crossed), computes(hit, found)]
                computes(crosses, crossed) && computes(hit, found) implies is_nearest(
                best,
                |e: usize| self.tested(crossed, e),
                found,
            ) by {
                assert forall|e: usize| #[trigger]
                    self.tested(crossed, e) <==> self.in_tree(crossed, e) || in_prefix(
                        list,
                        j as int,
                        e,
                    ) by {
                    if in_prefix(list, j as int, e) {
                        let w = choose|w: int| 0 <= w < j && list[w] == e;
                        assert(list[w] == e);
                    }
                    if list.contains(e) {
                        let w = choose|w: int| 0 <= w < list.len() && list[w] == e;
                        assert(in_prefix(list, j as int, e));
                    }
                }
                lemma_nearer_merges(
                    octree_result,
                    best_result,
                    |e: usize| self.in_tree(crossed, e),
                    |e: usize| in_prefix(list, j as int, e),
                    |e: usize| self.tested(crossed, e),
                    found,
                );
            }
        }
        best
    }

    /// The nearest hit among the entities that a query tests from the node
    /// `octant_id` downwards.
    fn trace_octant<P, B: Fn(AABB) -> bool, H: Fn(usize) -> Option<(u64, P)>>(
        &self,
        octant_id: usize,
        crosses: &B,
        hit: &H,
    ) -> (best: Option<Intersection<P>>)
        requires
            octant_id < self.octants@.len(),
            forall|b: AABB| crosses.requires((b,)),
            forall|e: usize| e < self.entities@.len() ==> hit.requires((e,)),
        ensures
            given_by(best, *hit, self.entities@.len()),
            forall|crossed: spec_fn(AABB) -> bool, found: spec_fn(usize) -> Option<(u64, P)>|
                #![trigger computes(*crosses, crossed), computes(*hit, found)]
                computes(*crosses, crossed) && computes(*hit, found) ==> is_nearest(
                    best,
                    |e: usize| tested_under(self.octants@, crossed, octant_id as int, e),
                    found,
                ),
        decreases self.octants@.len() - octant_id,
    {
        proof {
            use_type_invariant(self);
        }
        let ghost octants = self.octants@;
        let ghost scene = self.entities@;
        let ghost o = octant_id as int;
        let octant = &self.octants[octant_id];
        assert(node_ok(octants, scene, self.limits(), o));
        let through = crosses(octant.bounds);
        assert(crosses.ensures((octant.bounds,), through));
        if !through {
            proof {
                assert forall|
                    crossed: spec_fn(AABB) -> bool,
                    found: spec_fn(usize) -> Option<(u64, P)>,
                |
                    #![trigger computes(*crosses, crossed), computes(*hit, found)]
                    computes(*crosses, crossed) && computes(*hit, found) implies is_nearest(
                    None,
                    |e: usize| tested_under(octants, crossed, o, e),
                    found,
                ) by {
                    assert(!crossed(octant.bounds));
                    assert forall|e: usize| !tested_under(octants, crossed, o, e) by {
                        lemma_nothing_tested_when_missed(octants, crossed, o, e);
                    }
                }
            }
            return None;
        }
        let mut best: Option<Intersection<P>> = None;
        if octant.children.len() == 0 {
            let mut j: usize = 0;
            while j < octant.entities.len()
                invariant
                    j <= octant.entities@.len(),
                    octant.entities@ == octant.assigned@,
                    list_ok(octant.assigned@, scene),
                    scene == self.entities@,
                    forall|e: usize| e < self.entities@.len() ==> hit.requires((e,)),
                    given_by(best, *hit, self.entities@.len()),
                    forall|found: spec_fn(usize) -> Option<(u64, P)>| #[trigger]
                        computes(*hit, found) ==> is_nearest(
                            best,
                            |e: usize| in_prefix(octant.entities@, j as int, e),
                            found,
                        ),
                decreases octant.entities@.len() - j,
            {
                let e = octant.entities[j];
                assert(octant.assigned@[j as int] == e);
                let answer = hit(e);
                let ghost before = best;
                let candidate = match answer {
                    Some((distance, detail)) => Some(Intersection { entity: e, distance, detail }),
                    None => None,
                };
                best = nearer(best, candidate);
                proof {
                    assert(hit.ensures((e,), answer));
                    lemma_prefix_grows(octant.entities@, j as int);
                    assert forall|found: spec_fn(usize) -> Option<(u64, P)>| #[trigger]
                        computes(*hit, found) implies is_nearest(
                        best,
                        |x: usize| in_prefix(octant.entities@, j + 1, x),
                        found,
                    ) by {
                        assert(found(e) == answer);
                        assert(is_nearest(candidate, |x: usize| x == e, found));
                        lemma_nearer_merges(
                            before,
                            candidate,
                            |x: usize| in_prefix(octant.entities@, j as int, x),
                            |x: usize| x == e,
                            |x: usize| in_prefix(octant.entities@, j + 1, x),
                            found,
                        );
                    }
                }
                j += 1;
            }
            proof {
                assert forall|
                    crossed: spec_fn(AABB) -> bool,
                    found: spec_fn(usize) -> Option<(u64, P)>,
                |
                    #![trigger computes(*crosses, crossed), computes(*hit, found)]
                    computes(*crosses, crossed) && computes(*hit, found) implies is_nearest(
                    best,
                    |e: usize| tested_under(octants, crossed, o, e),
                    found,
                ) by {
                    assert(crossed(octant.bounds));
                    assert forall|e: usize| #[trigger]
                        tested_under(octants, crossed, o, e) <==> in_prefix(
                            octant.entities@,
                            j as int,
                            e,
                        ) by {
                        lemma_tested_in_leaf(octants, scene, self.limits(), crossed, o, e);
                        if in_prefix(octant.entities@, j as int, e) {
                            let w = choose|w: int| 0 <= w < j && octant.entities@[w] == e;
                            assert(octant.entities@[w] == e);
                        }
                    }
                    lemma_nearest_among_same(
                        best,
                        |e: usize| in_prefix(octant.entities@, j as int, e),
                        |e: usize| tested_under(octants, crossed, o, e),
                        found,
                    );
                }
            }
        } else {
            let mut k: usize = 0;
            while k < octant.children.len()
                invariant
                    k <= octant.children@.len(),
                    octant == self.octants@[o],
                    octants == self.octants@,
                    scene == self.entities@,
                    o == octant_id,
                    0 <= o < octants.len(),
                    node_ok(octants, scene, self.limits(), o),
                    !is_leaf(octants[o]),
                    forall|b: AABB| crosses.requires((b,)),
                    forall|e: usize| e < self.entities@.len() ==> hit.requires((e,)),
                    given_by(best, *hit, self.entities@.len()),
                    forall|crossed: spec_fn(AABB) -> bool, found: spec_fn(usize) -> Option<(u64, P)>|
                        #![trigger computes(*crosses, crossed), computes(*hit, found)]
                        computes(*crosses, crossed) && computes(*hit, found) ==> is_nearest(
                            best,
                            |e: usize| under_some(octants, crossed, octant.children@, k as int, e),
                            found,
                        ),
                decreases octant.children@.len() - k,
            {
                let child = octant.children[k];
                assert(child_ok(octants, scene, o, k as int));
                let below = self.trace_octant(child, crosses, hit);
                let ghost before = best;
                best = nearer(best, below);
                proof {
                    assert forall|
                        crossed: spec_fn(AABB) -> bool,
                        found: spec_fn(usize) -> Option<(u64, P)>,
                    |
                        #![trigger computes(*crosses, crossed), computes(*hit, found)]
                        computes(*crosses, crossed) && computes(*hit, found) implies is_nearest(
                        best,
                        |e: usize| under_some(octants, crossed, octant.children@, k + 1, e),
                        found,
                    ) by {
                        lemma_under_some_grows(octants, crossed, octant.children@, k as int);
                        lemma_nearer_merges(
                            before,
                            below,
                            |x: usize| under_some(octants, crossed, octant.children@, k as int, x),
                            |x: usize| tested_under(octants, crossed, child as int, x),
                            |x: usize| under_some(octants, crossed, octant.children@, k + 1, x),
                            found,
                        );
                    }
                }
                k += 1;
            }
            proof {
                assert forall|
                    crossed: spec_fn(AABB) -> bool,
                    found: spec_fn(usize) -> Option<(u64, P)>,
                |
                    #![trigger computes(*crosses, crossed), computes(*hit, found)]
                    computes(*crosses, crossed) && computes(*hit, found) implies is_nearest(
                    best,
                    |e: usize| tested_under(octants, crossed, o, e),
                    found,
                ) by {
                    assert(crossed(octant.bounds));
                    assert forall|e: usize| #[trigger]
                        tested_under(octants, crossed, o, e) <==> under_some(
                            octants,
                            crossed,
                            octant.children@,
                            k as int,
                            e,
                        ) by {
                        lemma_tested_in_children(octants, scene, self.limits(), crossed, o, e);
                    }
                    lemma_nearest_among_same(
                        best,
                        |e: usize| under_some(octants, crossed, octant.children@, k as int, e),
                        |e: usize| tested_under(octants, crossed, o, e),
                        found,
                    );
                }
            }
        }
        best
    }
}

/// A list's first `n + 1` entries are its first `n` and the one after.
proof fn lemma_prefix_grows(list: Seq<usize>, n: int)
    requires
        0 <= n < list.len(),
    ensures
        forall|x: usize| #[trigger]
            in_prefix(list, n + 1, x) <==> in_prefix(list, n, x) || x == list[n],
{
    assert forall|x: usize| #[trigger]
        in_prefix(list, n + 1, x) <==> in_prefix(list, n, x) || x == list[n] by {
        if in_prefix(list, n + 1, x) {
            let w = choose|w: int| 0 <= w < n + 1 && list[w] == x;
            if w < n {
                assert(in_prefix(list, n, x));
            }
        }
        if in_prefix(list, n, x) {
            let w = choose|w: int| 0 <= w < n && list[w] == x;
            assert(list[w] == x);
        }
        if x == list[n] {
            assert(list[n] == x);
        }
    }
}

/// What a query tests below the first `n + 1` of some nodes is what it
/// tests below the first `n` and below the one after.
proof fn lemma_under_some_grows(
    octants: Seq<Octant>,
    crossed: spec_fn(AABB) -> bool,
    children: Seq<usize>,
    n: int,
)
    requires
        0 <= n < children.len(),
    ensures
        forall|x: usize| #[trigger]
            under_some(octants, crossed, children, n + 1, x) <==> under_some(
                octants,
                crossed,
                children,
                n,
                x,
            ) || tested_under(octants, crossed, children[n] as int, x),
{
    assert forall|x: usize| #[trigger]
        under_some(octants, crossed, children, n + 1, x) <==> under_some(
            octants,
            crossed,
            children,
            n,
            x,
        ) || tested_under(octants, crossed, children[n] as int, x) by {
        if under_some(octants, crossed, children, n + 1, x) {
            let w = choose|w: int|
                0 <= w < n + 1 && #[trigger] tested_under(octants, crossed, children[w] as int, x);
            if w < n {
                assert(under_some(octants, crossed, children, n, x));
            }
        }
        if under_some(octants, crossed, children, n, x) {
            let w = choose|w: int|
                0 <= w < n && #[trigger] tested_under(octants, crossed, children[w] as int, x);
            assert(tested_under(octants, crossed, children[w] as int, x));
        }
        if tested_under(octants, crossed, children[n] as int, x) {
            assert(tested_under(octants, crossed, children[n] as int, x));
        }
    }
}

/// The point `p` lies in the box `bounds`, and the ray crosses the box of
/// every node of the tree that holds `p`.
pub open spec fn reaches(tree: Octree, crossed: spec_fn(AABB) -> bool, bounds: AABB, p: Point3) -> bool {
    &&& bounds.holds(p)
    &&& forall|o: int|
        0 <= o < tree.octant_count() && tree.octant_bounds(o).holds(p) ==> crossed(
            #[trigger] tree.octant_bounds(o),
        )
}

/// The box test does not prune what the surface test would find: a ray that
/// hits an entity with a box does so at some point of that box, and crosses
/// the box of every node of the tree that holds the point.
pub open spec fn box_test_sound<P>(
    tree: Octree,
    crossed: spec_fn(AABB) -> bool,
    found: spec_fn(usize) -> Option<(u64, P)>,
) -> bool {
    forall|e: usize|
        e < tree.entities().len() && (#[trigger] found(e)) is Some ==> (
        tree.entities()[e as int].bounds matches Some(b) ==> exists|p: Point3|
            reaches(tree, crossed, b, p))
}

/// A box test is sound where it says two things of a ray. A ray that
/// crosses a box crosses every box around that box. And a ray that hits an
/// entity with a box passes through a point of that box: it crosses the box
/// that holds this point and nothing else.
pub proof fn lemma_box_test_sound<P>(
    tree: Octree,
    crossed: spec_fn(AABB) -> bool,
    found: spec_fn(usize) -> Option<(u64, P)>,
)
    requires
        forall|inner: AABB, outer: AABB|
            #![trigger crossed(inner), crossed(outer)]
            outer.encloses(inner) && crossed(inner) ==> crossed(outer),
        forall|e: usize|
            e < tree.entities().len() && (#[trigger] found(e)) is Some ==> (
            tree.entities()[e as int].bounds matches Some(b) ==> exists|p: Point3|
                b.holds(p) && #[trigger] crossed(AABB::at(p))),
    ensures
        box_test_sound(tree, crossed, found),
{
    assert forall|e: usize| e < tree.entities().len() && (#[trigger] found(e)) is Some implies (
    tree.entities()[e as int].bounds matches Some(b) ==> exists|p: Point3|
        reaches(tree, crossed, b, p)) by {
        if tree.entities()[e as int].bounds is Some {
            let b = tree.entities()[e as int].bounds.unwrap();
            let p = choose|p: Point3| b.holds(p) && #[trigger] crossed(AABB::at(p));
            assert forall|o: int|
                0 <= o < tree.octant_count() && tree.octant_bounds(o).holds(p) implies crossed(
                #[trigger] tree.octant_bounds(o),
            ) by {
                assert(tree.octant_bounds(o).encloses(AABB::at(p)));
            }
            assert(reaches(tree, crossed, b, p));
        }
    }
}

/// A query that comes to a node tests every entity handed to that node which
/// the ray hits at a point of the node's box.
proof fn lemma_descend(
    octants: Seq<Octant>,
    entities: Seq<SceneEntity>,
    limits: Limits,
    crossed: spec_fn(AABB) -> bool,
    o: int,
    e: usize,
    p: Point3,
)
    requires
        nodes_ok(octants, entities, limits),
        proper_boxes(entities),
        0 <= o < octants.len(),
        octants[o].assigned@.contains(e),
        octants[o].bounds.holds(p),
        e < entities.len(),
        entities[e as int].bounds matches Some(b) && b.holds(p),
        forall|n: int|
            0 <= n < octants.len() && octants[n].bounds.holds(p) ==> crossed(
                (#[trigger] octants[n]).bounds,
            ),
    ensures
        tested_under(octants, crossed, o, e),
    decreases octants.len() - o,
{
    let node = octants[o];
    let bounds = entities[e as int].bounds.unwrap();
    assert(node_ok(octants, entities, limits, o));
    assert(crossed(node.bounds));
    if is_leaf(node) {
        assert(path_crossed(octants, crossed, o, o));
    } else {
        lemma_octants_cover(node.bounds, node.cut@, p);
        let k = choose|k: int|
            0 <= k < 8 && (#[trigger] node.bounds.spec_octant_at(node.cut@, k)).holds(p);
        assert(child_ok(octants, entities, o, k));
        let c = node.children@[k] as int;
        let part = octants[c].bounds;
        assert(node_ok(octants, entities, limits, c));
        lemma_intersects_iff_common_point(bounds, part);
        assert(bounds.holds(p) && part.holds(p));
        assert(touches(entities, e, part));
        let j = choose|j: int| 0 <= j < node.assigned@.len() && node.assigned@[j] == e;
        lemma_overlapping_keeps(node.assigned@, entities, part, node.assigned@.len(), j);
        lemma_descend(octants, entities, limits, crossed, c, e, p);
        let l = choose|l: int|
            #[trigger] path_crossed(octants, crossed, c, l) && is_leaf(octants[l])
                && octants[l].entities@.contains(e);
        lemma_path_step_up(octants, entities, limits, crossed, o, k, l);
    }
}

/// Where the box test is sound, a query tests every entity that the ray
/// hits.
pub proof fn lemma_hit_entities_are_tested<P>(
    tree: Octree,
    crossed: spec_fn(AABB) -> bool,
    found: spec_fn(usize) -> Option<(u64, P)>,
    e: usize,
)
    requires
        tree.wf(),
        box_test_sound(tree, crossed, found),
        e < tree.entities().len(),
        found(e) is Some,
    ensures
        tree.tested(crossed, e),
{
    let entities = tree.entities@;
    let octants = tree.octants@;
    lemma_partition(entities, entities.len());
    match entities[e as int].bounds {
        None => {
            assert(boundless_indices(entities, entities.len()).contains(e));
        },
        Some(bounds) => {
            let p = choose|p: Point3| reaches(tree, crossed, bounds, p);
            assert forall|n: int| 0 <= n < octants.len() && octants[n].bounds.holds(p) implies crossed(
                (#[trigger] octants[n]).bounds,
            ) by {
                assert(tree.octant_bounds(n).holds(p));
            }
            let listed = bounded_indices(entities, entities.len());
            let boxes = bounded_boxes(entities, entities.len());
            assert(listed.contains(e));
            let k = choose|k: int| 0 <= k < listed.len() && listed[k] == e;
            assert(boxes[k] == bounds);
            assert forall|i: int| 0 <= i < boxes.len() implies (#[trigger] boxes[i]).wf() by {
                let x = listed[i];
                assert(entities[x as int].bounds == Some(boxes[i]));
            }
            lemma_union_encloses(boxes, boxes.len());
            assert(octants[0].bounds.encloses(boxes[k]));
            lemma_descend(octants, entities, tree.limits(), crossed, 0, e, p);
        },
    }
}

/// A query tests nothing but entities of the scene.
pub proof fn lemma_tested_are_entities(tree: Octree, crossed: spec_fn(AABB) -> bool, e: usize)
    requires
        tree.wf(),
        tree.tested(crossed, e),
    ensures
        e < tree.entities().len(),
{
    let entities = tree.entities@;
    lemma_partition(entities, entities.len());
    if tree.boundless_entities@.contains(e) {
        let w = choose|w: int|
            0 <= w < tree.boundless_entities@.len() && tree.boundless_entities@[w] == e;
        assert(tree.boundless_entities@[w] < entities.len());
    } else {
        lemma_tested_is_entity(tree.octants@, entities, tree.limits(), crossed, 0, e);
    }
}

/// The index agrees with an exhaustive scan. Where the box test is sound,
/// what a query of the tree returns is a nearest hit among all entities of
/// the scene: just what testing every one of them in turn returns, up to the
/// choice between hits at the same distance.
pub proof fn lemma_query_matches_scan<P>(
    tree: Octree,
    crossed: spec_fn(AABB) -> bool,
    found: spec_fn(usize) -> Option<(u64, P)>,
    result: Option<Intersection<P>>,
)
    requires
        tree.wf(),
        box_test_sound(tree, crossed, found),
        is_nearest(result, |e: usize| tree.tested(crossed, e), found),
    ensures
        is_nearest(result, |e: usize| e < tree.entities().len(), found),
{
    let tested = |e: usize| tree.tested(crossed, e);
    let all = |e: usize| e < tree.entities().len();
    match result {
        Some(hit) => {
            assert(tested(hit.entity));
            lemma_tested_are_entities(tree, crossed, hit.entity);
            assert forall|e: usize| #[trigger] all(e) && found(e) is Some implies hit.distance
                <= found(e).unwrap().0 by {
                lemma_hit_entities_are_tested(tree, crossed, found, e);
                assert(tested(e));
            }
        },
        None => {
            assert forall|e: usize| #[trigger] all(e) implies found(e) is None by {
                if found(e) is Some {
                    lemma_hit_entities_are_tested(tree, crossed, found, e);
                    assert(tested(e));
                }
            }
        },
    }
}

/// The index and the exhaustive scan agree. Where the box test is sound, a
/// query of the tree and a scan of all entities either both miss or both
/// hit, and then at the same distance; they hit the same entity unless
/// another one lies at that very distance.
pub proof fn lemma_index_agrees_with_scan<P>(
    tree: Octree,
    crossed: spec_fn(AABB) -> bool,
    found: spec_fn(usize) -> Option<(u64, P)>,
    indexed: Option<Intersection<P>>,
    scanned: Option<Intersection<P>>,
)
    requires
        tree.wf(),
        box_test_sound(tree, crossed, found),
        is_nearest(indexed, |e: usize| tree.tested(crossed, e), found),
        is_nearest(scanned, |e: usize| e < tree.entities().len(), found),
    ensures
        indexed is Some <==> scanned is Some,
        indexed is Some ==> indexed.unwrap().distance == scanned.unwrap().distance,
        indexed is Some && (forall|e: usize|
            e < tree.entities().len() && (#[trigger] found(e)) is Some && found(e).unwrap().0
                == indexed.unwrap().distance ==> e == indexed.unwrap().entity)
            ==> indexed.unwrap().entity == scanned.unwrap().entity,
{
    lemma_query_matches_scan(tree, crossed, found, indexed);
    lemma_nearest_distance_unique(
        indexed,
        scanned,
        |e: usize| e < tree.entities().len(),
        found,
    );
    if indexed is Some {
        let all = |e: usize| e < tree.entities().len();
        assert(all(scanned.unwrap().entity));
        assert(found(scanned.unwrap().entity) is Some);
    }
}

/// The root of a tree was handed every entity that has a box, in the
/// order of the scene, and its box is the smallest around theirs. A scene
/// in which no entity has a box has a tree without nodes.
pub proof fn lemma_root_shape(tree: Octree)
    requires
        tree.wf(),
    ensures
        tree.octant_count() == 0 <==> bounded_indices(
            tree.entities(),
            tree.entities().len(),
        ).len() == 0,
        tree.octant_count() > 0 ==> {
            &&& tree.octant_level(0) == 0
            &&& tree.octant_assigned(0) == bounded_indices(tree.entities(), tree.entities().len())
            &&& tree.octant_bounds(0) == AABB::union_of(
                bounded_boxes(tree.entities(), tree.entities().len()),
                bounded_boxes(tree.entities(), tree.entities().len()).len(),
            )
        },
{
    if tree.octants@.len() > 0 {
        assert(node_ok(tree.octants@, tree.entities@, tree.limits(), 0));
    }
}

/// The shape of each node of a tree. A node is cut exactly when it was
/// handed more entities than the threshold and lies above the depth limit.
/// A node that was not cut lists the entities it was handed. A node that
/// was cut lists none; it was cut through a point of its box; its eight
/// children are the octants that the cut left of its box, one level
/// further down, and each was handed the entities of the node whose box
/// meets the child's, so that an entity astride a cut is handed to every
/// child it reaches into.
pub proof fn lemma_octant_shape(tree: Octree, o: int)
    requires
        tree.wf(),
        0 <= o < tree.octant_count(),
    ensures
        tree.octant_bounds(o).wf(),
        tree.octant_level(o) <= tree.spec_depth_limit(),
        tree.octant_children(o).len() > 0 <==> tree.octant_assigned(o).len() > tree.spec_threshold()
            && tree.octant_level(o) < tree.spec_depth_limit(),
        tree.octant_children(o).len() == 0 ==> tree.octant_entities(o) == tree.octant_assigned(o),
        tree.octant_children(o).len() > 0 ==> {
            &&& tree.octant_entities(o).len() == 0
            &&& tree.octant_children(o).len() == 8
            &&& tree.octant_bounds(o).holds(tree.octant_cut(o))
            &&& forall|k: int|
                0 <= k < 8 ==> {
                    let c = #[trigger] tree.octant_children(o)[k] as int;
                    &&& o < c < tree.octant_count()
                    &&& tree.octant_level(c) == tree.octant_level(o) + 1
                    &&& tree.octant_bounds(c) == tree.octant_bounds(o).spec_octant_at(
                        tree.octant_cut(o),
                        k,
                    )
                    &&& tree.octant_assigned(c) == overlapping(
                        tree.octant_assigned(o),
                        tree.entities(),
                        tree.octant_bounds(c),
                        tree.octant_assigned(o).len(),
                    )
                }
        },
{
    let octants = tree.octants@;
    assert(node_ok(octants, tree.entities@, tree.limits(), o));
    assert(settled(octants[o], tree.limits()));
    if octants[o].children@.len() > 0 {
        assert forall|k: int| 0 <= k < 8 implies {
            let c = #[trigger] tree.octant_children(o)[k] as int;
            &&& o < c < tree.octant_count()
            &&& tree.octant_level(c) == tree.octant_level(o) + 1
            &&& tree.octant_bounds(c) == tree.octant_bounds(o).spec_octant_at(
                tree.octant_cut(o),
                k,
            )
            &&& tree.octant_assigned(c) == overlapping(
                tree.octant_assigned(o),
                tree.entities(),
                tree.octant_bounds(c),
                tree.octant_assigned(o).len(),
            )
        } by {
            assert(child_ok(octants, tree.entities@, o, k));
            let c = octants[o].children@[k] as int;
            assert(node_ok(octants, tree.entities@, tree.limits(), c));
        }
    }
}

/// Whether a query that has come to the node `o` tests entity `e` there or
/// further down. Where the ray misses the node's box it tests nothing; in a
/// node that was not cut it tests the entities listed; below a node that
/// was cut it tests what it tests below any of the children.
pub open spec fn tested_below(tree: Octree, crossed: spec_fn(AABB) -> bool, o: int, e: usize) -> bool
    decreases tree.octant_count() - o,
{
    if o < 0 || o >= tree.octant_count() || !crossed(tree.octant_bounds(o)) {
        false
    } else if tree.octant_children(o).len() == 0 {
        tree.octant_entities(o).contains(e)
    } else {
        exists|k: int|
            0 <= k < tree.octant_children(o).len() && o < (#[trigger] tree.octant_children(o)[k])
                < tree.octant_count() && tested_below(
                tree,
                crossed,
                tree.octant_children(o)[k] as int,
                e,
            )
    }
}

proof fn lemma_tested_below(tree: Octree, crossed: spec_fn(AABB) -> bool, o: int, e: usize)
    requires
        tree.wf(),
        0 <= o < tree.octant_count(),
    ensures
        tested_under(tree.octants@, crossed, o, e) <==> tested_below(tree, crossed, o, e),
    decreases tree.octant_count() - o,
{
    let octants = tree.octants@;
    let scene = tree.entities@;
    let limit = tree.limits();
    assert(node_ok(octants, scene, limit, o));
    if !crossed(octants[o].bounds) {
        lemma_nothing_tested_when_missed(octants, crossed, o, e);
    } else if is_leaf(octants[o]) {
        lemma_tested_in_leaf(octants, scene, limit, crossed, o, e);
    } else {
        let children = octants[o].children@;
        lemma_tested_in_children(octants, scene, limit, crossed, o, e);
        if under_some(octants, crossed, children, children.len() as int, e) {
            let k = choose|k: int|
                0 <= k < children.len() && #[trigger] tested_under(
                    octants,
                    crossed,
                    children[k] as int,
                    e,
                );
            assert(child_ok(octants, scene, o, k));
            lemma_tested_below(tree, crossed, children[k] as int, e);
            assert(o < tree.octant_children(o)[k] < tree.octant_count());
        }
        if tested_below(tree, crossed, o, e) {
            let k = choose|k: int|
                0 <= k < tree.octant_children(o).len() && o < (#[trigger] tree.octant_children(
                    o,
                )[k]) < tree.octant_count() && tested_below(
                    tree,
                    crossed,
                    tree.octant_children(o)[k] as int,
                    e,
                );
            lemma_tested_below(tree, crossed, children[k] as int, e);
            assert(tested_under(octants, crossed, children[k] as int, e));
        }
    }
}

/// What a query tests in the tree is what it tests from the root down.
pub proof fn lemma_in_tree(tree: Octree, crossed: spec_fn(AABB) -> bool, e: usize)
    requires
        tree.wf(),
    ensures
        tree.in_tree(crossed, e) <==> tested_below(tree, crossed, 0, e),
{
    if tree.octants@.len() > 0 {
        lemma_tested_below(tree, crossed, 0, e);
    }
}

/// Besides what it tests in the tree, a query tests the entities without a
/// box, and nothing else.
pub proof fn lemma_tested(tree: Octree, crossed: spec_fn(AABB) -> bool, e: usize)
    requires
        tree.wf(),
    ensures
        tree.tested(crossed, e) <==> tested_below(tree, crossed, 0, e) || (e
            < tree.entities().len() && tree.entities()[e as int].bounds is None),
{
    lemma_in_tree(tree, crossed, e);
    lemma_partition(tree.entities@, tree.entities@.len());
    let list = tree.boundless_entities@;
    if list.contains(e) {
        let w = choose|w: int| 0 <= w < list.len() && list[w] == e;
        assert(list[w] < tree.entities@.len());
    }
}

} // verus!
