use crate::geom::AABB;
use vstd::prelude::*;

verus! {

/// The kinds of entity a scene is made of.
#[derive(Clone, Copy, Debug, PartialEq, Eq, Structural)]
pub enum EntityType {
    Sphere,
    Plane,
    Model,
    /// A single face of a model's mesh.
    Triangle,
}

/// What a scene knows of one entity without looking at its surface.
#[derive(Clone, Copy, Debug, PartialEq, Eq, Structural)]
pub struct SceneEntity {
    /// The entity's identity, unique within its scene.
    pub id: u32,
    pub kind: EntityType,
    /// The box around the entity, or `None` for one without finite bounds,
    /// which every query has to test.
    pub bounds: Option<AABB>,
    /// Whether the entity's material gives off light.
    pub emissive: bool,
}

/// The next free identity for an entity of a scene: one more than the last
/// one handed out, which `id` keeps count of.
pub fn next_id(id: &mut u32) -> (next: u32)
    requires
        *old(id) < u32::MAX,
    ensures
        *final(id) == *old(id) + 1,
        next == *final(id),
{
    *id = *id + 1;
    *id
}

/// No two entities of the scene have the same identity.
pub open spec fn distinct_ids(entities: Seq<SceneEntity>) -> bool {
    forall|i: int, j: int|
        0 <= i < entities.len() && 0 <= j < entities.len() && i != j ==> (
        #[trigger] entities[i]).id != (#[trigger] entities[j]).id
}

/// Whether every entity of the scene has an identity of its own.
pub fn ids_are_unique(entities: &Vec<SceneEntity>) -> (unique: bool)
    ensures
        unique == distinct_ids(entities@),
{
    let mut i: usize = 0;
    while i < entities.len()
        invariant
            i <= entities@.len(),
            forall|a: int, b: int|
                0 <= a < i && 0 <= b < entities@.len() && a != b ==> (#[trigger] entities@[a]).id != (
                #[trigger] entities@[b]).id,
        decreases entities@.len() - i,
    {
        let mut j: usize = 0;
        while j < entities.len()
            invariant
                i < entities@.len(),
                j <= entities@.len(),
                forall|b: int|
                    0 <= b < j && b != i ==> entities@[i as int].id != (#[trigger] entities@[b]).id,
            decreases entities@.len() - j,
        {
            if i != j && entities[i].id == entities[j].id {
                return false;
            }
            j += 1;
        }
        i += 1;
    }
    true
}

/// The point where a ray meets an entity.
///
/// `distance` is a key that grows with the length of the ray up to the hit;
/// `detail` is whatever else the caller's surface test found there, carried
/// through untouched.
#[derive(Clone, Copy, Debug)]
pub struct Intersection<P> {
    /// The position of the entity in its scene's list.
    pub entity: usize,
    pub distance: u64,
    pub detail: P,
}

/// The test `f` computes the function `g`: whatever it returns for an
/// argument is what `g` gives for it.
///
/// Contracts say what a query finds for every function that its tests
/// compute. A caller who knows what a test computes learns from them what
/// the query has found.
pub open spec fn computes<A, R, F: Fn(A) -> R>(f: F, g: spec_fn(A) -> R) -> bool {
    forall|a: A, r: R| f.ensures((a,), r) ==> r == g(a)
}

/// `result`, if it is a hit, is one that the surface test `hit` gave for an
/// entity at a position below `count`.
pub open spec fn given_by<P, H: Fn(usize) -> Option<(u64, P)>>(
    result: Option<Intersection<P>>,
    hit: H,
    count: nat,
) -> bool {
    result matches Some(h) ==> h.entity < count && hit.ensures(
        (h.entity,),
        Some((h.distance, h.detail)),
    )
}

/// `result` is a nearest hit among the entities picked out by `among`, where
/// `found` says for each entity whether the ray hits it and how far off:
/// a hit of one of them that none of the others beats, or nothing when the
/// ray hits none of them. Between hits at the same distance either may win.
pub open spec fn is_nearest<P>(
    result: Option<Intersection<P>>,
    among: spec_fn(usize) -> bool,
    found: spec_fn(usize) -> Option<(u64, P)>,
) -> bool {
    match result {
        Some(hit) => {
            &&& among(hit.entity)
            &&& found(hit.entity) == Some((hit.distance, hit.detail))
            &&& forall|e: usize| #[trigger]
                among(e) && found(e) is Some ==> hit.distance <= found(e).unwrap().0
        },
        None => forall|e: usize| #[trigger] among(e) ==> found(e) is None,
    }
}

/// The nearer of two optional hits; the first on a tie.
pub open spec fn spec_nearer<P>(a: Option<Intersection<P>>, b: Option<Intersection<P>>) -> Option<
    Intersection<P>,
> {
    match (a, b) {
        (Some(x), Some(y)) => if y.distance < x.distance {
            b
        } else {
            a
        },
        (Some(_), None) => a,
        (None, _) => b,
    }
}

/// Keeps the nearer of two optional hits; the first on a tie.
pub fn nearer<P>(a: Option<Intersection<P>>, b: Option<Intersection<P>>) -> (best: Option<
    Intersection<P>,
>)
    ensures
        best == spec_nearer(a, b),
{
    match (a, b) {
        (Some(x), Some(y)) => if y.distance < x.distance {
            Some(y)
        } else {
            Some(x)
        },
        (Some(x), None) => Some(x),
        (None, other) => other,
    }
}

/// Merging a nearest hit among one group of entities with a nearest hit
/// among another gives a nearest hit among both groups together.
pub proof fn lemma_nearer_merges<P>(
    a: Option<Intersection<P>>,
    b: Option<Intersection<P>>,
    first: spec_fn(usize) -> bool,
    second: spec_fn(usize) -> bool,
    both: spec_fn(usize) -> bool,
    found: spec_fn(usize) -> Option<(u64, P)>,
)
    requires
        is_nearest(a, first, found),
        is_nearest(b, second, found),
        forall|e: usize| #[trigger] both(e) <==> first(e) || second(e),
    ensures
        is_nearest(spec_nearer(a, b), both, found),
{
    let best = spec_nearer(a, b);
    match best {
        Some(hit) => {
            assert(both(hit.entity));
            assert forall|e: usize| #[trigger] both(e) && found(e) is Some implies hit.distance
                <= found(e).unwrap().0 by {
                if first(e) {
                } else {
                    assert(second(e));
                }
            }
        },
        None => {
            assert forall|e: usize| #[trigger] both(e) implies found(e) is None by {
                if first(e) {
                } else {
                    assert(second(e));
                }
            }
        },
    }
}

/// A nearest hit among some entities is a nearest hit among any group that
/// picks out the same ones.
pub proof fn lemma_nearest_among_same<P>(
    result: Option<Intersection<P>>,
    one: spec_fn(usize) -> bool,
    other: spec_fn(usize) -> bool,
    found: spec_fn(usize) -> Option<(u64, P)>,
)
    requires
        is_nearest(result, one, found),
        forall|e: usize| #[trigger] other(e) <==> one(e),
    ensures
        is_nearest(result, other, found),
{
    match result {
        Some(hit) => {
            assert(other(hit.entity) <==> one(hit.entity));
            assert forall|e: usize| #[trigger] other(e) && found(e) is Some implies hit.distance
                <= found(e).unwrap().0 by {
                assert(one(e));
            }
        },
        None => {
            assert forall|e: usize| #[trigger] other(e) implies found(e) is None by {
                assert(one(e));
            }
        },
    }
}

/// Two nearest hits among the same entities agree on whether there is a hit
/// and on its distance.
pub proof fn lemma_nearest_distance_unique<P>(
    a: Option<Intersection<P>>,
    b: Option<Intersection<P>>,
    among: spec_fn(usize) -> bool,
    found: spec_fn(usize) -> Option<(u64, P)>,
)
    requires
        is_nearest(a, among, found),
        is_nearest(b, among, found),
    ensures
        a is Some <==> b is Some,
        a is Some ==> a.unwrap().distance == b.unwrap().distance,
{
    if a is Some {
        let x = a.unwrap();
        assert(among(x.entity));
        if b is Some {
            let y = b.unwrap();
            assert(among(y.entity));
        }
    }
    if b is Some {
        let y = b.unwrap();
        assert(among(y.entity));
    }
}

/// A scene without an index: every query tests every entity.
pub struct NaiveScene {
    entities: Vec<SceneEntity>,
}

impl NaiveScene {
    /// The entities of the scene, in the order they were added.
    pub closed spec fn entities(&self) -> Seq<SceneEntity> {
        self.entities@
    }

    /// A scene without entities.
    pub fn new() -> (scene: NaiveScene)
        ensures
            scene.entities() == Seq::<SceneEntity>::empty(),
    {
        NaiveScene { entities: Vec::new() }
    }

    /// Appends an entity; its position in the list is what hits report.
    pub fn add(&mut self, entity: SceneEntity)
        ensures
            final(self).entities() == old(self).entities().push(entity),
    {
        self.entities.push(entity);
    }

    pub fn len(&self) -> (n: usize)
        ensures
            n == self.entities().len(),
    {
        self.entities.len()
    }

    /// The nearest hit of a ray among all entities of the scene. `hit` is the
    /// ray's surface test: for the entity at a position, the distance key of
    /// the hit and what was found there, or `None` for a miss.
    pub fn trace<P, H: Fn(usize) -> Option<(u64, P)>>(&self, hit: H) -> (best: Option<
        Intersection<P>,
    >)
        requires
            forall|e: usize| e < self.entities().len() ==> hit.requires((e,)),
        ensures
            given_by(best, hit, self.entities().len()),
            forall|found: spec_fn(usize) -> Option<(u64, P)>| #[trigger]
                computes(hit, found) ==> is_nearest(
                    best,
                    |e: usize| e < self.entities().len(),
                    found,
                ),
    {
        scan_all(self.entities.len(), &hit)
    }
}

/// The nearest hit among the entities at positions below `count`.
pub fn scan_all<P, H: Fn(usize) -> Option<(u64, P)>>(count: usize, hit: &H) -> (best: Option<
    Intersection<P>,
>)
    requires
        forall|e: usize| e < count ==> hit.requires((e,)),
    ensures
        given_by(best, *hit, count as nat),
        forall|found: spec_fn(usize) -> Option<(u64, P)>| #[trigger]
            computes(*hit, found) ==> is_nearest(best, |e: usize| e < count, found),
{
    let mut best: Option<Intersection<P>> = None;
    let mut i: usize = 0;
    while i < count
        invariant
            i <= count,
            forall|e: usize| e < count ==> hit.requires((e,)),
            given_by(best, *hit, count as nat),
            forall|found: spec_fn(usize) -> Option<(u64, P)>| #[trigger]
                computes(*hit, found) ==> is_nearest(best, |e: usize| e < i, found),
        decreases count - i,
    {
        let answer = hit(i);
        let ghost before = best;
        let candidate = match answer {
            Some((distance, detail)) => Some(Intersection { entity: i, distance, detail }),
            None => None,
        };
        best = nearer(best, candidate);
        proof {
            assert(hit.ensures((i,), answer));
            assert forall|found: spec_fn(usize) -> Option<(u64, P)>| #[trigger]
                computes(*hit, found) implies is_nearest(best, |e: usize| e < i + 1, found) by {
                assert(found(i) == answer);
                assert(is_nearest(candidate, |e: usize| e == i, found));
                lemma_nearer_merges(
                    before,
                    candidate,
                    |e: usize| e < i,
                    |e: usize| e == i,
                    |e: usize| e < i + 1,
                    found,
                );
            }
        }
        i += 1;
    }
    best
}

} // verus!
