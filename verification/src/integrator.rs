use crate::scene::computes;
use vstd::prelude::*;

verus! {

/// What a scene reports of the nearest surface along a ray: whose it is, how
/// light behaves there, and the rays that leave it.
///
/// The three rays start a little off the surface, so that they do not hit it
/// again. `material` is whatever the caller needs to colour the point.
#[derive(Clone, Copy, Debug)]
pub struct SurfaceHit<R, M> {
    /// The position of the entity in its scene's list.
    pub entity: usize,
    /// Light passes through; nothing of the surface's own colour is seen.
    pub transparent: bool,
    /// The surface mirrors some of the light that falls on it.
    pub reflective: bool,
    /// The ray bent through the surface.
    pub refracted: R,
    /// The ray mirrored at the surface.
    pub reflected: R,
    /// The ray towards the sampled point of the light.
    pub shadow: R,
    pub material: M,
}

/// Whether the light is seen from a surface: the surface is not the light's
/// own, and the first thing that the ray towards the light meets belongs to
/// the light.
pub open spec fn spec_light_visible(
    surface_entity: usize,
    shadow_hit: Option<usize>,
    light: Option<usize>,
) -> bool {
    match (light, shadow_hit) {
        (Some(l), Some(h)) => surface_entity != l && h == l,
        _ => false,
    }
}

/// Whether a surface needs the ray towards the light to be followed.
pub open spec fn spec_needs_shadow_ray(surface_entity: usize, light: Option<usize>) -> bool {
    match light {
        Some(l) => surface_entity != l,
        None => false,
    }
}

/// Whether a surface needs the ray towards the light to be followed: there
/// is a light, and the surface is not the light's own.
pub fn needs_shadow_ray(surface_entity: usize, light: Option<usize>) -> (needed: bool)
    ensures
        needed == spec_needs_shadow_ray(surface_entity, light),
{
    match light {
        Some(l) => surface_entity != l,
        None => false,
    }
}

/// Whether the light is seen from a surface, given the entity that the ray
/// towards the light meets first.
pub fn light_visible(surface_entity: usize, shadow_hit: Option<usize>, light: Option<usize>) -> (seen:
    bool)
    ensures
        seen == spec_light_visible(surface_entity, shadow_hit, light),
{
    match (light, shadow_hit) {
        (Some(l), Some(h)) => surface_entity != l && h == l,
        _ => false,
    }
}

/// The entity that a scene's answer names, if it names one.
pub open spec fn entity_of<R, M>(found: Option<SurfaceHit<R, M>>) -> Option<usize> {
    match found {
        Some(surface) => Some(surface.entity),
        None => None,
    }
}

/// The light gathered along a ray, followed through at most `depth_limit`
/// surfaces.
///
/// `find` gives the nearest surface along a ray; `combine` gives the colour
/// of a surface that is not transparent from its material, whether the light
/// is seen from it, and the light that comes in along the mirrored ray.
pub open spec fn radiance<R, M, C>(
    find: spec_fn(R) -> Option<SurfaceHit<R, M>>,
    combine: spec_fn(M, bool, C) -> C,
    black: C,
    light: Option<usize>,
    ray: R,
    depth_limit: nat,
) -> C
    decreases depth_limit,
{
    if depth_limit == 0 {
        black
    } else {
        match find(ray) {
            None => black,
            Some(surface) => {
                let deeper = (depth_limit - 1) as nat;
                if surface.transparent {
                    radiance(find, combine, black, light, surface.refracted, deeper)
                } else {
                    let mirrored = if surface.reflective {
                        radiance(find, combine, black, light, surface.reflected, deeper)
                    } else {
                        black
                    };
                    let seen = spec_needs_shadow_ray(surface.entity, light) && spec_light_visible(
                        surface.entity,
                        entity_of(find(surface.shadow)),
                        light,
                    );
                    combine(surface.material, seen, mirrored)
                }
            },
        }
    }
}

/// The way of colouring `combine` computes the function `g`: whatever it
/// returns for a surface is what `g` gives for it.
pub open spec fn colours<M, C, K: Fn(M, bool, C) -> C>(combine: K, g: spec_fn(M, bool, C) -> C) -> bool {
    forall|m: M, seen: bool, mirrored: C, c: C|
        combine.ensures((m, seen, mirrored), c) ==> c == g(m, seen, mirrored)
}

/// Nothing is gathered at depth zero, whatever the ray and the scene.
pub proof fn lemma_depth_zero_is_black<R, M, C>(
    find: spec_fn(R) -> Option<SurfaceHit<R, M>>,
    combine: spec_fn(M, bool, C) -> C,
    black: C,
    light: Option<usize>,
    ray: R,
)
    ensures
        radiance(find, combine, black, light, ray, 0) == black,
{
}

/// A ray that meets nothing gathers nothing.
pub proof fn lemma_background_is_black<R, M, C>(
    find: spec_fn(R) -> Option<SurfaceHit<R, M>>,
    combine: spec_fn(M, bool, C) -> C,
    black: C,
    light: Option<usize>,
    ray: R,
    depth_limit: nat,
)
    requires
        find(ray) is None,
    ensures
        radiance(find, combine, black, light, ray, depth_limit) == black,
{
}

/// At a transparent surface the light that comes through takes the place of
/// everything else: the surface's own colour, the light on it and what it
/// mirrors play no part.
pub proof fn lemma_transparent_replaces<R, M, C>(
    find: spec_fn(R) -> Option<SurfaceHit<R, M>>,
    combine: spec_fn(M, bool, C) -> C,
    black: C,
    light: Option<usize>,
    ray: R,
    depth_limit: nat,
)
    requires
        depth_limit > 0,
        find(ray) matches Some(surface) && surface.transparent,
    ensures
        radiance(find, combine, black, light, ray, depth_limit) == radiance(
            find,
            combine,
            black,
            light,
            find(ray).unwrap().refracted,
            (depth_limit - 1) as nat,
        ),
{
}

/// Gathers the light along a ray, following it through at most `depth_limit`
/// surfaces. `find` is the scene's query for the nearest surface along a
/// ray; `combine` colours a surface that is not transparent.
pub fn shade<R: Copy, M: Copy, C: Copy, S: Fn(R) -> Option<SurfaceHit<R, M>>, K: Fn(M, bool, C) -> C>(
    find: &S,
    combine: &K,
    black: C,
    light: Option<usize>,
    ray: R,
    depth_limit: u32,
) -> (gathered: C)
    requires
        forall|r: R| find.requires((r,)),
        forall|m: M, seen: bool, mirrored: C| combine.requires((m, seen, mirrored)),
    ensures
        depth_limit == 0 ==> gathered == black,
        forall|found: spec_fn(R) -> Option<SurfaceHit<R, M>>, combined: spec_fn(M, bool, C) -> C|
            #![trigger computes(*find, found), colours(*combine, combined)]
            computes(*find, found) && colours(*combine, combined) ==> gathered == radiance(
                found,
                combined,
                black,
                light,
                ray,
                depth_limit as nat,
            ),
    decreases depth_limit,
{
    if depth_limit == 0 {
        return black;
    }
    let answer = find(ray);
    assert(find.ensures((ray,), answer));
    match answer {
        None => black,
        Some(surface) => {
            if surface.transparent {
                return shade(find, combine, black, light, surface.refracted, depth_limit - 1);
            }
            let mirrored = if surface.reflective {
                shade(find, combine, black, light, surface.reflected, depth_limit - 1)
            } else {
                black
            };
            let ghost towards: Option<SurfaceHit<R, M>> = None;
            let ghost asked = false;
            let seen = if needs_shadow_ray(surface.entity, light) {
                let towards_light = find(surface.shadow);
                assert(find.ensures((surface.shadow,), towards_light));
                proof {
                    towards = towards_light;
                    asked = true;
                }
                let shadow_hit = match towards_light {
                    Some(blocker) => Some(blocker.entity),
                    None => None,
                };
                light_visible(surface.entity, shadow_hit, light)
            } else {
                false
            };
            let gathered = combine(surface.material, seen, mirrored);
            assert(combine.ensures((surface.material, seen, mirrored), gathered));
            proof {
                assert forall|
                    found: spec_fn(R) -> Option<SurfaceHit<R, M>>,
                    combined: spec_fn(M, bool, C) -> C,
                |
                    #![trigger computes(*find, found), colours(*combine, combined)]
                    computes(*find, found) && colours(*combine, combined) implies gathered
                    == radiance(found, combined, black, light, ray, depth_limit as nat) by {
                    assert(found(ray) == answer);
                    if asked {
                        assert(found(surface.shadow) == towards);
                    }
                    assert(combined(surface.material, seen, mirrored) == gathered);
                }
            }
            gathered
        },
    }
}

} // verus!
