use vstd::prelude::*;

verus! {

/// The three parts that a transform is made of: where the entity stands, how
/// it is turned about each axis, and how it is stretched along each.
///
/// `V` is the caller's kind of vector.
#[derive(Clone, Copy, Debug)]
pub struct Placement<V> {
    pub translation: V,
    pub rotation: V,
    pub scale: V,
}

/// The matrices that take an entity's own space to the world and back.
///
/// `M` is the caller's kind of matrix.
#[derive(Clone, Copy, Debug)]
pub struct Matrices<M> {
    pub world: M,
    pub inverse_world: M,
}

/// The placement of an entity in the world, with the matrices worked out
/// from it.
///
/// The caller's `build` works the two matrices out of a placement. Every
/// setter changes one part and has both matrices built anew, so that they
/// never belong to an earlier placement.
pub struct Transform<V, M> {
    placement: Placement<V>,
    matrices: Matrices<M>,
}

impl<V, M> Transform<V, M> {
    pub closed spec fn placement(&self) -> Placement<V> {
        self.placement
    }

    pub closed spec fn matrices(&self) -> Matrices<M> {
        self.matrices
    }
}

impl<V: Copy, M: Copy> Transform<V, M> {
    /// The transform for a placement.
    pub fn new<B: Fn(Placement<V>) -> Matrices<M>>(placement: Placement<V>, build: &B) -> (transform:
        Self)
        requires
            build.requires((placement,)),
        ensures
            transform.placement() == placement,
            build.ensures((placement,), transform.matrices()),
    {
        let matrices = build(placement);
        Transform { placement, matrices }
    }

    pub fn translation(&self) -> (value: V)
        ensures
            value == self.placement().translation,
    {
        self.placement.translation
    }

    pub fn rotation(&self) -> (value: V)
        ensures
            value == self.placement().rotation,
    {
        self.placement.rotation
    }

    pub fn scale(&self) -> (value: V)
        ensures
            value == self.placement().scale,
    {
        self.placement.scale
    }

    /// Moves the entity, and has both matrices built anew.
    pub fn set_translation<B: Fn(Placement<V>) -> Matrices<M>>(&mut self, value: V, build: &B)
        requires
            forall|p: Placement<V>| build.requires((p,)),
        ensures
            final(self).placement() == (Placement { translation: value, ..old(self).placement() }),
            build.ensures((final(self).placement(),), final(self).matrices()),
    {
        let placement = Placement { translation: value, ..self.placement };
        let matrices = build(placement);
        *self = Transform { placement, matrices };
    }

    /// Turns the entity, and has both matrices built anew.
    pub fn set_rotation<B: Fn(Placement<V>) -> Matrices<M>>(&mut self, value: V, build: &B)
        requires
            forall|p: Placement<V>| build.requires((p,)),
        ensures
            final(self).placement() == (Placement { rotation: value, ..old(self).placement() }),
            build.ensures((final(self).placement(),), final(self).matrices()),
    {
        let placement = Placement { rotation: value, ..self.placement };
        let matrices = build(placement);
        *self = Transform { placement, matrices };
    }

    /// Stretches the entity, and has both matrices built anew.
    pub fn set_scale<B: Fn(Placement<V>) -> Matrices<M>>(&mut self, value: V, build: &B)
        requires
            forall|p: Placement<V>| build.requires((p,)),
        ensures
            final(self).placement() == (Placement { scale: value, ..old(self).placement() }),
            build.ensures((final(self).placement(),), final(self).matrices()),
    {
        let placement = Placement { scale: value, ..self.placement };
        let matrices = build(placement);
        *self = Transform { placement, matrices };
    }

    /// The matrix from the entity's own space to the world.
    pub fn world(&self) -> (matrix: M)
        ensures
            matrix == self.matrices().world,
    {
        self.matrices.world
    }

    /// The matrix from the world to the entity's own space.
    pub fn inverse_world(&self) -> (matrix: M)
        ensures
            matrix == self.matrices().inverse_world,
    {
        self.matrices.inverse_world
    }
}

/// Collects the parts of a placement one by one.
pub struct TransformBuilder<V> {
    placement: Placement<V>,
}

impl<V: Copy> TransformBuilder<V> {
    pub closed spec fn placement(&self) -> Placement<V> {
        self.placement
    }

    /// A builder that starts from the given placement.
    pub fn new(start: Placement<V>) -> (builder: Self)
        ensures
            builder.placement() == start,
    {
        TransformBuilder { placement: start }
    }

    pub fn with_translation(&mut self, value: V) -> (builder: &mut Self)
        ensures
            builder.placement() == (Placement { translation: value, ..old(self).placement() }),
            *final(self) == *final(builder),
    {
        self.placement.translation = value;
        self
    }

    pub fn with_rotation(&mut self, value: V) -> (builder: &mut Self)
        ensures
            builder.placement() == (Placement { rotation: value, ..old(self).placement() }),
            *final(self) == *final(builder),
    {
        self.placement.rotation = value;
        self
    }

    pub fn with_scale(&mut self, value: V) -> (builder: &mut Self)
        ensures
            builder.placement() == (Placement { scale: value, ..old(self).placement() }),
            *final(self) == *final(builder),
    {
        self.placement.scale = value;
        self
    }

    /// The transform for what has been collected.
    pub fn build<M: Copy, B: Fn(Placement<V>) -> Matrices<M>>(&self, build: &B) -> (transform:
        Transform<V, M>)
        requires
            forall|p: Placement<V>| build.requires((p,)),
        ensures
            transform.placement() == self.placement(),
            build.ensures((self.placement(),), transform.matrices()),
    {
        Transform::new(self.placement, build)
    }
}

} // verus!
