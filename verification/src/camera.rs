use vstd::prelude::*;

verus! {

/// The size of an image in pixels: `x` columns and `y` rows.
#[derive(Clone, Copy, Debug, PartialEq, Eq, Structural)]
pub struct Resolution {
    pub x: u32,
    pub y: u32,
}

/// What a camera is set to: where it stands, where it looks, which way is
/// up, how wide it sees, and how many pixels it renders.
///
/// `V` is the caller's kind of vector, `S` its kind of number.
#[derive(Clone, Copy, Debug)]
pub struct CameraSettings<V, S> {
    pub position: V,
    pub direction: V,
    pub up: V,
    pub field_of_view: S,
    pub resolution: Resolution,
}

/// A camera with its image plane.
///
/// The image plane `I` is worked out from the settings by the caller, and
/// only when it is needed: a setter marks it stale, and the next `update` or
/// `cast_ray` builds it anew. A ray is never cast through a stale plane.
pub struct Camera<V, S, I> {
    image_plane: I,
    settings: CameraSettings<V, S>,
    rebuild_image_plane: bool,
    built_from: Ghost<CameraSettings<V, S>>,
}

impl<V, S, I> Camera<V, S, I> {
    /// An image plane that is not stale was built from the settings as they
    /// stand.
    #[verifier::type_invariant]
    pub closed spec fn wf(&self) -> bool {
        !self.rebuild_image_plane ==> self.built_from@ == self.settings
    }

    /// The settings as they stand.
    pub closed spec fn settings(&self) -> CameraSettings<V, S> {
        self.settings
    }

    /// The image plane as it stands, stale or not.
    pub closed spec fn image_plane(&self) -> I {
        self.image_plane
    }

    /// The image plane is stale: a setting has changed since it was built.
    pub closed spec fn dirty(&self) -> bool {
        self.rebuild_image_plane
    }

    /// The settings that the image plane was last built from.
    pub closed spec fn built_from(&self) -> CameraSettings<V, S> {
        self.built_from@
    }
}

/// While the image plane is not stale, it is the one built from the
/// settings as they stand.
pub proof fn lemma_built_plane_is_current<V, S, I>(camera: Camera<V, S, I>)
    requires
        camera.wf(),
        !camera.dirty(),
    ensures
        camera.built_from() == camera.settings(),
{
}

impl<V: Copy, S: Copy, I: Copy> Clone for Camera<V, S, I> {
    /// A camera with the same settings and the same image plane, stale or
    /// not: each worker renders with one of its own.
    fn clone(&self) -> (copy: Self)
        ensures
            copy == *self,
    {
        proof {
            use_type_invariant(self);
        }
        Camera {
            image_plane: self.image_plane,
            settings: self.settings,
            rebuild_image_plane: self.rebuild_image_plane,
            built_from: Ghost(self.built_from@),
        }
    }
}

impl<V: Copy, S: Copy, I: Copy> Camera<V, S, I> {
    /// A camera with the given settings. Its image plane is stale from the
    /// start; `blank` only fills the place until the first build.
    pub fn new(settings: CameraSettings<V, S>, blank: I) -> (camera: Self)
        ensures
            camera.wf(),
            camera.settings() == settings,
            camera.image_plane() == blank,
            camera.dirty(),
    {
        Camera {
            image_plane: blank,
            settings,
            rebuild_image_plane: true,
            built_from: Ghost(settings),
        }
    }

    /// Moves the camera; the image plane is stale from now on.
    pub fn set_position(&mut self, pos: V)
        ensures
            final(self).settings() == (CameraSettings { position: pos, ..old(self).settings() }),
            final(self).image_plane() == old(self).image_plane(),
            final(self).built_from() == old(self).built_from(),
            final(self).dirty(),
    {
        self.rebuild_image_plane = true;
        self.settings.position = pos;
    }

    /// Turns the camera; the image plane is stale from now on.
    pub fn set_direction(&mut self, dir: V)
        ensures
            final(self).settings() == (CameraSettings { direction: dir, ..old(self).settings() }),
            final(self).image_plane() == old(self).image_plane(),
            final(self).built_from() == old(self).built_from(),
            final(self).dirty(),
    {
        self.rebuild_image_plane = true;
        self.settings.direction = dir;
    }

    /// Tilts the camera; the image plane is stale from now on.
    pub fn set_up(&mut self, up: V)
        ensures
            final(self).settings() == (CameraSettings { up, ..old(self).settings() }),
            final(self).image_plane() == old(self).image_plane(),
            final(self).built_from() == old(self).built_from(),
            final(self).dirty(),
    {
        self.rebuild_image_plane = true;
        self.settings.up = up;
    }

    /// Widens or narrows the view; the image plane is stale from now on.
    pub fn set_field_of_view(&mut self, value: S)
        ensures
            final(self).settings() == (CameraSettings {
                field_of_view: value,
                ..old(self).settings()
            }),
            final(self).image_plane() == old(self).image_plane(),
            final(self).built_from() == old(self).built_from(),
            final(self).dirty(),
    {
        self.rebuild_image_plane = true;
        self.settings.field_of_view = value;
    }

    /// Changes the size of the image; the image plane is stale from now on.
    pub fn set_resolution(&mut self, res: Resolution)
        ensures
            final(self).settings() == (CameraSettings { resolution: res, ..old(self).settings() }),
            final(self).image_plane() == old(self).image_plane(),
            final(self).built_from() == old(self).built_from(),
            final(self).dirty(),
    {
        self.rebuild_image_plane = true;
        self.settings.resolution = res;
    }

    /// The settings as they stand.
    pub fn current_settings(&self) -> (settings: CameraSettings<V, S>)
        ensures
            settings == self.settings(),
    {
        self.settings
    }

    /// Whether the image plane waits to be built.
    pub fn needs_update(&self) -> (stale: bool)
        ensures
            stale == self.dirty(),
    {
        self.rebuild_image_plane
    }

    /// Builds the image plane from the settings, if it is stale; `build`
    /// works it out. A plane that is not stale is left alone.
    pub fn update<B: Fn(CameraSettings<V, S>) -> I>(&mut self, build: &B)
        requires
            forall|settings: CameraSettings<V, S>| build.requires((settings,)),
        ensures
            !final(self).dirty(),
            final(self).settings() == old(self).settings(),
            final(self).built_from() == old(self).settings(),
            old(self).dirty() ==> build.ensures((old(self).settings(),), final(self).image_plane()),
            !old(self).dirty() ==> final(self).image_plane() == old(self).image_plane(),
    {
        proof {
            use_type_invariant(&*self);
        }
        if self.rebuild_image_plane {
            let plane = build(self.settings);
            *self = Camera {
                image_plane: plane,
                settings: self.settings,
                rebuild_image_plane: false,
                built_from: Ghost(self.settings),
            };
        }
    }

    /// The ray through the pixel in column `x` of row `y`. A stale image
    /// plane is built first, so the ray always goes through the plane for
    /// the settings as they stand; `through` works the ray out from that
    /// plane.
    pub fn cast_ray<R, B: Fn(CameraSettings<V, S>) -> I, T: Fn(CameraSettings<V, S>, I, usize, usize) -> R>(
        &mut self,
        x: usize,
        y: usize,
        build: &B,
        through: &T,
    ) -> (ray: R)
        requires
            forall|settings: CameraSettings<V, S>| build.requires((settings,)),
            forall|settings: CameraSettings<V, S>, plane: I|
                through.requires((settings, plane, x, y)),
        ensures
            !final(self).dirty(),
            final(self).settings() == old(self).settings(),
            final(self).built_from() == old(self).settings(),
            old(self).dirty() ==> build.ensures((old(self).settings(),), final(self).image_plane()),
            !old(self).dirty() ==> final(self).image_plane() == old(self).image_plane(),
            through.ensures((final(self).settings(), final(self).image_plane(), x, y), ray),
    {
        self.update(build);
        through(self.settings, self.image_plane, x, y)
    }
}

} // verus!
