use vstd::prelude::*;
use std::sync::Arc;

verus! {

/// A material: how BxDFs are composed to give a surface its appearance.
pub trait Material {}

/// A matte material: a diffuse colour texture and a roughness texture.
pub struct Matte<D, R> {
    diffuse: Arc<D>,
    roughness: Arc<R>,
}

/// A thin specular glass surface: textures for the reflected and the
/// transmitted colour and for the index of refraction.
pub struct Glass<T> {
    reflect: Arc<T>,
    transmit: Arc<T>,
    eta: Arc<T>,
}

/// A plastic material: textures for the diffuse and glossy colours and for
/// the roughness of the surface.
pub struct Plastic<T> {
    diffuse: Arc<T>,
    gloss: Arc<T>,
    roughness: Arc<T>,
}

/// The materials a scene can use, over textures of type `T`.
pub enum Materials<T> {
    Glass(Glass<T>),
    Matte(Matte<T, T>),
    Plastic(Plastic<T>),
}

impl<D, R> Material for Matte<D, R> {}

impl<T> Material for Glass<T> {}

impl<T> Material for Plastic<T> {}

impl<T> Material for Materials<T> {}

impl<D, R> Matte<D, R> {
    /// The diffuse colour texture.
    pub closed spec fn diffuse(&self) -> Arc<D> {
        self.diffuse
    }

    /// The roughness texture.
    pub closed spec fn roughness(&self) -> Arc<R> {
        self.roughness
    }

    /// A matte material with the given textures.
    pub fn new(diffuse: Arc<D>, roughness: Arc<R>) -> (r: Self)
        ensures
            r.diffuse() == diffuse,
            r.roughness() == roughness,
    {
        Matte { diffuse, roughness }
    }
}

impl<T> Glass<T> {
    /// The texture of the reflected colour.
    pub closed spec fn reflect(&self) -> Arc<T> {
        self.reflect
    }

    /// The texture of the transmitted colour.
    pub closed spec fn transmit(&self) -> Arc<T> {
        self.transmit
    }

    /// The texture of the index of refraction.
    pub closed spec fn eta(&self) -> Arc<T> {
        self.eta
    }

    /// The glass material with colours `reflect` and `transmit` and index of
    /// refraction `eta`.
    pub fn new_material(reflect: Arc<T>, transmit: Arc<T>, eta: Arc<T>) -> (r: Materials<T>)
        ensures
            r matches Materials::Glass(g) && g.reflect() == reflect && g.transmit() == transmit
                && g.eta() == eta,
    {
        Materials::Glass(Glass { reflect, transmit, eta })
    }
}

impl<T> Plastic<T> {
    /// The texture of the diffuse colour.
    pub closed spec fn diffuse(&self) -> Arc<T> {
        self.diffuse
    }

    /// The texture of the glossy colour.
    pub closed spec fn gloss(&self) -> Arc<T> {
        self.gloss
    }

    /// The texture of the roughness.
    pub closed spec fn roughness(&self) -> Arc<T> {
        self.roughness
    }

    /// The plastic material with the given diffuse and glossy colours and
    /// roughness.
    pub fn new_material(diffuse: Arc<T>, gloss: Arc<T>, roughness: Arc<T>) -> (r: Materials<T>)
        ensures
            r matches Materials::Plastic(p) && p.diffuse() == diffuse && p.gloss() == gloss
                && p.roughness() == roughness,
    {
        Materials::Plastic(Plastic { diffuse, gloss, roughness })
    }
}

} // verus!
