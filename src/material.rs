use vstd::prelude::*;

verus! {

/// A light-emitting material: it never scatters a ray, and gives off the light of its
/// texture.
pub struct DiffuseLight<T> {
    /// The texture of the emitted light.
    pub emit: T,
}

impl<T> DiffuseLight<T> {
    /// A light emitting the texture `emit`.
    pub fn new(emit: T) -> (r: Self)
        ensures
            r.emit == emit,
    {
        DiffuseLight { emit }
    }
}

} // verus!
