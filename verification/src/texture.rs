use vstd::prelude::*;

verus! {

/// A texture with the same value everywhere.
#[derive(Debug)]
pub struct ConstantTexture<T> {
    value: T,
}

impl<T: Copy> ConstantTexture<T> {
    /// The value of the texture at every point.
    pub closed spec fn value(self) -> T {
        self.value
    }

    /// A texture that is `value` everywhere.
    pub fn new(value: T) -> (r: ConstantTexture<T>)
        ensures
            r.value() == value,
    {
        ConstantTexture { value }
    }

    /// The value of the texture at the surface point `_si`: the same value
    /// wherever it is looked up.
    pub fn evaluate<S>(&self, _si: &S) -> (r: T)
        ensures
            r == self.value(),
    {
        self.value
    }
}

} // verus!
