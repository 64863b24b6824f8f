use vstd::prelude::*;

verus! {

/// The image being rendered: its dimensions, the size of the blocks that are
/// locked while samples are written, and the reconstruction filter.
pub struct RenderTarget<F> {
    width: usize,
    height: usize,
    lock_size: (i32, i32),
    filter: Box<F>,
}

impl<F> RenderTarget<F> {
    /// Width of the image in pixels.
    pub closed spec fn width(&self) -> usize {
        self.width
    }

    /// Height of the image in pixels.
    pub closed spec fn height(&self) -> usize {
        self.height
    }

    /// Width and height of a locked block.
    pub closed spec fn lock_size(&self) -> (i32, i32) {
        self.lock_size
    }

    /// The reconstruction filter.
    pub closed spec fn filter(&self) -> F {
        *self.filter
    }

    /// A render target of `image_dim` pixels whose blocks are `lock_size`
    /// pixels; the image must be evenly divided by the blocks.
    pub fn new(image_dim: (usize, usize), lock_size: (usize, usize), filter: Box<F>) -> (r: Self)
        requires
            lock_size.0 > 0,
            lock_size.1 > 0,
            image_dim.0 % lock_size.0 == 0,
            image_dim.1 % lock_size.1 == 0,
        ensures
            r.width() == image_dim.0,
            r.height() == image_dim.1,
            r.lock_size() == (lock_size.0 as i32, lock_size.1 as i32),
            r.filter() == *filter,
    {
        let (width, height) = image_dim;
        RenderTarget {
            width,
            height,
            lock_size: (lock_size.0 as i32, lock_size.1 as i32),
            filter,
        }
    }

    /// The image's width and height in pixels.
    pub fn dimensions(&self) -> (r: (usize, usize))
        ensures
            r == (self.width(), self.height()),
    {
        (self.width, self.height)
    }
}

} // verus!
