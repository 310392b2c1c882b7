use vstd::prelude::*;

verus! {

/// A row-major grid of packed `0xRRGGBB` pixels.
pub struct Framebuffer {
    pub width: usize,
    pub height: usize,
    pub color: Vec<u32>,
}

/// Position of pixel `(x, y)` in the row-major buffer.
pub open spec fn pixel_index(width: usize, x: usize, y: usize) -> int {
    y as int * width as int + x as int
}

impl Framebuffer {
    /// A black framebuffer of `width * height` pixels.
    pub fn new(width: usize, height: usize) -> (fb: Self)
        requires
            width as int * height as int <= usize::MAX,
        ensures
            fb.width == width,
            fb.height == height,
            fb.color@ == Seq::new((width * height) as nat, |i: int| 0u32),
    {
        let count = width * height;
        let color = vec![0u32; count];
        assert(color@ =~= Seq::new((width * height) as nat, |i: int| 0u32));
        Self { width, height, color }
    }

    /// Writes one pixel; the index `y * width + x` must lie in the buffer.
    pub fn set_pixel(&mut self, x: usize, y: usize, color: u32)
        requires
            pixel_index(old(self).width, x, y) < old(self).color.len(),
        ensures
            final(self).width == old(self).width,
            final(self).height == old(self).height,
            final(self).color@ == old(self).color@.update(
                pixel_index(old(self).width, x, y),
                color,
            ),
    {
        proof {
            vstd::arithmetic::mul::lemma_mul_nonnegative(y as int, self.width as int);
        }
        let index = y * self.width + x;
        self.color.set(index, color);
    }
}

} // verus!
