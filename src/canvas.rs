use vstd::prelude::*;

use crate::matrix::{cell, lemma_row_major, lemma_row_major_distinct};

verus! {

/// A `width` by `height` buffer of pixels, stored row after row, top row
/// first: the pixel at column `x` of row `y` is `pixels[y * width + x]`.
pub struct Canvas<T> {
    pub width: usize,
    pub height: usize,
    pub pixels: Vec<T>,
}

impl<T: Copy> Canvas<T> {
    pub open spec fn wf(&self) -> bool {
        self.pixels@.len() == self.width * self.height
    }

    /// The pixel at column `x` of row `y`.
    pub open spec fn pixel(&self, x: int, y: int) -> T {
        cell(self.pixels@, self.width as int, y, x)
    }

    /// A canvas whose every pixel is `blank`.
    pub fn new(width: usize, height: usize, blank: T) -> (r: Canvas<T>)
        requires
            width * height <= usize::MAX,
        ensures
            r.wf(),
            r.width == width,
            r.height == height,
            forall|i: int| 0 <= i < r.pixels@.len() ==> #[trigger] r.pixels@[i] == blank,
    {
        let n: usize = width * height;
        let mut pixels: Vec<T> = Vec::new();
        let mut i: usize = 0;
        while i < n
            invariant
                i <= n,
                pixels@.len() == i,
                forall|k: int| 0 <= k < i ==> #[trigger] pixels@[k] == blank,
            decreases n - i,
        {
            pixels.push(blank);
            i += 1;
        }
        Canvas { width, height, pixels }
    }

    /// Sets the pixel at column `x` of row `y`; every other pixel stays.
    pub fn write_pixel(&mut self, x: usize, y: usize, color: T)
        requires
            old(self).wf(),
            x < old(self).width,
            y < old(self).height,
        ensures
            final(self).wf(),
            final(self).width == old(self).width,
            final(self).height == old(self).height,
            final(self).pixel(x as int, y as int) == color,
            forall|a: int, b: int|
                0 <= a < old(self).width && 0 <= b < old(self).height && (a != x || b != y)
                    ==> #[trigger] final(self).pixel(a, b) == old(self).pixel(a, b),
    {
        proof {
            lemma_row_major(y as int, x as int, self.width as int, self.height as int);
            assert(self.height * self.width == self.width * self.height) by (nonlinear_arith);
        }
        let count = self.pixels.len();
        assert(y * self.width + x < count);
        let index = y * self.width + x;
        self.pixels.set(index, color);
        proof {
            assert forall|a: int, b: int|
                0 <= a < old(self).width && 0 <= b < old(self).height && (a != x || b != y)
                    implies #[trigger] self.pixel(a, b) == old(self).pixel(a, b) by {
                lemma_row_major(b, a, self.width as int, self.height as int);
                lemma_row_major_distinct(b, a, y as int, x as int, self.width as int);
            }
        }
    }

    /// The pixel at column `x` of row `y`.
    pub fn pixel_at(&self, x: usize, y: usize) -> (r: T)
        requires
            self.wf(),
            x < self.width,
            y < self.height,
        ensures
            r == self.pixel(x as int, y as int),
    {
        proof {
            lemma_row_major(y as int, x as int, self.width as int, self.height as int);
            assert(self.height * self.width == self.width * self.height) by (nonlinear_arith);
        }
        let count = self.pixels.len();
        assert(y * self.width + x < count);
        self.pixels[y * self.width + x]
    }
}

} // verus!
