//! The pixel grid: a dense row-major buffer of packed 24-bit colors with
//! bounds-checked point operations.

use vstd::prelude::*;

verus! {

/// A fixed-size pixel grid. Cell `(x, y)` lives at linear index
/// `y * width + x`; every stored value is a packed color below `0x1000000`.
pub struct Framebuffer {
    pub width: usize,
    pub height: usize,
    pub buffer: Vec<u32>,
    pub background_color: u32,
    pub current_color: u32,
}

/// `0 <= y * w + x < w * h` whenever `(x, y)` is inside a `w` by `h` grid.
pub proof fn lemma_row_major_index(w: int, h: int, x: int, y: int)
    requires
        0 <= x < w,
        0 <= y < h,
    ensures
        0 <= y * w + x < w * h,
{
    assert(0 <= x < w && 0 <= y < h ==> 0 <= y * w + x && y * w + x < w * h) by (nonlinear_arith);
}

/// Distinct in-bounds points have distinct linear indices.
pub proof fn lemma_row_major_injective(w: int, h: int, x1: int, y1: int, x2: int, y2: int)
    requires
        0 <= x1 < w,
        0 <= y1 < h,
        0 <= x2 < w,
        0 <= y2 < h,
        !(x1 == x2 && y1 == y2),
    ensures
        y1 * w + x1 != y2 * w + x2,
{
    assert(y1 * w + x1 != y2 * w + x2) by (nonlinear_arith)
        requires
            0 <= x1 < w,
            0 <= y1 < h,
            0 <= x2 < w,
            0 <= y2 < h,
            !(x1 == x2 && y1 == y2),
    ;
}

impl Framebuffer {
    /// The stored cells, row-major, top row first.
    pub open spec fn cells(&self) -> Seq<u32> {
        self.buffer@
    }

    /// The color that `clear` paints with.
    pub open spec fn background(&self) -> u32 {
        self.background_color
    }

    /// The color that `point` and `line` paint with.
    pub open spec fn draw(&self) -> u32 {
        self.current_color
    }

    /// Structural invariant: the buffer covers the grid exactly and holds
    /// only 24-bit color values, as do the two color registers.
    pub open spec fn wf(&self) -> bool {
        &&& self.cells().len() == self.width * self.height
        &&& self.width * self.height <= usize::MAX
        &&& forall|i: int| 0 <= i < self.cells().len() ==> (#[trigger] self.cells()[i]) < 0x1000000
        &&& self.background() < 0x1000000
        &&& self.draw() < 0x1000000
    }

    /// Whether `(x, y)` lies on the grid.
    pub open spec fn in_bounds(&self, x: int, y: int) -> bool {
        0 <= x < self.width && 0 <= y < self.height
    }

    /// The linear index of `(x, y)`.
    pub open spec fn idx(&self, x: int, y: int) -> int {
        y * self.width + x
    }

    /// What a point query returns: the stored color in bounds, absent outside.
    pub open spec fn spec_get(&self, x: int, y: int) -> Option<u32> {
        if self.in_bounds(x, y) {
            Some(self.cells()[self.idx(x, y)])
        } else {
            None
        }
    }

    /// All fields except the cell contents are unchanged.
    pub open spec fn same_config(&self, other: &Framebuffer) -> bool {
        &&& self.width == other.width
        &&& self.height == other.height
        &&& self.background() == other.background()
        &&& self.draw() == other.draw()
    }

    /// Allocate a `width` by `height` grid, every cell white, with a white
    /// background color and a black draw color.
    pub fn new(width: usize, height: usize) -> (fb: Framebuffer)
        requires
            1 <= width,
            1 <= height,
            width * height <= usize::MAX,
        ensures
            fb.wf(),
            fb.width == width,
            fb.height == height,
            fb.background() == 0xFFFFFFu32,
            fb.draw() == 0u32,
            fb.cells().len() == width * height,
            forall|i: int| 0 <= i < fb.cells().len() ==> (#[trigger] fb.cells()[i]) == 0xFFFFFFu32,
    {
        let n = width * height;
        let mut buffer: Vec<u32> = Vec::new();
        while buffer.len() < n
            invariant
                buffer@.len() <= n,
                forall|i: int| 0 <= i < buffer@.len() ==> (#[trigger] buffer@[i]) == 0xFFFFFFu32,
            decreases n - buffer@.len(),
        {
            buffer.push(0xFFFFFF);
        }
        Framebuffer { width, height, buffer, background_color: 0xFFFFFF, current_color: 0x000000 }
    }

    /// Fill every cell with the current background color.
    pub fn clear(&mut self)
        requires
            old(self).wf(),
        ensures
            final(self).wf(),
            final(self).same_config(old(self)),
            final(self).cells().len() == old(self).cells().len(),
            forall|i: int|
                0 <= i < final(self).cells().len() ==> (#[trigger] final(self).cells()[i])
                    == final(self).background(),
    {
        let bg = self.background_color;
        let n = self.buffer.len();
        let mut i: usize = 0;
        while i < n
            invariant
                n == self.buffer@.len(),
                i <= n,
                bg == self.background_color,
                bg < 0x1000000,
                self.width == old(self).width,
                self.height == old(self).height,
                self.background_color == old(self).background_color,
                self.current_color == old(self).current_color,
                self.buffer@.len() == old(self).buffer@.len(),
                forall|j: int| 0 <= j < i ==> (#[trigger] self.buffer@[j]) == bg,
                forall|j: int|
                    0 <= j < self.buffer@.len() ==> (#[trigger] self.buffer@[j]) < 0x1000000,
            decreases n - i,
        {
            self.buffer[i] = bg;
            i = i + 1;
        }
    }

    /// Write the current draw color at `(x, y)`; out-of-bounds coordinates
    /// are silently clipped.
    pub fn point(&mut self, x: isize, y: isize)
        requires
            old(self).wf(),
        ensures
            final(self).wf(),
            final(self).same_config(old(self)),
            final(self).cells() == (if old(self).in_bounds(x as int, y as int) {
                old(self).cells().update(
                    old(self).idx(x as int, y as int),
                    old(self).draw(),
                )
            } else {
                old(self).cells()
            }),
    {
        if x >= 0 && y >= 0 && (x as usize) < self.width && (y as usize) < self.height {
            proof {
                lemma_row_major_index(
                    self.width as int,
                    self.height as int,
                    x as int,
                    y as int,
                );
            }
            let index = (y as usize) * self.width + (x as usize);
            let c = self.current_color;
            self.buffer[index] = c;
        }
    }

    /// Read the color at `(x, y)`, or `None` outside the grid.
    pub fn get_point_color(&self, x: usize, y: usize) -> (r: Option<u32>)
        requires
            self.wf(),
        ensures
            r == self.spec_get(x as int, y as int),
    {
        if x < self.width && y < self.height {
            proof {
                lemma_row_major_index(
                    self.width as int,
                    self.height as int,
                    x as int,
                    y as int,
                );
            }
            let index = y * self.width + x;
            Some(self.buffer[index])
        } else {
            None
        }
    }

    /// Set the background color; bits above the low 24 are masked off.
    pub fn set_background_color(&mut self, color: u32)
        requires
            old(self).wf(),
        ensures
            final(self).wf(),
            final(self).background() == color & 0xFFFFFF,
            final(self).width == old(self).width,
            final(self).height == old(self).height,
            final(self).draw() == old(self).draw(),
            final(self).cells() == old(self).cells(),
    {
        proof {
            assert(color & 0xFFFFFF < 0x1000000) by (bit_vector);
        }
        self.background_color = color & 0xFFFFFF;
    }

    /// Set the draw color; bits above the low 24 are masked off.
    pub fn set_current_color(&mut self, color: u32)
        requires
            old(self).wf(),
        ensures
            final(self).wf(),
            final(self).draw() == color & 0xFFFFFF,
            final(self).width == old(self).width,
            final(self).height == old(self).height,
            final(self).background() == old(self).background(),
            final(self).cells() == old(self).cells(),
    {
        proof {
            assert(color & 0xFFFFFF < 0x1000000) by (bit_vector);
        }
        self.current_color = color & 0xFFFFFF;
    }
}

/// On a freshly cleared grid every in-bounds query returns the background
/// color and every out-of-bounds query returns absent.
pub proof fn lemma_cleared_grid_reads(fb: Framebuffer, x: int, y: int)
    requires
        fb.wf(),
        forall|i: int| 0 <= i < fb.cells().len() ==> (#[trigger] fb.cells()[i]) == fb.background(),
    ensures
        fb.in_bounds(x, y) ==> fb.spec_get(x, y) == Some(fb.background()),
        !fb.in_bounds(x, y) ==> fb.spec_get(x, y) is None,
{
    if fb.in_bounds(x, y) {
        lemma_row_major_index(fb.width as int, fb.height as int, x, y);
    }
}

} // verus!
