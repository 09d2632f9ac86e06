use vstd::prelude::*;

verus! {

/// Position of pixel `(x, y)` in a row-major buffer `width` pixels wide.
pub open spec fn pixel_index(x: int, y: int, width: int) -> int {
    y * width + x
}

/// The image that is handed to the window each frame: `width * height`
/// packed `0x00RRGGBB` pixels, row after row, top row first.
pub struct FrameBuffer {
    width: usize,
    height: usize,
    pixels: Vec<u32>,
}

impl View for FrameBuffer {
    type V = Seq<u32>;

    closed spec fn view(&self) -> Seq<u32> {
        self.pixels@
    }
}

impl FrameBuffer {
    /// The buffer holds exactly one pixel per cell of the grid.
    pub closed spec fn well_formed(self) -> bool {
        &&& self.width * self.height <= usize::MAX
        &&& self.pixels@.len() == self.width * self.height
    }

    pub closed spec fn spec_width(self) -> nat {
        self.width as nat
    }

    pub closed spec fn spec_height(self) -> nat {
        self.height as nat
    }

    /// The pixel at column `x`, row `y`.
    pub open spec fn pixel(self, x: int, y: int) -> u32 {
        self@[pixel_index(x, y, self.spec_width() as int)]
    }

    /// A black image of `width` by `height` pixels.
    pub fn new(width: usize, height: usize) -> (fb: FrameBuffer)
        requires
            width * height <= usize::MAX,
        ensures
            fb.well_formed(),
            fb.spec_width() == width,
            fb.spec_height() == height,
            fb@.len() == width * height,
            forall|i: int| 0 <= i < fb@.len() ==> fb@[i] == 0,
    {
        let n = width * height;
        let mut pixels: Vec<u32> = Vec::new();
        let mut i: usize = 0;
        while i < n
            invariant
                i <= n,
                pixels@.len() == i,
                forall|k: int| 0 <= k < i ==> pixels@[k] == 0,
            decreases n - i,
        {
            pixels.push(0);
            i = i + 1;
        }
        FrameBuffer { width, height, pixels }
    }

    pub fn width(&self) -> (w: usize)
        ensures
            w == self.spec_width(),
    {
        self.width
    }

    pub fn height(&self) -> (h: usize)
        ensures
            h == self.spec_height(),
    {
        self.height
    }

    /// Writes `color` at column `x`, row `y`; no other pixel changes.
    pub fn set(&mut self, x: usize, y: usize, color: u32)
        requires
            old(self).well_formed(),
            x < old(self).spec_width(),
            y < old(self).spec_height(),
        ensures
            final(self).well_formed(),
            final(self).spec_width() == old(self).spec_width(),
            final(self).spec_height() == old(self).spec_height(),
            final(self)@ == old(self)@.update(pixel_index(x as int, y as int, old(self).spec_width() as int), color),
            final(self).pixel(x as int, y as int) == color,
            forall|x2: int, y2: int|
                0 <= x2 < old(self).spec_width() && 0 <= y2 < old(self).spec_height()
                    && (x2 != x || y2 != y) ==> #[trigger] final(self).pixel(x2, y2) == old(self).pixel(x2, y2),
    {
        proof {
            lemma_pixel_index_in_bounds(x as int, y as int, self.width as int, self.height as int);
        }
        let w = self.width;
        let i = y * w + x;
        let ghost before = self.pixels@;
        let ghost (w0, h0) = (self.width as int, self.height as int);
        self.pixels.set(i, color);
        proof {
            assert forall|x2: int, y2: int|
                0 <= x2 < w0 && 0 <= y2 < h0 && (x2 != x || y2 != y)
                implies #[trigger] self.pixel(x2, y2) == before[pixel_index(x2, y2, w0)] by {
                if pixel_index(x as int, y as int, w0) == pixel_index(x2, y2, w0) {
                    lemma_pixel_index_injective(x as int, y as int, x2, y2, w0, h0);
                }
                lemma_pixel_index_in_bounds(x2, y2, w0, h0);
            }
        }
    }

    /// The pixels, row-major, as the window takes them.
    pub fn pixels(&self) -> (p: &[u32])
        requires
            self.well_formed(),
        ensures
            p@ == self@,
            p@.len() == self.spec_width() * self.spec_height(),
    {
        self.pixels.as_slice()
    }
}

/// Row-major indexing maps every cell of a `width` by `height` grid into
/// the buffer.
pub proof fn lemma_pixel_index_in_bounds(x: int, y: int, width: int, height: int)
    requires
        0 <= x < width,
        0 <= y < height,
    ensures
        0 <= pixel_index(x, y, width) < width * height,
{
    assert(0 <= y * width + x < width * height) by (nonlinear_arith)
        requires
            0 <= x < width,
            0 <= y < height,
    ;
}

/// Row-major indexing gives distinct cells of the grid distinct places in
/// the buffer, so writing one pixel never overwrites another.
pub proof fn lemma_pixel_index_injective(x1: int, y1: int, x2: int, y2: int, width: int, height: int)
    requires
        0 <= x1 < width,
        0 <= y1 < height,
        0 <= x2 < width,
        0 <= y2 < height,
        pixel_index(x1, y1, width) == pixel_index(x2, y2, width),
    ensures
        x1 == x2,
        y1 == y2,
{
    assert(y1 == y2) by (nonlinear_arith)
        requires
            0 <= x1 < width,
            0 <= x2 < width,
            y1 * width + x1 == y2 * width + x2,
    {
        if y1 < y2 {
            assert(y2 * width >= y1 * width + width);
        } else if y1 > y2 {
            assert(y1 * width >= y2 * width + width);
        }
    };
}

} // verus!
