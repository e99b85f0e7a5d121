use vstd::prelude::*;

verus! {

/// One RGBA sample: four 8-bit channels.
#[derive(Clone, Copy, PartialEq, Eq, Structural, Debug)]
pub struct Rgba {
    pub r: u8,
    pub g: u8,
    pub b: u8,
    pub a: u8,
}

impl Rgba {
    pub fn new(r: u8, g: u8, b: u8, a: u8) -> (p: Rgba)
        ensures
            p == (Rgba { r, g, b, a }),
    {
        Rgba { r, g, b, a }
    }

    /// Fully transparent black, the visible-gap fallback colour.
    pub fn transparent() -> (p: Rgba)
        ensures
            p == (Rgba { r: 0u8, g: 0u8, b: 0u8, a: 0u8 }),
    {
        Rgba { r: 0, g: 0, b: 0, a: 0 }
    }
}

/// A pixel grid addressed by (x, y) with the origin at the top-left corner,
/// stored row-major.
pub struct Image {
    pub width: u32,
    pub height: u32,
    pub data: Vec<Rgba>,
}

impl Image {
    /// Well-formed: strictly positive dimensions and exactly one stored
    /// sample per coordinate.
    pub open spec fn wf(self) -> bool {
        &&& self.width >= 1
        &&& self.height >= 1
        &&& self.width * self.height <= usize::MAX
        &&& self.data@.len() == self.width * self.height
    }

    /// The sample at (x, y).
    pub open spec fn pix(self, x: int, y: int) -> Rgba {
        self.data@[y * self.width + x]
    }

    /// A solid image of the given dimensions.
    pub fn new(width: u32, height: u32, fill: Rgba) -> (im: Image)
        requires
            width >= 1,
            height >= 1,
            width * height <= usize::MAX,
        ensures
            im.wf(),
            im.width == width,
            im.height == height,
            forall|x: int, y: int|
                0 <= x < width && 0 <= y < height ==> im.pix(x, y) == fill,
    {
        let mut data: Vec<Rgba> = Vec::new();
        let total: usize = (width as usize) * (height as usize);
        let mut k: usize = 0;
        while k < total
            invariant
                total == width * height,
                data@.len() == k,
                k <= total,
                forall|i: int| 0 <= i < k ==> data@[i] == fill,
            decreases total - k,
        {
            data.push(fill);
            k = k + 1;
        }
        let im = Image { width, height, data };
        proof {
            assert forall|x: int, y: int|
                0 <= x < width && 0 <= y < height implies im.pix(x, y) == fill by {
                lemma_row_major_index(width as int, height as int, x, y);
            }
        }
        im
    }

    pub fn get(&self, x: u32, y: u32) -> (p: Rgba)
        requires
            self.wf(),
            x < self.width,
            y < self.height,
        ensures
            p == self.pix(x as int, y as int),
    {
        proof {
            lemma_row_major_index(self.width as int, self.height as int, x as int, y as int);
        }
        let idx: usize = (y as usize) * (self.width as usize) + (x as usize);
        self.data[idx]
    }

    pub fn set(&mut self, x: u32, y: u32, p: Rgba)
        requires
            old(self).wf(),
            x < old(self).width,
            y < old(self).height,
        ensures
            final(self).wf(),
            final(self).width == old(self).width,
            final(self).height == old(self).height,
            final(self).pix(x as int, y as int) == p,
            forall|i: int, j: int|
                0 <= i < old(self).width && 0 <= j < old(self).height
                    && !(i == x && j == y) ==> final(self).pix(i, j) == old(self).pix(i, j),
    {
        proof {
            lemma_row_major_index(self.width as int, self.height as int, x as int, y as int);
        }
        let idx: usize = (y as usize) * (self.width as usize) + (x as usize);
        self.data.set(idx, p);
        proof {
            assert forall|i: int, j: int|
                0 <= i < old(self).width && 0 <= j < old(self).height
                    && !(i == x as int && j == y as int)
                    implies self.pix(i, j) == old(self).pix(i, j) by {
                lemma_row_major_index(self.width as int, self.height as int, i, j);
                lemma_row_major_distinct(self.width as int, i, j, x as int, y as int);
            }
        }
    }
}

/// A row-major index of an in-range coordinate is in range.
pub proof fn lemma_row_major_index(w: int, h: int, x: int, y: int)
    requires
        w >= 1,
        h >= 1,
        0 <= x < w,
        0 <= y < h,
    ensures
        0 <= y * w + x < w * h,
        0 <= y * w,
        y <= y * w,
{
    assert(y <= y * w) by (nonlinear_arith)
        requires
            w >= 1,
            0 <= y,
    ;
    assert(y * w + x < w * h) by (nonlinear_arith)
        requires
            w >= 1,
            h >= 1,
            0 <= x < w,
            0 <= y < h,
    ;
}

/// Distinct in-range coordinates have distinct row-major indices.
pub proof fn lemma_row_major_distinct(w: int, x1: int, y1: int, x2: int, y2: int)
    requires
        w >= 1,
        0 <= x1 < w,
        0 <= x2 < w,
        0 <= y1,
        0 <= y2,
        !(x1 == x2 && y1 == y2),
    ensures
        y1 * w + x1 != y2 * w + x2,
{
    assert(y1 * w + x1 != y2 * w + x2) by (nonlinear_arith)
        requires
            w >= 1,
            0 <= x1 < w,
            0 <= x2 < w,
            0 <= y1,
            0 <= y2,
            !(x1 == x2 && y1 == y2),
    ;
}

} // verus!
