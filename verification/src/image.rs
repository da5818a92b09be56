use crate::style::Pixel;
use vstd::prelude::*;

verus! {

/// The pixel a fresh image holds everywhere: fully transparent black.
pub open spec fn clear_pixel() -> Pixel {
    Pixel { red: 0, green: 0, blue: 0, alpha: 0 }
}

/// A rectangular buffer of pixels, stored row by row.
#[derive(Clone, Debug, PartialEq)]
pub struct Image {
    width: u32,
    height: u32,
    data: Vec<Vec<Pixel>>,
}

impl Image {
    /// The width in pixels.
    pub closed spec fn spec_width(&self) -> nat {
        self.width as nat
    }

    /// The height in pixels.
    pub closed spec fn spec_height(&self) -> nat {
        self.height as nat
    }

    /// The pixels, `pixels()[y][x]` being the one in column `x` of row `y`.
    pub closed spec fn pixels(&self) -> Seq<Seq<Pixel>> {
        self.data@.map_values(|r: Vec<Pixel>| r@)
    }

    /// The buffer holds `height` rows of `width` pixels each.
    pub open spec fn wf(&self) -> bool {
        &&& self.pixels().len() == self.spec_height()
        &&& forall|y: int| 0 <= y < self.pixels().len() ==> (#[trigger] self.pixels()[y]).len() == self.spec_width()
    }

    proof fn lemma_data(&self)
        requires
            self.wf(),
        ensures
            self.data@.len() == self.height,
            forall|y: int| 0 <= y < self.data@.len() ==> (#[trigger] self.data@[y])@.len() == self.width,
    {
        assert forall|y: int| 0 <= y < self.data@.len() implies (#[trigger] self.data@[y])@.len() == self.width by {
            assert(self.pixels()[y] == self.data@[y]@);
        }
    }

    /// Whether every pixel of a well-formed image lies at (`x`, `y`) in `p`.
    pub open spec fn holds(&self, p: spec_fn(int, int) -> Pixel) -> bool {
        &&& self.pixels().len() == self.spec_height()
        &&& forall|y: int| 0 <= y < self.spec_height() ==> (#[trigger] self.pixels()[y]).len() == self.spec_width()
        &&& forall|x: int, y: int| 0 <= x < self.spec_width() && 0 <= y < self.spec_height()
                ==> #[trigger] self.pixels()[y][x] == p(x, y)
    }

    /// Creates a `width` by `height` image whose pixels are all clear.
    pub fn new(width: u32, height: u32) -> (img: Image)
        ensures
            img.wf(),
            img.spec_width() == width,
            img.spec_height() == height,
            img.holds(|x: int, y: int| clear_pixel()),
    {
        let mut data: Vec<Vec<Pixel>> = Vec::new();
        let mut y: u32 = 0;
        while y < height
            invariant
                y <= height,
                data@.len() == y,
                forall|j: int| 0 <= j < y ==> (#[trigger] data@[j])@.len() == width,
                forall|j: int, i: int| 0 <= j < y && 0 <= i < width ==> #[trigger] data@[j]@[i] == clear_pixel(),
            decreases height - y,
        {
            let mut row: Vec<Pixel> = Vec::new();
            let mut x: u32 = 0;
            while x < width
                invariant
                    x <= width,
                    row@.len() == x,
                    forall|i: int| 0 <= i < x ==> row@[i] == clear_pixel(),
                decreases width - x,
            {
                row.push(Pixel { red: 0, green: 0, blue: 0, alpha: 0 });
                x = x + 1;
            }
            data.push(row);
            y = y + 1;
        }
        let img = Image { width, height, data };
        assert forall|y: int| 0 <= y < img.pixels().len() implies (#[trigger] img.pixels()[y]).len() == img.spec_width() by {
            assert(img.pixels()[y] == img.data@[y]@);
        }
        assert forall|x: int, y: int| 0 <= x < img.spec_width() && 0 <= y < img.spec_height()
            implies #[trigger] img.pixels()[y][x] == clear_pixel() by {
            assert(img.pixels()[y] == img.data@[y]@);
        }
        img
    }

    /// The width in pixels.
    pub fn width(&self) -> (w: u32)
        ensures
            w == self.spec_width(),
    {
        self.width
    }

    /// The height in pixels.
    pub fn height(&self) -> (h: u32)
        ensures
            h == self.spec_height(),
    {
        self.height
    }

    /// The pixel at (`x`, `y`).
    pub fn get(&self, x: u32, y: u32) -> (p: Pixel)
        requires
            self.wf(),
            x < self.spec_width(),
            y < self.spec_height(),
        ensures
            p == self.pixels()[y as int][x as int],
    {
        proof {
            self.lemma_data();
        }
        self.data[y as usize][x as usize]
    }

    /// Sets the pixel at (`x`, `y`) to `color`, leaving all others as they were.
    pub fn set(&mut self, x: u32, y: u32, color: &Pixel)
        requires
            old(self).wf(),
            x < old(self).spec_width(),
            y < old(self).spec_height(),
        ensures
            final(self).wf(),
            final(self).spec_width() == old(self).spec_width(),
            final(self).spec_height() == old(self).spec_height(),
            final(self).pixels() == old(self).pixels().update(
                y as int,
                old(self).pixels()[y as int].update(x as int, *color),
            ),
    {
        let ghost before = self.pixels();
        proof {
            self.lemma_data();
        }
        let mut row: Vec<Pixel> = Vec::new();
        std::mem::swap(&mut self.data[y as usize], &mut row);
        row.set(x as usize, *color);
        self.data.set(y as usize, row);
        assert(self.pixels() =~= before.update(y as int, before[y as int].update(x as int, *color)));
    }

    /// Whether `other` has the same size and the same pixels.
    pub fn same_as(&self, other: &Image) -> (b: bool)
        requires
            self.wf(),
            other.wf(),
        ensures
            b == (self.spec_width() == other.spec_width() && self.spec_height() == other.spec_height()
                && self.pixels() == other.pixels()),
    {
        if self.width != other.width || self.height != other.height {
            return false;
        }
        proof {
            self.lemma_data();
            other.lemma_data();
        }
        let mut y: usize = 0;
        while y < self.data.len()
            invariant
                self.wf(),
                other.wf(),
                self.width == other.width,
                self.height == other.height,
                y <= self.data@.len(),
                forall|j: int| 0 <= j < y ==> self.data@[j]@ == other.data@[j]@,
            decreases self.data@.len() - y,
        {
            proof {
                self.lemma_data();
                other.lemma_data();
            }
            let a = &self.data[y];
            let b = &other.data[y];
            let mut x: usize = 0;
            while x < a.len()
                invariant
                    y < self.data@.len(),
                    self.data@.len() == other.data@.len(),
                    *a == self.data@[y as int],
                    *b == other.data@[y as int],
                    a@.len() == b@.len(),
                    x <= a@.len(),
                    forall|i: int| 0 <= i < x ==> a@[i] == b@[i],
                decreases a@.len() - x,
            {
                if a[x] != b[x] {
                    assert(self.pixels()[y as int][x as int] != other.pixels()[y as int][x as int]);
                    return false;
                }
                x = x + 1;
            }
            assert(a@ =~= b@);
            y = y + 1;
        }
        assert(self.pixels() =~= other.pixels()) by {
            assert forall|j: int| 0 <= j < self.pixels().len() implies self.pixels()[j] == other.pixels()[j] by {
                assert(self.data@[j]@ == other.data@[j]@);
            }
        }
        true
    }
}

} // verus!
