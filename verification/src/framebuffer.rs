//! Sample planes of a frame.
//!
//! A plane holds its samples row by row as `u16`, whatever the bit depth, so
//! that every operation on samples exists once. Narrowing to `u8` happens only
//! where frames leave the decoder.

use vstd::prelude::*;
use vstd::arithmetic::div_mod::{lemma_fundamental_div_mod, lemma_fundamental_div_mod_converse};

verus! {

/// A plane of samples.
///
/// A plane normally covers the whole frame (`x0 == 0`). A column strip covers
/// only the absolute pixel columns `x0 .. x0 + width`; every accessor takes
/// absolute x coordinates either way.
#[derive(Debug)]
pub struct Plane {
    pub width: usize,
    pub height: usize,
    /// Absolute pixel column of the first column (0 for a whole-frame plane).
    pub x0: usize,
    /// The samples, row by row.
    pub data: Vec<u16>,
}

/// The index of column `x` of row `y` in a row-major buffer.
pub open spec fn row_major(width: int, x: int, y: int) -> int {
    y * width + x
}

/// A position inside the rectangle has an index inside the buffer, and no
/// other position has it.
pub proof fn lemma_row_major(width: int, height: int, x: int, y: int)
    requires
        0 <= x < width,
        0 <= y < height,
    ensures
        0 <= row_major(width, x, y) < width * height,
        row_major(width, x, y) / width == y,
        row_major(width, x, y) % width == x,
        y * width <= row_major(width, x, y),
        y * width + width <= width * height,
{
    assert(y * width + x < width * height) by (nonlinear_arith)
        requires
            0 <= x < width,
            0 <= y < height,
    ;
    assert(0 <= y * width) by (nonlinear_arith)
        requires
            0 <= y,
            0 < width,
    ;
    assert(y * width + width <= width * height) by (nonlinear_arith)
        requires
            0 <= y < height,
            0 < width,
    ;
    lemma_fundamental_div_mod_converse(row_major(width, x, y), width, y, x);
}

/// Every index inside the buffer is that of one position.
pub proof fn lemma_row_major_inverse(width: int, height: int, i: int)
    requires
        0 < width,
        0 <= i < width * height,
    ensures
        0 <= i % width < width,
        0 <= i / width < height,
        row_major(width, i % width, i / width) == i,
{
    lemma_fundamental_div_mod(i, width);
    assert(0 <= i / width < height) by (nonlinear_arith)
        requires
            0 < width,
            0 <= i < width * height,
            i == width * (i / width) + i % width,
            0 <= i % width < width,
    ;
    assert(width * (i / width) == (i / width) * width) by (nonlinear_arith);
}

/// The top left `cw` columns of `rows` rows of a row-major buffer.
pub open spec fn cropped(samples: Seq<u16>, width: int, cw: int, rows: int) -> Seq<u16> {
    Seq::new((cw * rows) as nat, |i: int| samples[row_major(width, i % cw, i / cw)])
}

impl Clone for Plane {
    fn clone(&self) -> (r: Self)
        ensures
            r.width == self.width,
            r.height == self.height,
            r.x0 == self.x0,
            r.samples() == self.samples(),
    {
        let data: Vec<u16> = self.data.clone();
        assert(data@ =~= self.data@);
        Plane { width: self.width, height: self.height, x0: self.x0, data }
    }
}

impl Plane {
    /// The samples, row by row.
    pub open spec fn samples(&self) -> Seq<u16> {
        self.data@
    }

    /// The buffer holds one sample for each position.
    pub open spec fn wf(&self) -> bool {
        self.data.len() == self.width * self.height
    }

    /// Whether the absolute position lies in the plane.
    pub open spec fn contains(&self, x: int, y: int) -> bool {
        self.x0 <= x < self.x0 + self.width && 0 <= y < self.height
    }

    /// The sample at an absolute position.
    pub open spec fn at(&self, x: int, y: int) -> u16 {
        self.samples()[row_major(self.width as int, x - self.x0, y)]
    }

    /// The same rectangle as another plane.
    pub open spec fn same_shape(&self, other: &Plane) -> bool {
        self.width == other.width && self.height == other.height && self.x0 == other.x0
    }

    /// A plane of zeros that covers a whole frame.
    pub fn new(width: usize, height: usize) -> (r: Self)
        requires
            width * height <= usize::MAX,
        ensures
            r.wf(),
            r.width == width,
            r.height == height,
            r.x0 == 0,
            r.samples() == Seq::new((width * height) as nat, |i: int| 0u16),
    {
        Self::new_strip(width, height, 0)
    }

    /// A column strip of zeros over the absolute pixel columns `x0 .. x0 + width`.
    pub fn new_strip(width: usize, height: usize, x0: usize) -> (r: Self)
        requires
            width * height <= usize::MAX,
        ensures
            r.wf(),
            r.width == width,
            r.height == height,
            r.x0 == x0,
            r.samples() == Seq::new((width * height) as nat, |i: int| 0u16),
    {
        let data: Vec<u16> = vec![0u16; width * height];
        assert(data@ =~= Seq::new((width * height) as nat, |i: int| 0u16));
        Plane { width, height, x0, data }
    }

    /// The sample at an absolute position.
    pub fn get(&self, x: usize, y: usize) -> (v: u16)
        requires
            self.wf(),
            self.contains(x as int, y as int),
        ensures
            v == self.at(x as int, y as int),
    {
        proof {
            lemma_row_major(self.width as int, self.height as int, x - self.x0, y as int);
        }
        self.data[y * self.width + (x - self.x0)]
    }

    /// Replaces the sample at an absolute position, and no other.
    pub fn set(&mut self, x: usize, y: usize, v: u16)
        requires
            old(self).wf(),
            old(self).contains(x as int, y as int),
        ensures
            final(self).wf(),
            final(self).same_shape(old(self)),
            final(self).samples() == old(self).samples().update(
                row_major(old(self).width as int, x - old(self).x0, y as int),
                v,
            ),
            final(self).at(x as int, y as int) == v,
            forall|x2: int, y2: int|
                old(self).contains(x2, y2) && (x2 != x || y2 != y) ==> #[trigger] final(self).at(
                    x2,
                    y2,
                ) == old(self).at(x2, y2),
    {
        proof {
            lemma_row_major(self.width as int, self.height as int, x - self.x0, y as int);
            assert forall|x2: int, y2: int|
                self.contains(x2, y2) && (x2 != x || y2 != y) implies row_major(
                self.width as int,
                x2 - self.x0,
                y2,
            ) != #[trigger] row_major(self.width as int, x - self.x0, y as int) && 0 <= row_major(
                self.width as int,
                x2 - self.x0,
                y2,
            ) < self.samples().len() by {
                lemma_row_major(self.width as int, self.height as int, x2 - self.x0, y2);
            }
            assert forall|x2: int, y2: int|
                self.contains(x2, y2) && (x2 != x || y2 != y) implies #[trigger] self.samples().update(
                row_major(self.width as int, x - self.x0, y as int),
                v,
            )[row_major(self.width as int, x2 - self.x0, y2)] == self.samples()[row_major(
                self.width as int,
                x2 - self.x0,
                y2,
            )] by {
                lemma_row_major(self.width as int, self.height as int, x2 - self.x0, y2);
            }
        }
        let i: usize = y * self.width + (x - self.x0);
        self.data[i] = v;
    }

    /// The sample at the position of the plane that is nearest to `(x, y)`. On a
    /// column strip the x coordinate is limited to the strip's columns.
    pub fn get_clamped(&self, x: i64, y: i64) -> (v: u16)
        requires
            self.wf(),
            self.width > 0,
            self.height > 0,
            self.x0 + self.width <= usize::MAX,
            self.x0 + self.width <= i64::MAX,
            self.height <= i64::MAX,
        ensures
            v == self.at(
                crate::common::spec_clip3(self.x0 as int, self.x0 + self.width - 1, x as int),
                crate::common::spec_clip3(0, self.height - 1, y as int),
            ),
    {
        let lo: i64 = self.x0 as i64;
        let hi: i64 = (self.x0 + self.width) as i64 - 1;
        let last: i64 = self.height as i64 - 1;
        let cx: usize = if x < lo {
            lo as usize
        } else if x > hi {
            hi as usize
        } else {
            x as usize
        };
        let cy: usize = if y < 0 {
            0
        } else if y > last {
            last as usize
        } else {
            y as usize
        };
        self.get(cx, cy)
    }

    /// The row-major buffer.
    pub fn as_slice(&self) -> (s: &[u16])
        ensures
            s@ == self.samples(),
    {
        self.data.as_slice()
    }

    /// The row-major buffer, for writing.
    pub fn as_mut_slice(&mut self) -> (s: &mut [u16])
        ensures
            s@ == old(self).samples(),
            final(self).samples() == final(s)@,
            final(self).same_shape(old(self)),
    {
        self.data.as_mut_slice()
    }

    /// The samples of the first `crop_width` columns of the first
    /// `crop_height` rows, row by row.
    pub fn crop(&self, crop_width: usize, crop_height: usize) -> (out: Vec<u16>)
        requires
            self.x0 == 0,
            crop_width * crop_height <= usize::MAX,
            crop_height > 0 ==> (crop_height - 1) * self.width + crop_width <= self.samples().len(),
        ensures
            out@ == cropped(
                self.samples(),
                self.width as int,
                crop_width as int,
                crop_height as int,
            ),
    {
        let mut out: Vec<u16> = Vec::with_capacity(crop_width * crop_height);
        assert(out@ =~= cropped(self.samples(), self.width as int, crop_width as int, 0));
        assert(self.samples().len() == self.data.len());
        let ghost w = self.width as int;
        let ghost cw = crop_width as int;
        for y in 0..crop_height
            invariant
                w == self.width,
                cw == crop_width,
                self.samples().len() == self.data.len(),
                crop_width * crop_height <= usize::MAX,
                crop_height > 0 ==> (crop_height - 1) * self.width + crop_width
                    <= self.samples().len(),
                out@ == cropped(self.samples(), w, cw, y as int),
        {
            proof {
                lemma_row_fits(w, cw, y as int, crop_height as int, self.samples().len() as int);
                lemma_crop_step(self.samples(), w, cw, y as int, 0);
            }
            let row_start: usize = y * self.width;
            for x in 0..crop_width
                invariant
                    w == self.width,
                    cw == crop_width,
                    0 <= y,
                    self.samples().len() == self.data.len(),
                    row_start == y * self.width,
                    row_start + crop_width <= self.samples().len(),
                    out@ == crop_partial(self.samples(), w, cw, y as int, x as int),
            {
                proof {
                    lemma_crop_step(self.samples(), w, cw, y as int, x as int);
                }
                out.push(self.data[row_start + x]);
            }
            proof {
                lemma_crop_step(self.samples(), w, cw, y as int, cw);
            }
        }
        out
    }

    /// The same as [`Plane::crop`], with each sample cut down to its low byte.
    pub fn crop_u8(&self, crop_width: usize, crop_height: usize) -> (out: Vec<u8>)
        requires
            self.x0 == 0,
            crop_width * crop_height <= usize::MAX,
            crop_height > 0 ==> (crop_height - 1) * self.width + crop_width <= self.samples().len(),
        ensures
            out@ == cropped(
                self.samples(),
                self.width as int,
                crop_width as int,
                crop_height as int,
            ).map_values(|v: u16| (v % 256) as u8),
            out.len() == crop_width * crop_height,
            (forall|k: int| 0 <= k < self.samples().len() ==> #[trigger] self.samples()[k] <= 255)
                ==> forall|i: int|
                0 <= i < out.len() ==> #[trigger] out[i] == cropped(
                    self.samples(),
                    self.width as int,
                    crop_width as int,
                    crop_height as int,
                )[i],
    {
        proof {
            assert(0 <= crop_width * crop_height) by (nonlinear_arith)
                requires
                    0 <= crop_width,
                    0 <= crop_height,
            ;
            if forall|k: int| 0 <= k < self.samples().len() ==> #[trigger] self.samples()[k] <= 255 {
                lemma_crops_agree(*self, crop_width as int, crop_height as int);
            }
        }
        let wide: Vec<u16> = self.crop(crop_width, crop_height);
        let mut out: Vec<u8> = Vec::with_capacity(wide.len());
        for i in 0..wide.len()
            invariant
                out.len() == i,
                forall|k: int| 0 <= k < i ==> #[trigger] out[k] == (wide[k] % 256) as u8,
        {
            out.push((wide[i] % 256) as u8);
        }
        assert(out@ =~= wide@.map_values(|v: u16| (v % 256) as u8));
        out
    }

    /// The same as [`Plane::crop`], as a new plane.
    pub fn crop_to_plane(&self, crop_width: usize, crop_height: usize) -> (r: Plane)
        requires
            self.x0 == 0,
            crop_width * crop_height <= usize::MAX,
            crop_height > 0 ==> (crop_height - 1) * self.width + crop_width <= self.samples().len(),
        ensures
            r.wf(),
            r.width == crop_width,
            r.height == crop_height,
            r.x0 == 0,
            r.samples() == cropped(
                self.samples(),
                self.width as int,
                crop_width as int,
                crop_height as int,
            ),
    {
        proof {
            assert(0 <= crop_width * crop_height) by (nonlinear_arith)
                requires
                    0 <= crop_width,
                    0 <= crop_height,
            ;
        }
        Plane { width: crop_width, height: crop_height, x0: 0, data: self.crop(crop_width, crop_height) }
    }
}

/// Both ways of cropping agree where every sample fits in a byte.
pub proof fn lemma_crops_agree(p: Plane, crop_width: int, crop_height: int)
    requires
        0 <= crop_width,
        0 <= crop_height,
        crop_height > 0 ==> (crop_height - 1) * p.width + crop_width <= p.samples().len(),
        forall|k: int| 0 <= k < p.samples().len() ==> #[trigger] p.samples()[k] <= 255,
    ensures
        ({
            let wide = cropped(p.samples(), p.width as int, crop_width, crop_height);
            let narrow = wide.map_values(|v: u16| (v % 256) as u8);
            &&& wide.len() == crop_width * crop_height
            &&& narrow.len() == wide.len()
            &&& forall|i: int| 0 <= i < wide.len() ==> #[trigger] narrow[i] == wide[i]
        }),
{
    let w = p.width as int;
    let n = crop_width * crop_height;
    let wide = cropped(p.samples(), w, crop_width, crop_height);
    let narrow = wide.map_values(|v: u16| (v % 256) as u8);
    assert(0 <= n) by (nonlinear_arith)
        requires
            0 <= crop_width,
            0 <= crop_height,
            n == crop_width * crop_height,
    ;
    assert forall|i: int| 0 <= i < wide.len() implies #[trigger] narrow[i] == wide[i] by {
        assert(0 < crop_width && 0 < crop_height) by (nonlinear_arith)
            requires
                0 <= crop_width,
                0 <= crop_height,
                0 <= i < crop_width * crop_height,
        ;
        let x = i % crop_width;
        let y = i / crop_width;
        lemma_fundamental_div_mod(i, crop_width);
        assert(0 <= y < crop_height) by (nonlinear_arith)
            requires
                0 <= i < crop_width * crop_height,
                0 < crop_width,
                i == crop_width * y + x,
                0 <= x < crop_width,
        ;
        lemma_row_fits(w, crop_width, y, crop_height, p.samples().len() as int);
        let k = row_major(w, x, y);
        assert(0 <= k < p.samples().len());
        assert(p.samples()[k] <= 255);
    }
}

/// A crop that has taken `rows` rows and `x` samples of the next one.
spec fn crop_partial(samples: Seq<u16>, width: int, cw: int, rows: int, x: int) -> Seq<u16> {
    Seq::new((cw * rows + x) as nat, |i: int| samples[row_major(width, i % cw, i / cw)])
}

proof fn lemma_row_fits(width: int, cw: int, y: int, rows: int, len: int)
    requires
        0 <= y < rows,
        0 <= width,
        0 <= cw,
        (rows - 1) * width + cw <= len,
    ensures
        0 <= y * width,
        y * width + cw <= len,
{
    assert(0 <= y * width <= (rows - 1) * width) by (nonlinear_arith)
        requires
            0 <= y < rows,
            0 <= width,
    ;
}

proof fn lemma_crop_step(samples: Seq<u16>, width: int, cw: int, rows: int, x: int)
    requires
        0 <= x <= cw,
        0 <= rows,
    ensures
        x == 0 ==> crop_partial(samples, width, cw, rows, x) == cropped(samples, width, cw, rows),
        x == cw ==> crop_partial(samples, width, cw, rows, x) == cropped(
            samples,
            width,
            cw,
            rows + 1,
        ),
        x < cw ==> crop_partial(samples, width, cw, rows, x + 1) == crop_partial(
            samples,
            width,
            cw,
            rows,
            x,
        ).push(samples[rows * width + x]),
{
    assert(cw * rows >= 0) by (nonlinear_arith)
        requires
            0 <= cw,
            0 <= rows,
    ;
    assert(cw * (rows + 1) == cw * rows + cw) by (nonlinear_arith);
    if x == 0 {
        assert(crop_partial(samples, width, cw, rows, x) =~= cropped(samples, width, cw, rows));
    }
    if x == cw {
        assert(crop_partial(samples, width, cw, rows, x) =~= cropped(samples, width, cw, rows + 1));
    }
    if x < cw {
        assert(rows * cw == cw * rows) by (nonlinear_arith);
        lemma_fundamental_div_mod_converse(cw * rows + x, cw, rows, x);
        assert(crop_partial(samples, width, cw, rows, x + 1) =~= crop_partial(
            samples,
            width,
            cw,
            rows,
            x,
        ).push(samples[rows * width + x]));
    }
}

/// A crop keeps the samples of its rectangle where they were.
pub proof fn lemma_crop_keeps_samples(p: Plane, c: Plane, x: int, y: int)
    requires
        p.x0 == 0,
        c.wf(),
        c.x0 == 0,
        c.samples() == cropped(p.samples(), p.width as int, c.width as int, c.height as int),
        c.contains(x, y),
    ensures
        c.at(x, y) == p.at(x, y),
{
    lemma_row_major(c.width as int, c.height as int, x, y);
}

} // verus!
