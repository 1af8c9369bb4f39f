//! A decoded image: a grid of pixels of four 8-bit samples each (red, green,
//! blue, alpha), stored row by row.

use crate::geometry::Rect;
use vstd::prelude::*;

verus! {

/// What a pixel grid holds: its dimensions and its samples, row by row and,
/// within a row, pixel by pixel.
pub struct Grid {
    pub width: nat,
    pub height: nat,
    pub samples: Seq<u8>,
}

/// The place among a grid's samples of channel `c` of the pixel in column `x`
/// of row `y`, in a grid `width` pixels wide.
pub open spec fn sample_index(width: int, x: int, y: int, c: int) -> int {
    4 * (y * width + x) + c
}

impl Grid {
    /// There are exactly as many samples as the dimensions ask for.
    pub open spec fn wf(self) -> bool {
        self.samples.len() == 4 * self.width * self.height
    }

    /// Channel `c` of the pixel in column `x` of row `y`.
    pub open spec fn sample(self, x: int, y: int, c: int) -> u8 {
        self.samples[sample_index(self.width as int, x, y, c)]
    }

    /// The four samples of the pixel in column `x` of row `y`.
    pub open spec fn pixel(self, x: int, y: int) -> Seq<u8> {
        Seq::new(4, |c: int| self.sample(x, y, c))
    }

    /// The grid of the pixels that lie in `r`, each at its place relative to
    /// the corner of `r`.
    pub open spec fn region(self, r: Rect) -> Grid {
        Grid {
            width: r.width as nat,
            height: r.height as nat,
            samples: Seq::new(
                (4 * r.width * r.height) as nat,
                |k: int| self.sample(r.x + (k / 4) % r.width, r.y + (k / 4) / r.width, k % 4),
            ),
        }
    }
}

/// Where a sample of a region comes from. The sample at place `t` of row `j`
/// of `grid.region(r)` is the sample at place `t` of the part of row
/// `r.y + j` of `grid` that starts in column `r.x`.
pub proof fn lemma_region_sample(grid: Grid, r: Rect, j: int, t: int)
    requires
        0 < r.width,
        0 <= j < r.height,
        0 <= t < 4 * r.width,
    ensures
        0 <= 4 * r.width * j + t < 4 * r.width * r.height,
        grid.region(r).samples[4 * r.width * j + t] == grid.samples[sample_index(
            grid.width as int,
            r.x,
            r.y + j,
            t,
        )],
        grid.region(r).samples[4 * r.width * j + t] == grid.sample(r.x + t / 4, r.y + j, t % 4),
{
    let w = r.width;
    let k = 4 * w * j + t;
    assert(0 <= k < 4 * w * r.height) by (nonlinear_arith)
        requires
            k == 4 * w * j + t,
            0 < w,
            0 <= j < r.height,
            0 <= t < 4 * w,
    ;
    let p = w * j + t / 4;
    assert(k == 4 * p + t % 4) by (nonlinear_arith)
        requires
            k == 4 * w * j + t,
            p == w * j + t / 4,
            t == 4 * (t / 4) + t % 4,
    ;
    vstd::arithmetic::div_mod::lemma_fundamental_div_mod_converse(k, 4, p, t % 4);
    assert(0 <= t / 4 < w);
    vstd::arithmetic::div_mod::lemma_fundamental_div_mod_converse(p, w, j, t / 4);
    assert(k / 4 == p && k % 4 == t % 4);
    assert(p % w == t / 4 && p / w == j);
    assert(grid.region(r).samples[k] == grid.sample(r.x + t / 4, r.y + j, t % 4));
    assert(sample_index(grid.width as int, r.x + t / 4, r.y + j, t % 4) == sample_index(
        grid.width as int,
        r.x,
        r.y + j,
        t,
    )) by (nonlinear_arith)
        requires
            t == 4 * (t / 4) + t % 4,
    ;
}

/// A region holds the pixels of its rectangle, each at its place relative to
/// the rectangle's corner, and exactly as many samples as its size asks for.
pub proof fn lemma_region_pixel(grid: Grid, r: Rect, i: int, j: int, c: int)
    requires
        0 <= i < r.width,
        0 <= j < r.height,
        0 <= c < 4,
    ensures
        grid.region(r).wf(),
        grid.region(r).width == r.width,
        grid.region(r).height == r.height,
        grid.region(r).sample(i, j, c) == grid.sample(r.x + i, r.y + j, c),
{
    let t = 4 * i + c;
    lemma_region_sample(grid, r, j, t);
    assert(t / 4 == i && t % 4 == c);
    assert(sample_index(r.width, i, j, c) == 4 * r.width * j + t) by (nonlinear_arith)
        requires
            t == 4 * i + c,
    ;
    assert(4 * r.width * r.height >= 0) by (nonlinear_arith)
        requires
            r.width > 0,
            r.height > 0,
    ;
    assert(4 * (r.width as nat) * (r.height as nat) == 4 * r.width * r.height);
}

/// A pixel grid that owns its samples.
#[derive(Debug, PartialEq, Eq)]
pub struct PixelGrid {
    width: u32,
    height: u32,
    samples: Vec<u8>,
}

impl View for PixelGrid {
    type V = Grid;

    closed spec fn view(&self) -> Grid {
        Grid { width: self.width as nat, height: self.height as nat, samples: self.samples@ }
    }
}

impl Clone for PixelGrid {
    /// A grid of its own that holds the same pixels.
    fn clone(&self) -> (out: PixelGrid)
        ensures
            out@ == self@,
    {
        proof {
            use_type_invariant(self);
        }
        let samples = self.samples.clone();
        assert(samples@ =~= self.samples@);
        PixelGrid { width: self.width, height: self.height, samples }
    }
}

impl PixelGrid {
    #[verifier::type_invariant]
    spec fn inv(self) -> bool {
        self.samples@.len() == 4 * self.width * self.height
    }

    /// A grid of `width` by `height` pixels over the given samples. There must
    /// be enough of them; those beyond the last pixel are dropped.
    pub fn from_raw(width: u32, height: u32, samples: Vec<u8>) -> (out: Option<PixelGrid>)
        ensures
            out is Some <==> samples@.len() >= 4 * width * height,
            out matches Some(grid) ==> {
                &&& grid@.width == width
                &&& grid@.height == height
                &&& grid@.samples == samples@.subrange(0, 4 * width * height)
                &&& grid@.wf()
            },
    {
        assert(4 * width * height <= 4 * 0xffff_ffff * 0xffff_ffff) by (nonlinear_arith)
            requires
                width <= 0xffff_ffff,
                height <= 0xffff_ffff,
        ;
        assert(4 * width <= 4 * 0xffff_ffff);
        let needed: u128 = 4u128 * (width as u128) * (height as u128);
        if (samples.len() as u128) < needed {
            return None;
        }
        let mut samples = samples;
        samples.truncate(needed as usize);
        Some(PixelGrid { width, height, samples })
    }

    /// The number of pixels in a row.
    pub fn width(&self) -> (w: u32)
        ensures
            w == self@.width,
            self@.wf(),
    {
        proof {
            use_type_invariant(self);
        }
        self.width
    }

    /// The number of rows.
    pub fn height(&self) -> (h: u32)
        ensures
            h == self@.height,
            self@.wf(),
    {
        proof {
            use_type_invariant(self);
        }
        self.height
    }

    /// The samples, row by row.
    pub fn samples(&self) -> (s: &Vec<u8>)
        ensures
            s@ == self@.samples,
            self@.wf(),
    {
        proof {
            use_type_invariant(self);
        }
        &self.samples
    }

    /// The four samples of the pixel in column `x` of row `y`, where the grid
    /// has such a pixel.
    pub fn pixel(&self, x: u32, y: u32) -> (out: Option<[u8; 4]>)
        ensures
            self@.wf(),
            out is Some <==> x < self@.width && y < self@.height,
            out matches Some(p) ==> p@ == self@.pixel(x as int, y as int),
    {
        proof {
            use_type_invariant(self);
        }
        if x >= self.width || y >= self.height {
            return None;
        }
        let total: usize = self.samples.len();
        let stride: usize = self.width as usize;
        assert(4 * (y * stride + x) + 4 <= total && y * stride >= 0) by (nonlinear_arith)
            requires
                total == 4 * stride * self.height,
                0 <= x < stride,
                0 <= y < self.height,
        ;
        let at: usize = 4 * ((y as usize) * stride + (x as usize));
        let p: [u8; 4] = [
            self.samples[at],
            self.samples[at + 1],
            self.samples[at + 2],
            self.samples[at + 3],
        ];
        assert(p@ =~= self@.pixel(x as int, y as int));
        Some(p)
    }

    /// The pixels of the rectangle of `width` by `height` whose top-left corner
    /// is at column `x` of row `y`, as a grid of their own. There is none
    /// where the rectangle reaches beyond the grid.
    pub fn region(&self, x: u32, y: u32, width: u32, height: u32) -> (out: Option<PixelGrid>)
        ensures
            self@.wf(),
            out is Some <==> x + width <= self@.width && y + height <= self@.height,
            out matches Some(tile) ==> {
                &&& tile@ == self@.region(
                    (Rect { x: x as int, y: y as int, width: width as int, height: height as int }),
                )
                &&& tile@.wf()
            },
    {
        proof {
            use_type_invariant(self);
        }
        if x > self.width || width > self.width - x || y > self.height || height > self.height
            - y {
            return None;
        }
        let ghost r = Rect { x: x as int, y: y as int, width: width as int, height: height as int };
        let ghost target = self@.region(r);
        let mut samples: Vec<u8> = Vec::new();
        if width == 0 || height == 0 {
            assert(4 * r.width * r.height == 0) by (nonlinear_arith)
                requires
                    r.width == 0 || r.height == 0,
            ;
            assert(samples@ =~= target.samples);
            return Some(PixelGrid { width, height, samples });
        }
        let total: usize = self.samples.len();
        let stride: usize = self.width as usize;
        assert(4 * stride <= total && 4 * stride * self.height == total) by (nonlinear_arith)
            requires
                total == 4 * self.width * self.height,
                stride == self.width,
                self.height >= 1,
        ;
        let row_len: usize = 4 * (width as usize);
        assert(row_len * height <= total) by (nonlinear_arith)
            requires
                total == 4 * stride * self.height,
                row_len == 4 * width,
                0 <= width <= stride,
                0 <= height <= self.height,
        ;
        samples.reserve(row_len * (height as usize));
        let mut j: u32 = 0;
        while j < height
            invariant
                0 <= j <= height,
                0 < width,
                x + width <= self.width,
                y + height <= self.height,
                total == self.samples@.len(),
                total == 4 * self.width * self.height,
                stride == self.width,
                row_len == 4 * width,
                r == (Rect { x: x as int, y: y as int, width: width as int, height: height as int }),
                target == self@.region(r),
                samples@.len() == 4 * width * j,
                forall|k: int| 0 <= k < samples@.len() ==> samples@[k] == target.samples[k],
            decreases height - j,
        {
            assert(4 * ((y + j) * stride + x) + row_len <= total && (y + j) * stride + x >= 0 && (y
                + j) * stride >= 0 && (y + j) * stride + x <= total) by (nonlinear_arith)
                requires
                    total == 4 * stride * self.height,
                    x + width <= stride,
                    y + j < self.height,
                    row_len == 4 * width,
                    0 <= x,
                    0 <= y,
                    0 <= j,
                    0 <= width,
            ;
            let row_start: usize = 4 * ((y as usize + j as usize) * stride + x as usize);
            assert(4 * width * (j + 1) == 4 * width * j + row_len) by (nonlinear_arith)
                requires
                    row_len == 4 * width,
            ;
            let mut t: usize = 0;
            while t < row_len
                invariant
                    0 <= t <= row_len,
                    0 < width,
                    j < height,
                    row_len == 4 * width,
                    row_start + row_len <= total,
                    row_start == sample_index(self@.width as int, x as int, y + j, 0),
                    total == self.samples@.len(),
                    r == (Rect {
                        x: x as int,
                        y: y as int,
                        width: width as int,
                        height: height as int,
                    }),
                    target == self@.region(r),
                    samples@.len() == 4 * width * j + t,
                    forall|k: int| 0 <= k < samples@.len() ==> samples@[k] == target.samples[k],
                decreases row_len - t,
            {
                proof {
                    lemma_region_sample(self@, r, j as int, t as int);
                }
                samples.push(self.samples[row_start + t]);
                t += 1;
            }
            j += 1;
        }
        proof {
            assert(samples@.len() == 4 * r.width * r.height) by (nonlinear_arith)
                requires
                    samples@.len() == 4 * width * j,
                    j == height,
                    r.width == width,
                    r.height == height,
            ;
            assert(samples@ =~= target.samples);
        }
        Some(PixelGrid { width, height, samples })
    }

    /// Gives up the grid for its samples.
    pub fn into_raw(self) -> (s: Vec<u8>)
        ensures
            s@ == self@.samples,
            self@.wf(),
    {
        proof {
            use_type_invariant(&self);
        }
        self.samples
    }
}

} // verus!
