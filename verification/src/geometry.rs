//! Where the tiles lie: origins and extents computed from the image's
//! dimensions alone.

use vstd::prelude::*;

verus! {

/// A rectangle of pixels: its top-left corner and its size.
pub struct Rect {
    pub x: int,
    pub y: int,
    pub width: int,
    pub height: int,
}

impl Rect {
    /// The pixel `(px, py)` lies in the rectangle.
    pub open spec fn contains(self, px: int, py: int) -> bool {
        &&& self.x <= px < self.x + self.width
        &&& self.y <= py < self.y + self.height
    }

    /// The number of pixels in the rectangle.
    pub open spec fn area(self) -> int {
        self.width * self.height
    }

    /// The rectangle lies within an image of the given size.
    pub open spec fn within(self, width: int, height: int) -> bool {
        &&& 0 <= self.x
        &&& 0 <= self.y
        &&& 0 <= self.width
        &&& 0 <= self.height
        &&& self.x + self.width <= width
        &&& self.y + self.height <= height
    }
}

/// Rows and columns of the uniform grid.
pub const GRID: u32 = 3;

/// How many steps of length `step` it takes to walk `length`: the quotient,
/// rounded up.
pub open spec fn steps(length: int, step: int) -> int {
    (length + step - 1) / step
}

/// The length of the `k`-th step of length `step` along `length`: a full step,
/// or what is left of `length` where that is less.
pub open spec fn step_extent(length: int, step: int, k: int) -> int {
    if length - k * step < step {
        length - k * step
    } else {
        step
    }
}

/// The number of tiles of `tile_width` by `tile_height` that cover an image of
/// `width` by `height`.
pub open spec fn sized_count(width: int, height: int, tile_width: int, tile_height: int) -> int {
    steps(width, tile_width) * steps(height, tile_height)
}

/// The `i`-th tile, counting row by row, of the cover of an image of `width`
/// by `height` with tiles of `tile_width` by `tile_height`.
pub open spec fn sized_rect(
    width: int,
    height: int,
    tile_width: int,
    tile_height: int,
    i: int,
) -> Rect {
    let cols = steps(width, tile_width);
    let col = i % cols;
    let row = i / cols;
    Rect {
        x: col * tile_width,
        y: row * tile_height,
        width: step_extent(width, tile_width, col),
        height: step_extent(height, tile_height, row),
    }
}

/// The `i`-th tile, counting row by row, of the uniform grid over an image of
/// `width` by `height`. Every tile has a third of each dimension, rounded
/// down.
pub open spec fn uniform_rect(width: int, height: int, i: int) -> Rect {
    let tile_width = width / (GRID as int);
    let tile_height = height / (GRID as int);
    Rect {
        x: (i % (GRID as int)) * tile_width,
        y: (i / (GRID as int)) * tile_height,
        width: tile_width,
        height: tile_height,
    }
}

/// The number of steps of length `step` along `length`.
pub(crate) fn step_count(length: u32, step: u32) -> (n: u32)
    requires
        step > 0,
    ensures
        n == steps(length as int, step as int),
{
    let whole: u32 = length / step;
    let rest: u32 = length % step;
    proof {
        lemma_steps(length as int, step as int);
    }
    if rest == 0 {
        whole
    } else {
        whole + 1
    }
}

/// `steps` is the quotient where `step` divides `length`, and one more where
/// it does not. There are no more steps than units of length, and together
/// they reach its end.
pub proof fn lemma_steps(length: int, step: int)
    requires
        length >= 0,
        step > 0,
    ensures
        steps(length, step) == if length % step == 0 {
            length / step
        } else {
            length / step + 1
        },
        0 <= steps(length, step) <= length,
        steps(length, step) * step >= length,
{
    let q = length / step;
    let r = length % step;
    vstd::arithmetic::div_mod::lemma_fundamental_div_mod(length, step);
    assert(length == step * q + r);
    assert(0 <= r < step) by {
        vstd::arithmetic::div_mod::lemma_mod_bound(length, step);
    }
    assert(q >= 0) by {
        vstd::arithmetic::div_mod::lemma_div_pos_is_pos(length, step);
    }
    let n = steps(length, step);
    if r == 0 {
        assert(length + step - 1 == step * q + (step - 1));
        vstd::arithmetic::div_mod::lemma_fundamental_div_mod_converse(
            length + step - 1,
            step,
            q,
            step - 1,
        );
        assert(n == q);
    } else {
        assert(length + step - 1 == step * (q + 1) + (r - 1)) by (nonlinear_arith)
            requires
                length == step * q + r,
        ;
        vstd::arithmetic::div_mod::lemma_fundamental_div_mod_converse(
            length + step - 1,
            step,
            q + 1,
            r - 1,
        );
        assert(n == q + 1);
    }
    assert(n <= length) by (nonlinear_arith)
        requires
            length == step * q + r,
            step >= 1,
            q >= 0,
            0 <= r < step,
            n == if r == 0 { q } else { q + 1 },
    ;
    assert(n * step >= length) by (nonlinear_arith)
        requires
            length == step * q + r,
            0 <= r < step,
            n == if r == 0 { q } else { q + 1 },
    ;
}

/// Every step starts inside `length`, and is neither empty nor longer than
/// `step` nor than what is left of `length`. All steps but the last are full;
/// the last ends where `length` ends, and is shorter than `step` exactly where
/// `step` does not divide `length`: it is then the remainder long.
pub proof fn lemma_step_extent(length: int, step: int, k: int)
    requires
        length >= 0,
        step > 0,
        0 <= k < steps(length, step),
    ensures
        0 <= k * step < length,
        0 < step_extent(length, step, k) <= step,
        k * step + step_extent(length, step, k) <= length,
        k + 1 < steps(length, step) ==> step_extent(length, step, k) == step,
        k + 1 == steps(length, step) ==> k * step + step_extent(length, step, k) == length,
        k + 1 == steps(length, step) ==> step_extent(length, step, k) == if length % step == 0 {
            step
        } else {
            length % step
        },
{
    lemma_steps(length, step);
    let q = length / step;
    let r = length % step;
    let n = steps(length, step);
    vstd::arithmetic::div_mod::lemma_fundamental_div_mod(length, step);
    vstd::arithmetic::div_mod::lemma_mod_bound(length, step);
    assert(0 <= k * step) by (nonlinear_arith)
        requires
            0 <= k,
            0 < step,
    ;
    assert(k * step < length && (k + 1 < n ==> (k + 1) * step <= length) && (k + 1 == n
        ==> (k + 1) * step >= length)) by (nonlinear_arith)
        requires
            0 <= k < n,
            length == step * q + r,
            0 <= r < step,
            n == if r == 0 { q } else { q + 1 },
    ;
    assert((k + 1) * step == k * step + step) by (nonlinear_arith);
    if k + 1 == n {
        assert(k * step == length - (if r == 0 { step } else { r })) by (nonlinear_arith)
            requires
                length == step * q + r,
                k + 1 == (if r == 0 { q } else { q + 1 }),
        ;
    }
}

} // verus!
