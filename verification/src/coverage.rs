//! What the two cuts cover: which pixels lie in which tile, and how large the
//! tiles are together.

use crate::geometry::{
    lemma_step_extent, lemma_steps, sized_count, sized_rect, step_extent, steps, uniform_rect,
    Rect, GRID,
};
use crate::grid::{lemma_region_pixel, Grid};
use crate::split::{is_sized_split, is_uniform_split};
use vstd::prelude::*;

verus! {

/// The tile of the sized cut that stands in column `col` of row `row` is the
/// tile number `row * cols + col`, where `cols` is the number of columns: the
/// tiles are numbered row by row, and within a row from left to right. Its
/// corner is at `(col * tile_width, row * tile_height)`.
pub proof fn lemma_sized_rect_at(
    width: int,
    height: int,
    tile_width: int,
    tile_height: int,
    row: int,
    col: int,
)
    requires
        width >= 0,
        height >= 0,
        tile_width > 0,
        tile_height > 0,
        0 <= row < steps(height, tile_height),
        0 <= col < steps(width, tile_width),
    ensures
        0 <= row * steps(width, tile_width) + col < sized_count(
            width,
            height,
            tile_width,
            tile_height,
        ),
        sized_rect(
            width,
            height,
            tile_width,
            tile_height,
            row * steps(width, tile_width) + col,
        ) == (Rect {
            x: col * tile_width,
            y: row * tile_height,
            width: step_extent(width, tile_width, col),
            height: step_extent(height, tile_height, row),
        }),
{
    let cols = steps(width, tile_width);
    let rows = steps(height, tile_height);
    let i = row * cols + col;
    vstd::arithmetic::div_mod::lemma_fundamental_div_mod_converse(i, cols, row, col);
    assert(0 <= i < cols * rows) by (nonlinear_arith)
        requires
            i == row * cols + col,
            0 <= row < rows,
            0 <= col < cols,
    ;
}

/// Every tile of the sized cut lies within the image and holds at least one
/// pixel. It has the size that was asked for, but in the last column, where it
/// is as wide as what is left of the image's width, and in the last row, where
/// it is as high as what is left of its height: less than was asked for
/// exactly where the tile's dimension does not divide the image's.
pub proof fn lemma_sized_rect_within(
    width: int,
    height: int,
    tile_width: int,
    tile_height: int,
    i: int,
)
    requires
        width >= 0,
        height >= 0,
        tile_width > 0,
        tile_height > 0,
        0 <= i < sized_count(width, height, tile_width, tile_height),
    ensures
        sized_rect(width, height, tile_width, tile_height, i).within(width, height),
        0 <= i % steps(width, tile_width) < steps(width, tile_width),
        0 <= i / steps(width, tile_width) < steps(height, tile_height),
        ({
            let r = sized_rect(width, height, tile_width, tile_height, i);
            let cols = steps(width, tile_width);
            let rows = steps(height, tile_height);
            &&& 0 < r.width <= tile_width
            &&& 0 < r.height <= tile_height
            &&& r.width == if i % cols == cols - 1 {
                width - (cols - 1) * tile_width
            } else {
                tile_width
            }
            &&& r.height == if i / cols == rows - 1 {
                height - (rows - 1) * tile_height
            } else {
                tile_height
            }
            &&& r.width < tile_width <==> i % cols == cols - 1 && width % tile_width != 0
            &&& r.height < tile_height <==> i / cols == rows - 1 && height % tile_height != 0
            &&& r.width < tile_width ==> r.width == width % tile_width
            &&& r.height < tile_height ==> r.height == height % tile_height
        }),
{
    let cols = steps(width, tile_width);
    let rows = steps(height, tile_height);
    lemma_steps(width, tile_width);
    lemma_steps(height, tile_height);
    assert(cols > 0) by (nonlinear_arith)
        requires
            0 <= i < cols * rows,
            cols >= 0,
            rows >= 0,
    ;
    let col = i % cols;
    let row = i / cols;
    vstd::arithmetic::div_mod::lemma_fundamental_div_mod(i, cols);
    vstd::arithmetic::div_mod::lemma_mod_bound(i, cols);
    assert(0 <= row < rows) by (nonlinear_arith)
        requires
            i == cols * row + col,
            0 <= col < cols,
            0 <= i < cols * rows,
    ;
    lemma_step_extent(width, tile_width, col);
    lemma_step_extent(height, tile_height, row);
}

/// Every pixel of the image lies in exactly one tile of the sized cut: the
/// tile in column `px / tile_width` of row `py / tile_height`.
pub proof fn lemma_sized_cover_once(
    width: int,
    height: int,
    tile_width: int,
    tile_height: int,
    px: int,
    py: int,
)
    requires
        tile_width > 0,
        tile_height > 0,
        0 <= px < width,
        0 <= py < height,
    ensures
        ({
            let cols = steps(width, tile_width);
            let count = sized_count(width, height, tile_width, tile_height);
            let home = (py / tile_height) * cols + px / tile_width;
            &&& 0 <= home < count
            &&& sized_rect(width, height, tile_width, tile_height, home).contains(px, py)
            &&& forall|i: int|
                0 <= i < count && (#[trigger] sized_rect(
                    width,
                    height,
                    tile_width,
                    tile_height,
                    i,
                )).contains(px, py) ==> i == home
        }),
{
    let cols = steps(width, tile_width);
    let rows = steps(height, tile_height);
    let count = sized_count(width, height, tile_width, tile_height);
    let col = px / tile_width;
    let row = py / tile_height;
    let home = row * cols + col;
    lemma_steps(width, tile_width);
    lemma_steps(height, tile_height);
    lemma_cell_of(width, tile_width, px);
    lemma_cell_of(height, tile_height, py);
    lemma_sized_rect_at(width, height, tile_width, tile_height, row, col);
    lemma_step_extent(width, tile_width, col);
    lemma_step_extent(height, tile_height, row);
    assert forall|i: int|
        0 <= i < count && (#[trigger] sized_rect(
            width,
            height,
            tile_width,
            tile_height,
            i,
        )).contains(px, py) implies i == home by {
        let r = sized_rect(width, height, tile_width, tile_height, i);
        lemma_sized_rect_within(width, height, tile_width, tile_height, i);
        let c = i % cols;
        let w = i / cols;
        vstd::arithmetic::div_mod::lemma_fundamental_div_mod(i, cols);
        assert(r.x == c * tile_width && r.y == w * tile_height);
        assert(c == col) by {
            assert(px == tile_width * c + (px - c * tile_width)) by (nonlinear_arith);
            vstd::arithmetic::div_mod::lemma_fundamental_div_mod_converse(
                px,
                tile_width,
                c,
                px - c * tile_width,
            );
        }
        assert(w == row) by {
            assert(py == tile_height * w + (py - w * tile_height)) by (nonlinear_arith);
            vstd::arithmetic::div_mod::lemma_fundamental_div_mod_converse(
                py,
                tile_height,
                w,
                py - w * tile_height,
            );
        }
        assert(i == row * cols + col) by (nonlinear_arith)
            requires
                i == cols * w + c,
                w == row,
                c == col,
        ;
    }
}

/// The sized cut keeps every pixel, once. The pixel in column `px` of row `py`
/// of the grid is found in the tile in column `px / tile_width` of row
/// `py / tile_height` of the cut, at column `px % tile_width` of row
/// `py % tile_height` of that tile, and lies in no other tile.
pub proof fn lemma_sized_split_keeps_pixels(
    grid: Grid,
    tile_width: int,
    tile_height: int,
    tiles: Seq<Grid>,
    px: int,
    py: int,
    c: int,
)
    requires
        is_sized_split(grid, tile_width, tile_height, tiles),
        tile_width > 0,
        tile_height > 0,
        0 <= px < grid.width,
        0 <= py < grid.height,
        0 <= c < 4,
    ensures
        ({
            let cols = steps(grid.width as int, tile_width);
            let home = (py / tile_height) * cols + px / tile_width;
            &&& 0 <= home < tiles.len()
            &&& tiles[home].sample(px % tile_width, py % tile_height, c) == grid.sample(px, py, c)
            &&& forall|i: int|
                0 <= i < tiles.len() && (#[trigger] sized_rect(
                    grid.width as int,
                    grid.height as int,
                    tile_width,
                    tile_height,
                    i,
                )).contains(px, py) ==> i == home
        }),
{
    let width = grid.width as int;
    let height = grid.height as int;
    let cols = steps(width, tile_width);
    let col = px / tile_width;
    let row = py / tile_height;
    let home = row * cols + col;
    lemma_sized_cover_once(width, height, tile_width, tile_height, px, py);
    lemma_cell_of(width, tile_width, px);
    lemma_cell_of(height, tile_height, py);
    lemma_sized_rect_at(width, height, tile_width, tile_height, row, col);
    let r = sized_rect(width, height, tile_width, tile_height, home);
    assert(tiles[home] == grid.region(r));
    assert(r.contains(px, py));
    lemma_region_pixel(grid, r, px - r.x, py - r.y, c);
}

/// Every tile of the uniform cut lies within the image, and is a third of the
/// image wide and a third high, rounded down. The tiles hold together nine
/// times the pixels of one, which is no more than the image holds.
pub proof fn lemma_uniform_rect_within(width: int, height: int, i: int)
    requires
        width >= 0,
        height >= 0,
        0 <= i < GRID * GRID,
    ensures
        uniform_rect(width, height, i).within(width, height),
        uniform_rect(width, height, i).width == width / 3,
        uniform_rect(width, height, i).height == height / 3,
        uniform_rect(width, height, i).x == (i % 3) * (width / 3),
        uniform_rect(width, height, i).y == (i / 3) * (height / 3),
        9 * uniform_rect(width, height, i).area() <= width * height,
{
    let tw = width / 3;
    let th = height / 3;
    let col = i % 3;
    let row = i / 3;
    assert(0 <= col * tw && col * tw + tw <= width && 0 <= row * th && row * th + th <= height)
        by (nonlinear_arith)
        requires
            0 <= col < 3,
            0 <= row < 3,
            0 <= tw,
            0 <= th,
            3 * tw <= width,
            3 * th <= height,
    ;
    assert(9 * (tw * th) <= width * height) by (nonlinear_arith)
        requires
            0 <= tw,
            0 <= th,
            3 * tw <= width,
            3 * th <= height,
    ;
}

/// The uniform cut covers the columns left of `3 * (width / 3)` and the rows
/// above `3 * (height / 3)`, each pixel there by one tile; the `width % 3`
/// columns and `height % 3` rows beyond are in no tile.
pub proof fn lemma_uniform_cover(width: int, height: int, px: int, py: int)
    requires
        0 <= px < width,
        0 <= py < height,
    ensures
        3 * (width / 3) == width - width % 3,
        3 * (height / 3) == height - height % 3,
        ({
            let tile_width = width / 3;
            let tile_height = height / 3;
            if px < 3 * tile_width && py < 3 * tile_height {
                let home = (py / tile_height) * 3 + px / tile_width;
                &&& 0 <= home < GRID * GRID
                &&& uniform_rect(width, height, home).contains(px, py)
                &&& forall|i: int|
                    0 <= i < GRID * GRID && (#[trigger] uniform_rect(width, height, i)).contains(
                        px,
                        py,
                    ) ==> i == home
            } else {
                forall|i: int|
                    0 <= i < GRID * GRID ==> !(#[trigger] uniform_rect(width, height, i)).contains(
                        px,
                        py,
                    )
            }
        }),
{
    let tw = width / 3;
    let th = height / 3;
    if px < 3 * tw && py < 3 * th {
        let col = px / tw;
        let row = py / th;
        let home = row * 3 + col;
        vstd::arithmetic::div_mod::lemma_fundamental_div_mod(px, tw);
        vstd::arithmetic::div_mod::lemma_mod_bound(px, tw);
        vstd::arithmetic::div_mod::lemma_fundamental_div_mod(py, th);
        vstd::arithmetic::div_mod::lemma_mod_bound(py, th);
        assert(0 <= col < 3 && col * tw == tw * col) by (nonlinear_arith)
            requires
                px == tw * col + px % tw,
                0 <= px % tw < tw,
                0 <= px < 3 * tw,
        ;
        assert(0 <= row < 3 && row * th == th * row) by (nonlinear_arith)
            requires
                py == th * row + py % th,
                0 <= py % th < th,
                0 <= py < 3 * th,
        ;
        assert(home % 3 == col && home / 3 == row);
        assert forall|i: int|
            0 <= i < GRID * GRID && (#[trigger] uniform_rect(width, height, i)).contains(
                px,
                py,
            ) implies i == home by {
            let c = i % 3;
            let w = i / 3;
            assert(px == tw * c + (px - c * tw)) by (nonlinear_arith);
            vstd::arithmetic::div_mod::lemma_fundamental_div_mod_converse(px, tw, c, px - c * tw);
            assert(py == th * w + (py - w * th)) by (nonlinear_arith);
            vstd::arithmetic::div_mod::lemma_fundamental_div_mod_converse(py, th, w, py - w * th);
        }
    } else {
        assert forall|i: int| 0 <= i < GRID * GRID implies !(#[trigger] uniform_rect(
            width,
            height,
            i,
        )).contains(px, py) by {
            let c = i % 3;
            let w = i / 3;
            assert(c * tw + tw <= 3 * tw && w * th + th <= 3 * th) by (nonlinear_arith)
                requires
                    0 <= c < 3,
                    0 <= w < 3,
                    0 <= tw,
                    0 <= th,
            ;
        }
    }
}

/// The uniform cut keeps the pixels that it covers. The pixel in column `px`
/// of row `py` of the grid, left of `3 * (width / 3)` and above
/// `3 * (height / 3)`, is found in the tile in column `px / (width / 3)` of
/// row `py / (height / 3)` of the cut, at column `px % (width / 3)` of row
/// `py % (height / 3)` of that tile.
pub proof fn lemma_uniform_split_keeps_pixels(
    grid: Grid,
    tiles: Seq<Grid>,
    px: int,
    py: int,
    c: int,
)
    requires
        is_uniform_split(grid, tiles),
        0 <= px < 3 * (grid.width / 3),
        0 <= py < 3 * (grid.height / 3),
        0 <= c < 4,
    ensures
        ({
            let tile_width = grid.width as int / 3;
            let tile_height = grid.height as int / 3;
            let home = (py / tile_height) * 3 + px / tile_width;
            &&& 0 <= home < tiles.len()
            &&& tiles[home].sample(px % tile_width, py % tile_height, c) == grid.sample(px, py, c)
        }),
{
    let width = grid.width as int;
    let height = grid.height as int;
    let tw = width / 3;
    let th = height / 3;
    let home = (py / th) * 3 + px / tw;
    lemma_uniform_cover(width, height, px, py);
    let r = uniform_rect(width, height, home);
    assert(tiles[home] == grid.region(r));
    vstd::arithmetic::div_mod::lemma_fundamental_div_mod(px, tw);
    vstd::arithmetic::div_mod::lemma_fundamental_div_mod(py, th);
    assert(home % 3 == px / tw && home / 3 == py / th) by {
        assert(r.contains(px, py));
        assert(px == tw * (home % 3) + (px - (home % 3) * tw)) by (nonlinear_arith);
        vstd::arithmetic::div_mod::lemma_fundamental_div_mod_converse(
            px,
            tw,
            home % 3,
            px - (home % 3) * tw,
        );
        assert(py == th * (home / 3) + (py - (home / 3) * th)) by (nonlinear_arith);
        vstd::arithmetic::div_mod::lemma_fundamental_div_mod_converse(
            py,
            th,
            home / 3,
            py - (home / 3) * th,
        );
    }
    assert(px - r.x == px % tw) by (nonlinear_arith)
        requires
            px == tw * (px / tw) + px % tw,
            r.x == (px / tw) * tw,
    ;
    assert(py - r.y == py % th) by (nonlinear_arith)
        requires
            py == th * (py / th) + py % th,
            r.y == (py / th) * th,
    ;
    lemma_region_pixel(grid, r, px - r.x, py - r.y, c);
}

/// The number of pixels in the first `n` tiles of the sized cut.
pub open spec fn sized_area(
    width: int,
    height: int,
    tile_width: int,
    tile_height: int,
    n: int,
) -> int
    decreases n,
{
    if n <= 0 {
        0
    } else {
        sized_area(width, height, tile_width, tile_height, n - 1) + sized_rect(
            width,
            height,
            tile_width,
            tile_height,
            n - 1,
        ).area()
    }
}

/// The tiles of the sized cut hold together as many pixels as the image.
pub proof fn lemma_sized_area(width: int, height: int, tile_width: int, tile_height: int)
    requires
        width >= 0,
        height >= 0,
        tile_width > 0,
        tile_height > 0,
    ensures
        sized_area(
            width,
            height,
            tile_width,
            tile_height,
            sized_count(width, height, tile_width, tile_height),
        ) == width * height,
{
    let cols = steps(width, tile_width);
    let rows = steps(height, tile_height);
    let count = sized_count(width, height, tile_width, tile_height);
    lemma_steps(width, tile_width);
    lemma_steps(height, tile_height);
    if cols == 0 {
        assert(width == 0) by (nonlinear_arith)
            requires
                cols == 0,
                cols * tile_width >= width,
                width >= 0,
        ;
        assert(count == 0 && width * height == 0) by (nonlinear_arith)
            requires
                count == cols * rows,
                cols == 0,
                width == 0,
        ;
    } else {
        assert(0 <= count && count == rows * cols + 0) by (nonlinear_arith)
            requires
                count == cols * rows,
                cols > 0,
                rows >= 0,
        ;
        lemma_sized_area_prefix(width, height, tile_width, tile_height, rows, 0);
        lemma_reached(height, tile_height, rows);
        lemma_reached(width, tile_width, 0);
        assert(width * height + step_extent(height, tile_height, rows) * 0 == width * height)
            by (nonlinear_arith);
    }
}

/// How far the first `k` steps of length `step` reach along `length`.
spec fn reached(length: int, step: int, k: int) -> int {
    if k * step < length {
        k * step
    } else {
        length
    }
}

/// The steps start at nothing, each starts where the one before it ends, and
/// the last ends at `length`.
proof fn lemma_reached(length: int, step: int, k: int)
    requires
        length >= 0,
        step > 0,
        0 <= k <= steps(length, step),
    ensures
        k == 0 ==> reached(length, step, k) == 0,
        k == steps(length, step) ==> reached(length, step, k) == length,
        k < steps(length, step) ==> reached(length, step, k) == k * step && reached(
            length,
            step,
            k + 1,
        ) == k * step + step_extent(length, step, k),
{
    lemma_steps(length, step);
    let n = steps(length, step);
    if k < n {
        lemma_step_extent(length, step, k);
        assert((k + 1) * step == k * step + step) by (nonlinear_arith);
    } else {
        assert(k * step >= length);
    }
}

/// The first `row` rows of the sized cut and the first `col` tiles of the row
/// after them hold the pixels of the image's rows above, and of the columns
/// that those tiles reach in their own row.
proof fn lemma_sized_area_prefix(
    width: int,
    height: int,
    tile_width: int,
    tile_height: int,
    row: int,
    col: int,
)
    requires
        width >= 0,
        height >= 0,
        tile_width > 0,
        tile_height > 0,
        0 <= col < steps(width, tile_width),
        0 <= row <= steps(height, tile_height),
        row == steps(height, tile_height) ==> col == 0,
    ensures
        sized_area(
            width,
            height,
            tile_width,
            tile_height,
            row * steps(width, tile_width) + col,
        ) == width * reached(height, tile_height, row) + step_extent(height, tile_height, row)
            * reached(width, tile_width, col),
    decreases row, col,
{
    let cols = steps(width, tile_width);
    let rows = steps(height, tile_height);
    let n = row * cols + col;
    lemma_steps(width, tile_width);
    lemma_steps(height, tile_height);
    lemma_reached(width, tile_width, col);
    let ext_y = step_extent(height, tile_height, row);
    assert(ext_y * 0 == 0);
    if row == 0 && col == 0 {
        assert(n == 0) by (nonlinear_arith)
            requires
                n == row * cols + col,
                row == 0,
                col == 0,
        ;
        lemma_reached(height, tile_height, 0);
        assert(width * 0 == 0);
    } else {
        // The tile before: to the left, or the last of the row above.
        let (prow, pcol) = if col > 0 {
            (row, col - 1)
        } else {
            (row - 1, cols - 1)
        };
        assert(n - 1 == prow * cols + pcol && n >= 1) by (nonlinear_arith)
            requires
                n == row * cols + col,
                col > 0 ==> prow == row && pcol == col - 1,
                col == 0 ==> prow == row - 1 && pcol == cols - 1,
                col >= 0,
                row >= 0,
                cols > 0,
                row > 0 || col > 0,
        ;
        lemma_sized_area_prefix(width, height, tile_width, tile_height, prow, pcol);
        lemma_sized_rect_at(width, height, tile_width, tile_height, prow, pcol);
        lemma_reached(width, tile_width, pcol);
        lemma_reached(width, tile_width, pcol + 1);
        lemma_reached(height, tile_height, prow);
        let before = sized_area(width, height, tile_width, tile_height, n - 1);
        let pext_x = step_extent(width, tile_width, pcol);
        let pext_y = step_extent(height, tile_height, prow);
        let px = reached(width, tile_width, pcol);
        let py = reached(height, tile_height, prow);
        assert(sized_rect(width, height, tile_width, tile_height, n - 1).area() == pext_x * pext_y);
        assert(sized_area(width, height, tile_width, tile_height, n) == before + pext_x * pext_y);
        assert(before == width * py + pext_y * px);
        if col > 0 {
            assert(reached(width, tile_width, col) == px + pext_x);
            assert(width * py + pext_y * px + pext_x * pext_y == width * py + pext_y * (px
                + pext_x)) by (nonlinear_arith);
        } else {
            assert(px + pext_x == width);
            lemma_reached(height, tile_height, row);
            assert(reached(height, tile_height, row) == py + pext_y);
            assert(width * py + pext_y * px + pext_x * pext_y == width * (py + pext_y))
                by (nonlinear_arith)
                requires
                    px + pext_x == width,
            ;
        }
    }
}

/// The place `p` along `length` falls into step number `p / step`, which is
/// one of the steps along `length`, and at `p % step` within it.
proof fn lemma_cell_of(length: int, step: int, p: int)
    requires
        step > 0,
        0 <= p < length,
    ensures
        0 <= p / step < steps(length, step),
        (p / step) * step <= p < (p / step) * step + step,
        p - (p / step) * step == p % step,
{
    lemma_steps(length, step);
    vstd::arithmetic::div_mod::lemma_fundamental_div_mod(p, step);
    vstd::arithmetic::div_mod::lemma_mod_bound(p, step);
    let q = p / step;
    let n = steps(length, step);
    assert(q * step == step * q) by (nonlinear_arith);
    assert(0 <= q < n) by (nonlinear_arith)
        requires
            p == step * q + p % step,
            0 <= p % step < step,
            0 <= p < length,
            n * step >= length,
            step > 0,
    ;
}

} // verus!
