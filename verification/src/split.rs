//! The two ways to cut a grid into tiles.

use crate::geometry::{
    lemma_step_extent, sized_count, sized_rect, step_count, step_extent, steps, uniform_rect, GRID,
};
use crate::grid::{Grid, PixelGrid};
use vstd::prelude::*;

verus! {

/// Why a grid could not be cut.
#[derive(Clone, Copy, Debug, PartialEq, Eq, Structural)]
pub enum SplitError {
    /// A tile dimension of zero was asked for.
    InvalidParameter,
}

/// `tiles` is the uniform three-by-three cut of `grid`, row by row.
pub open spec fn is_uniform_split(grid: Grid, tiles: Seq<Grid>) -> bool {
    &&& tiles.len() == GRID * GRID
    &&& forall|i: int|
        0 <= i < tiles.len() ==> #[trigger] tiles[i] == grid.region(
            uniform_rect(grid.width as int, grid.height as int, i),
        )
}

/// `tiles` is the cut of `grid` into tiles of `tile_width` by `tile_height`,
/// row by row, the last column and the last row clipped at the grid's edge.
pub open spec fn is_sized_split(grid: Grid, tile_width: int, tile_height: int, tiles: Seq<Grid>) -> bool {
    &&& tiles.len() == sized_count(grid.width as int, grid.height as int, tile_width, tile_height)
    &&& forall|i: int|
        0 <= i < tiles.len() ==> #[trigger] tiles[i] == grid.region(
            sized_rect(grid.width as int, grid.height as int, tile_width, tile_height, i),
        )
}

/// What each of the grids holds.
pub open spec fn views(tiles: Seq<PixelGrid>) -> Seq<Grid> {
    Seq::new(tiles.len(), |i: int| tiles[i]@)
}

/// Cuts `grid` into three rows of three tiles. Every tile is a third of the
/// grid wide and a third high, rounded down; the columns and rows that are
/// left over at the right and at the bottom are in no tile.
pub fn split_uniform(grid: &PixelGrid) -> (tiles: Vec<PixelGrid>)
    ensures
        is_uniform_split(grid@, views(tiles@)),
{
    let width = grid.width();
    let height = grid.height();
    let tile_width: u32 = width / GRID;
    let tile_height: u32 = height / GRID;
    let mut tiles: Vec<PixelGrid> = Vec::new();
    let mut row: u32 = 0;
    while row < GRID
        invariant
            0 <= row <= GRID,
            width == grid@.width,
            height == grid@.height,
            tile_width == width / GRID,
            tile_height == height / GRID,
            tiles@.len() == row * GRID,
            forall|i: int|
                0 <= i < tiles@.len() ==> (#[trigger] tiles@[i])@ == grid@.region(
                    uniform_rect(width as int, height as int, i),
                ),
        decreases GRID - row,
    {
        let mut col: u32 = 0;
        while col < GRID
            invariant
                0 <= col <= GRID,
                row < GRID,
                width == grid@.width,
                height == grid@.height,
                tile_width == width / GRID,
                tile_height == height / GRID,
                tiles@.len() == row * GRID + col,
                forall|i: int|
                    0 <= i < tiles@.len() ==> (#[trigger] tiles@[i])@ == grid@.region(
                        uniform_rect(width as int, height as int, i),
                    ),
            decreases GRID - col,
        {
            let ghost i = row * GRID + col;
            assert(i % 3 == col && i / 3 == row);
            assert(col * tile_width + tile_width <= width && row * tile_height + tile_height
                <= height && col * tile_width >= 0 && row * tile_height >= 0)
                by (nonlinear_arith)
                requires
                    0 <= col < 3,
                    0 <= row < 3,
                    0 <= tile_width,
                    0 <= tile_height,
                    3 * tile_width <= width,
                    3 * tile_height <= height,
            ;
            let tile = grid.region(col * tile_width, row * tile_height, tile_width, tile_height);
            tiles.push(tile.unwrap());
            col += 1;
        }
        row += 1;
    }
    assert(views(tiles@).len() == GRID * GRID);
    tiles
}

/// Cuts `grid` into tiles of `tile_width` by `tile_height`. Where a dimension
/// of the grid is no multiple of the tile's, the tiles of the last column or
/// row are narrower or lower, so that the tiles cover the grid exactly. A tile
/// dimension of zero is refused.
pub fn split_by_size(grid: &PixelGrid, tile_width: u32, tile_height: u32) -> (out: Result<
    Vec<PixelGrid>,
    SplitError,
>)
    ensures
        out is Err <==> tile_width == 0 || tile_height == 0,
        out is Err ==> out == Err::<Vec<PixelGrid>, SplitError>(SplitError::InvalidParameter),
        out matches Ok(tiles) ==> is_sized_split(
            grid@,
            tile_width as int,
            tile_height as int,
            views(tiles@),
        ),
{
    if tile_width == 0 || tile_height == 0 {
        return Err(SplitError::InvalidParameter);
    }
    let width = grid.width();
    let height = grid.height();
    let cols = step_count(width, tile_width);
    let rows = step_count(height, tile_height);
    let mut tiles: Vec<PixelGrid> = Vec::new();
    let mut row: u32 = 0;
    while row < rows
        invariant
            0 <= row <= rows,
            tile_width > 0,
            tile_height > 0,
            width == grid@.width,
            height == grid@.height,
            cols == steps(width as int, tile_width as int),
            rows == steps(height as int, tile_height as int),
            tiles@.len() == row * cols,
            forall|i: int|
                0 <= i < tiles@.len() ==> (#[trigger] tiles@[i])@ == grid@.region(
                    sized_rect(width as int, height as int, tile_width as int, tile_height as int, i),
                ),
        decreases rows - row,
    {
        proof {
            lemma_step_extent(height as int, tile_height as int, row as int);
        }
        let y: u32 = row * tile_height;
        let rest_height: u32 = height - y;
        let actual_height: u32 = if rest_height < tile_height {
            rest_height
        } else {
            tile_height
        };
        let mut col: u32 = 0;
        while col < cols
            invariant
                0 <= col <= cols,
                row < rows,
                tile_width > 0,
                tile_height > 0,
                width == grid@.width,
                height == grid@.height,
                cols == steps(width as int, tile_width as int),
                rows == steps(height as int, tile_height as int),
                y == row * tile_height,
                actual_height == step_extent(height as int, tile_height as int, row as int),
                y + actual_height <= height,
                tiles@.len() == row * cols + col,
                forall|i: int|
                    0 <= i < tiles@.len() ==> (#[trigger] tiles@[i])@ == grid@.region(
                        sized_rect(
                            width as int,
                            height as int,
                            tile_width as int,
                            tile_height as int,
                            i,
                        ),
                    ),
            decreases cols - col,
        {
            proof {
                lemma_step_extent(width as int, tile_width as int, col as int);
                vstd::arithmetic::div_mod::lemma_fundamental_div_mod_converse(
                    row * cols + col,
                    cols as int,
                    row as int,
                    col as int,
                );
            }
            let x: u32 = col * tile_width;
            let rest_width: u32 = width - x;
            let actual_width: u32 = if rest_width < tile_width {
                rest_width
            } else {
                tile_width
            };
            let tile = grid.region(x, y, actual_width, actual_height);
            tiles.push(tile.unwrap());
            col += 1;
        }
        assert((row + 1) * cols == row * cols + cols) by (nonlinear_arith);
        row += 1;
    }
    assert(rows * cols == cols * rows) by (nonlinear_arith);
    assert(views(tiles@).len() == sized_count(
        width as int,
        height as int,
        tile_width as int,
        tile_height as int,
    ));
    Ok(tiles)
}

} // verus!
