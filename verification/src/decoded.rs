//! Cutting an image as the `image` crate decodes it.
//!
//! A decoded image may hold its pixels in any of several formats. It is first
//! rendered as 8-bit RGBA, by the `image` crate, and the rendering is cut.

use crate::grid::{Grid, PixelGrid};
use crate::split::{is_sized_split, is_uniform_split, split_by_size, split_uniform, views, SplitError};
use vstd::prelude::*;

verus! {

/// The `image` crate's decoded image, carried as it is: nothing of what it
/// holds is seen here but through `rgba_rendering`.
#[verifier::external_type_specification]
#[verifier::external_body]
pub struct ExDynamicImage(image::DynamicImage);

/// The pixels of `img` as `image::DynamicImage::to_rgba8` renders them: the
/// width and height of the image, and four 8-bit samples for each pixel, row
/// by row.
pub uninterp spec fn rgba_rendering(img: image::DynamicImage) -> Grid;

/// Calls `image::DynamicImage::to_rgba8` and takes the buffer it returns apart
/// into its width, its height and its samples. Nothing is proved of this: the
/// contract gives the rendering its name, and says that the buffer holds at
/// least four samples for each pixel, the rendering first. An `ImageBuffer`
/// can only be made over a container of at least that length.
#[verifier::external_body]
fn render_rgba8(img: &image::DynamicImage) -> (parts: (u32, u32, Vec<u8>))
    ensures
        parts.0 == rgba_rendering(*img).width,
        parts.1 == rgba_rendering(*img).height,
        parts.2@.len() >= 4 * parts.0 * parts.1,
        parts.2@.subrange(0, 4 * parts.0 * parts.1) == rgba_rendering(*img).samples,
{
    let rgba = img.to_rgba8();
    (rgba.width(), rgba.height(), rgba.into_raw())
}

impl PixelGrid {
    /// The 8-bit RGBA rendering of a decoded image.
    pub fn from_image(img: &image::DynamicImage) -> (grid: PixelGrid)
        ensures
            grid@ == rgba_rendering(*img),
            grid@.wf(),
    {
        let (width, height, samples) = render_rgba8(img);
        PixelGrid::from_raw(width, height, samples).unwrap()
    }
}

/// Cuts a decoded image into three rows of three equal tiles, each a third of
/// the image wide and high, rounded down.
pub fn split_image(img: &image::DynamicImage) -> (out: Result<Vec<PixelGrid>, SplitError>)
    ensures
        out matches Ok(tiles) && is_uniform_split(rgba_rendering(*img), views(tiles@)),
{
    let grid = PixelGrid::from_image(img);
    Ok(split_uniform(&grid))
}

/// Cuts a decoded image into tiles of `sub_width` by `sub_height`, the last
/// column and the last row clipped at the image's edge. A tile dimension of
/// zero is refused.
pub fn split_image_with_size(img: &image::DynamicImage, sub_width: u32, sub_height: u32) -> (out:
    Result<Vec<PixelGrid>, SplitError>)
    ensures
        out is Err <==> sub_width == 0 || sub_height == 0,
        out is Err ==> out == Err::<Vec<PixelGrid>, SplitError>(SplitError::InvalidParameter),
        out matches Ok(tiles) ==> is_sized_split(
            rgba_rendering(*img),
            sub_width as int,
            sub_height as int,
            views(tiles@),
        ),
{
    if sub_width == 0 || sub_height == 0 {
        return Err(SplitError::InvalidParameter);
    }
    let grid = PixelGrid::from_image(img);
    split_by_size(&grid, sub_width, sub_height)
}

} // verus!
