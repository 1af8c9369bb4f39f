use image::{DynamicImage, GrayImage, ImageBuffer, Luma, LumaA, Rgb, RgbImage, Rgba, RgbaImage};
use image_splitting::{split_image, split_image_with_size, PixelGrid, SplitError};

fn test_image() -> DynamicImage {
    DynamicImage::ImageRgba8(RgbaImage::from_fn(250, 130, |x, y| {
        Rgba([x as u8, y as u8, (x + y) as u8, 255 - (x % 7) as u8])
    }))
}

/// The tiles as the `image` crate cuts them: each region cropped from the
/// image, then rendered as 8-bit RGBA.
fn cropped(img: &DynamicImage, regions: &[(u32, u32, u32, u32)]) -> Vec<RgbaImage> {
    regions.iter().map(|&(x, y, w, h)| img.crop_imm(x, y, w, h).to_rgba8()).collect()
}

fn uniform_regions(width: u32, height: u32) -> Vec<(u32, u32, u32, u32)> {
    let (w, h) = (width / 3, height / 3);
    (0..9).map(|i| ((i % 3) * w, (i / 3) * h, w, h)).collect()
}

fn sized_regions(width: u32, height: u32, tw: u32, th: u32) -> Vec<(u32, u32, u32, u32)> {
    let mut regions = Vec::new();
    for y in (0..height).step_by(th as usize) {
        for x in (0..width).step_by(tw as usize) {
            regions.push((x, y, tw.min(width - x), th.min(height - y)));
        }
    }
    regions
}

fn assert_same(tiles: &[PixelGrid], expected: &[RgbaImage]) {
    assert_eq!(tiles.len(), expected.len());
    for (tile, image) in tiles.iter().zip(expected) {
        assert_eq!((tile.width(), tile.height()), image.dimensions());
        assert_eq!(tile.samples(), image.as_raw());
    }
}

#[test]
fn test_split_image() {
    let result = split_image(&test_image());
    assert!(result.is_ok());
    let sub_images = result.unwrap();
    assert_eq!(sub_images.len(), 9);
}

#[test]
fn test_split_image_with_size() {
    let result = split_image_with_size(&test_image(), 100, 100);
    assert!(result.is_ok());
    let sub_images = result.unwrap();
    assert!(sub_images.len() > 0);
}

#[test]
fn split_image_cuts_as_the_image_crate_crops() {
    let img = test_image();
    let tiles = split_image(&img).unwrap();
    assert_eq!(tiles.len(), 9);
    assert!(tiles.iter().all(|t| (t.width(), t.height()) == (83, 43)));
    assert_same(&tiles, &cropped(&img, &uniform_regions(250, 130)));
}

#[test]
fn split_image_with_size_cuts_as_the_image_crate_crops() {
    let img = test_image();
    let tiles = split_image_with_size(&img, 100, 100).unwrap();
    assert_eq!(tiles.len(), 6);
    let sizes: Vec<(u32, u32)> = tiles.iter().map(|t| (t.width(), t.height())).collect();
    assert_eq!(sizes, vec![(100, 100), (100, 100), (50, 100), (100, 30), (100, 30), (50, 30)]);
    assert_same(&tiles, &cropped(&img, &sized_regions(250, 130, 100, 100)));
}

#[test]
fn split_image_with_size_refuses_zero() {
    let img = test_image();
    assert_eq!(split_image_with_size(&img, 0, 100), Err(SplitError::InvalidParameter));
    assert_eq!(split_image_with_size(&img, 100, 0), Err(SplitError::InvalidParameter));
    assert_eq!(split_image_with_size(&img, 0, 0), Err(SplitError::InvalidParameter));
}

#[test]
fn nine_by_nine_image_both_ways() {
    let img = DynamicImage::ImageRgba8(RgbaImage::from_fn(9, 9, |x, y| Rgba([x as u8, y as u8, 1, 2])));
    let tiles = split_image(&img).unwrap();
    assert_eq!(tiles.len(), 9);
    assert!(tiles.iter().all(|t| (t.width(), t.height()) == (3, 3)));
    let tiles = split_image_with_size(&img, 5, 5).unwrap();
    let sizes: Vec<(u32, u32)> = tiles.iter().map(|t| (t.width(), t.height())).collect();
    assert_eq!(sizes, vec![(5, 5), (4, 5), (5, 4), (4, 4)]);
    let origins: Vec<[u8; 4]> = tiles.iter().map(|t| t.pixel(0, 0).unwrap()).collect();
    assert_eq!(origins, vec![[0, 0, 1, 2], [5, 0, 1, 2], [0, 5, 1, 2], [5, 5, 1, 2]]);
}

#[test]
fn ten_by_ten_image_is_truncated_by_the_uniform_cut() {
    let img = DynamicImage::ImageRgba8(RgbaImage::from_fn(10, 10, |x, y| Rgba([x as u8, y as u8, 0, 0])));
    let tiles = split_image(&img).unwrap();
    assert_eq!(tiles.len(), 9);
    assert!(tiles.iter().all(|t| t.width() <= 3 && t.height() <= 3));
    let covered: u32 = tiles.iter().map(|t| t.width() * t.height()).sum();
    assert_eq!(covered, 81);
}

#[test]
fn from_image_renders_as_rgba() {
    let gray = GrayImage::from_fn(3, 2, |x, y| Luma([(10 * x + y) as u8]));
    let grid = PixelGrid::from_image(&DynamicImage::ImageLuma8(gray));
    assert_eq!((grid.width(), grid.height()), (3, 2));
    assert_eq!(grid.pixel(0, 0), Some([0, 0, 0, 255]));
    assert_eq!(grid.pixel(2, 1), Some([21, 21, 21, 255]));
    assert_eq!(grid.samples().len(), 24);
}

#[test]
fn from_image_keeps_rgba_samples() {
    let rgba = RgbaImage::from_fn(4, 3, |x, y| Rgba([x as u8, y as u8, 9, 200]));
    let grid = PixelGrid::from_image(&DynamicImage::ImageRgba8(rgba.clone()));
    assert_eq!((grid.width(), grid.height()), rgba.dimensions());
    assert_eq!(grid.samples(), rgba.as_raw());
}

#[test]
fn from_image_drops_what_the_buffer_holds_beyond_its_pixels() {
    let mut samples: Vec<u8> = (0..16).collect();
    samples.extend_from_slice(&[50, 51, 52, 53, 54]);
    let rgba = RgbaImage::from_raw(2, 2, samples).unwrap();
    let grid = PixelGrid::from_image(&DynamicImage::ImageRgba8(rgba));
    assert_eq!((grid.width(), grid.height()), (2, 2));
    assert_eq!(grid.samples(), &(0..16).collect::<Vec<u8>>());
}

#[test]
fn other_pixel_formats_are_cut_as_the_image_crate_crops() {
    let images = vec![
        DynamicImage::ImageLuma8(GrayImage::from_fn(11, 7, |x, y| Luma([(x * 13 + y * 5) as u8]))),
        DynamicImage::ImageLumaA8(ImageBuffer::from_fn(11, 7, |x, y| LumaA([(x * 3) as u8, (y * 30) as u8]))),
        DynamicImage::ImageRgb8(RgbImage::from_fn(11, 7, |x, y| Rgb([x as u8, y as u8, (x * y) as u8]))),
        DynamicImage::ImageRgb16(ImageBuffer::from_fn(11, 7, |x, y| {
            Rgb([(x * 5000) as u16, (y * 9000) as u16, (x * y * 800) as u16])
        })),
        DynamicImage::ImageRgba16(ImageBuffer::from_fn(11, 7, |x, y| {
            Rgba([(x * 5000) as u16, (y * 9000) as u16, 65535, (x * y * 800) as u16])
        })),
    ];
    for img in &images {
        let tiles = split_image(img).unwrap();
        assert_same(&tiles, &cropped(img, &uniform_regions(11, 7)));
        let tiles = split_image_with_size(img, 4, 3).unwrap();
        assert_eq!(tiles.len(), 9);
        assert_same(&tiles, &cropped(img, &sized_regions(11, 7, 4, 3)));
    }
}
