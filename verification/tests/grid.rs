use image::{imageops, RgbaImage};
use image_splitting::PixelGrid;

/// A grid whose pixel at `(x, y)` holds `[x, y, x + y, 255 - x]`.
fn gradient(width: u32, height: u32) -> PixelGrid {
    let mut samples = Vec::new();
    for y in 0..height {
        for x in 0..width {
            samples.push(x as u8);
            samples.push(y as u8);
            samples.push((x + y) as u8);
            samples.push(255 - x as u8);
        }
    }
    PixelGrid::from_raw(width, height, samples).unwrap()
}

#[test]
fn from_raw_takes_exactly_enough_samples() {
    let grid = PixelGrid::from_raw(2, 3, vec![7; 24]).unwrap();
    assert_eq!(grid.width(), 2);
    assert_eq!(grid.height(), 3);
    assert_eq!(grid.samples(), &vec![7u8; 24]);
}

#[test]
fn from_raw_refuses_too_few_samples() {
    assert!(PixelGrid::from_raw(2, 3, vec![7; 23]).is_none());
    assert!(PixelGrid::from_raw(1, 1, Vec::new()).is_none());
    assert!(PixelGrid::from_raw(u32::MAX, u32::MAX, vec![0; 16]).is_none());
}

#[test]
fn from_raw_drops_samples_beyond_the_last_pixel() {
    let mut samples: Vec<u8> = (0..8).collect();
    samples.extend_from_slice(&[99, 98, 97]);
    let grid = PixelGrid::from_raw(2, 1, samples).unwrap();
    assert_eq!(grid.samples(), &vec![0, 1, 2, 3, 4, 5, 6, 7]);
    assert_eq!(grid.into_raw(), vec![0, 1, 2, 3, 4, 5, 6, 7]);
}

#[test]
fn from_raw_accepts_an_empty_grid() {
    let none = PixelGrid::from_raw(0, 0, Vec::new()).unwrap();
    assert_eq!((none.width(), none.height()), (0, 0));
    assert!(none.samples().is_empty());
    let flat = PixelGrid::from_raw(5, 0, vec![1, 2, 3]).unwrap();
    assert_eq!((flat.width(), flat.height()), (5, 0));
    assert!(flat.samples().is_empty());
}

#[test]
fn pixel_reads_the_four_samples_in_order() {
    let grid = gradient(4, 3);
    assert_eq!(grid.pixel(0, 0), Some([0, 0, 0, 255]));
    assert_eq!(grid.pixel(3, 0), Some([3, 0, 3, 252]));
    assert_eq!(grid.pixel(1, 2), Some([1, 2, 3, 254]));
    assert_eq!(grid.pixel(3, 2), Some([3, 2, 5, 252]));
}

#[test]
fn pixel_is_none_outside_the_grid() {
    let grid = gradient(4, 3);
    assert_eq!(grid.pixel(4, 0), None);
    assert_eq!(grid.pixel(0, 3), None);
    assert_eq!(grid.pixel(u32::MAX, u32::MAX), None);
}

#[test]
fn region_copies_the_pixels_of_the_rectangle() {
    let grid = gradient(6, 5);
    let tile = grid.region(2, 1, 3, 2).unwrap();
    assert_eq!((tile.width(), tile.height()), (3, 2));
    assert_eq!(
        tile.samples(),
        &vec![
            2, 1, 3, 253, 3, 1, 4, 252, 4, 1, 5, 251, //
            2, 2, 4, 253, 3, 2, 5, 252, 4, 2, 6, 251,
        ]
    );
    for j in 0..2 {
        for i in 0..3 {
            assert_eq!(tile.pixel(i, j), grid.pixel(2 + i, 1 + j));
        }
    }
}

#[test]
fn region_of_the_whole_grid_is_the_grid() {
    let grid = gradient(6, 5);
    assert_eq!(grid.region(0, 0, 6, 5), Some(grid.clone()));
}

#[test]
fn region_is_none_beyond_the_grid() {
    let grid = gradient(6, 5);
    assert!(grid.region(4, 0, 3, 1).is_none());
    assert!(grid.region(0, 4, 1, 2).is_none());
    assert!(grid.region(7, 0, 0, 0).is_none());
    assert!(grid.region(0, 6, 0, 0).is_none());
    assert!(grid.region(1, 1, u32::MAX, 1).is_none());
    assert!(grid.region(1, 1, 1, u32::MAX).is_none());
}

#[test]
fn region_may_be_empty() {
    let grid = gradient(6, 5);
    let thin = grid.region(6, 5, 0, 0).unwrap();
    assert_eq!((thin.width(), thin.height()), (0, 0));
    assert!(thin.samples().is_empty());
    let flat = grid.region(1, 2, 4, 0).unwrap();
    assert_eq!((flat.width(), flat.height()), (4, 0));
    assert!(flat.samples().is_empty());
    let narrow = grid.region(1, 2, 0, 3).unwrap();
    assert_eq!((narrow.width(), narrow.height()), (0, 3));
    assert!(narrow.samples().is_empty());
}

#[test]
fn region_agrees_with_the_image_crate() {
    let grid = gradient(17, 11);
    let buffer = RgbaImage::from_raw(17, 11, grid.samples().clone()).unwrap();
    for (x, y, w, h) in [(0, 0, 17, 11), (3, 2, 5, 7), (16, 10, 1, 1), (0, 10, 17, 1), (9, 0, 1, 11)] {
        let expected = imageops::crop_imm(&buffer, x, y, w, h).to_image();
        let tile = grid.region(x, y, w, h).unwrap();
        assert_eq!((tile.width(), tile.height()), expected.dimensions());
        assert_eq!(tile.samples(), expected.as_raw());
    }
}

#[test]
fn clone_holds_the_same_pixels() {
    let grid = gradient(3, 2);
    let copy = grid.clone();
    assert_eq!(copy, grid);
    assert_eq!(copy.samples(), grid.samples());
    assert_eq!((copy.width(), copy.height()), (3, 2));
}
