use asciify::clahe::{clamp_tile, clip_histogram, cumulative, equalize_tile, tile_histogram};
use asciify::mask::BackgroundMode;
use asciify::rgba::{apply_crop, has_transparency, CropOutOfBounds, RgbaPixels};

fn gradient(width: u32, height: u32, alpha: u8) -> RgbaPixels {
    let mut data = Vec::new();
    for y in 0..height {
        for x in 0..width {
            data.extend_from_slice(&[x as u8, y as u8, (x + y) as u8, alpha]);
        }
    }
    RgbaPixels { width, height, data }
}

#[test]
fn crop_keeps_the_rectangle() {
    let image = gradient(5, 4, 255);
    let out = apply_crop(image, Some((1, 2, 4, 4))).unwrap();
    assert_eq!((out.width, out.height), (3, 2));
    assert_eq!(out.data.len(), 3 * 2 * 4);
    // pixel (0,0) of the crop is pixel (1,2) of the source
    assert_eq!(&out.data[0..4], &[1, 2, 3, 255]);
    // pixel (2,1) of the crop is pixel (3,3) of the source
    assert_eq!(&out.data[(1 * 3 + 2) * 4..(1 * 3 + 2) * 4 + 4], &[3, 3, 6, 255]);
}

#[test]
fn no_crop_keeps_the_image() {
    let image = gradient(3, 3, 7);
    let data = image.data.clone();
    let out = apply_crop(image, None).unwrap();
    assert_eq!(out.data, data);
}

#[test]
fn crop_outside_the_image_is_refused() {
    let image = gradient(5, 4, 255);
    assert!(matches!(
        apply_crop(image, Some((0, 0, 6, 4))),
        Err(CropOutOfBounds { width: 5, height: 4 })
    ));
    let image = gradient(5, 4, 255);
    assert!(matches!(
        apply_crop(image, Some((0, 0, 5, 5))),
        Err(CropOutOfBounds { width: 5, height: 4 })
    ));
    let image = gradient(5, 4, 255);
    assert!(apply_crop(image, Some((0, 0, 5, 4))).is_ok());
}

#[test]
fn transparency_threshold() {
    assert!(!has_transparency(&gradient(4, 4, 250)));
    assert!(has_transparency(&gradient(4, 4, 249)));
    let mut image = gradient(4, 4, 255);
    image.data[(2 * 4 + 3) * 4 + 3] = 0;
    assert!(has_transparency(&image));
    assert!(!has_transparency(&gradient(0, 0, 0)));
}

#[test]
fn background_mode_precedence() {
    assert_eq!(BackgroundMode::resolve(true, true), BackgroundMode::Alpha);
    assert_eq!(BackgroundMode::resolve(true, false), BackgroundMode::Alpha);
    assert_eq!(BackgroundMode::resolve(false, true), BackgroundMode::SoftBackground);
    assert_eq!(BackgroundMode::resolve(false, false), BackgroundMode::Disabled);
}

#[test]
fn histogram_of_a_tile() {
    // 4 x 3 image, values row by row
    let pixels: Vec<u8> = vec![0, 1, 1, 2, 5, 5, 5, 5, 9, 0, 0, 7];
    let hist = tile_histogram(&pixels, 4, 3, 1, 3, 0, 2);
    assert_eq!(hist.len(), 256);
    assert_eq!(hist[1], 2);
    assert_eq!(hist[5], 2);
    assert_eq!(hist.iter().map(|&c| c as u64).sum::<u64>(), 4);
    let whole = tile_histogram(&pixels, 4, 3, 0, 4, 0, 3);
    assert_eq!(whole[0], 3);
    assert_eq!(whole[5], 4);
    assert_eq!(whole[7], 1);
}

#[test]
fn clipping_spreads_the_excess() {
    let mut hist = vec![0u32; 256];
    hist[10] = 1000;
    hist[20] = 3;
    clip_histogram(&mut hist, 10);
    // excess is 990: 3 to every bin, 222 left over, one each to bins 0, 1, 2, ... (step 1)
    assert_eq!(hist[10], 10 + 3 + 1);
    assert_eq!(hist[20], 3 + 3 + 1);
    assert_eq!(hist[221], 3 + 1);
    assert_eq!(hist[222], 3);
    assert_eq!(hist[255], 3);
    assert_eq!(hist.iter().map(|&c| c as u64).sum::<u64>(), 1003);
}

#[test]
fn clipping_with_a_wide_stride() {
    let mut hist = vec![0u32; 256];
    hist[0] = 13;
    clip_histogram(&mut hist, 10);
    // excess 3: nothing to every bin, one each to bins 0, 85, 170
    assert_eq!(hist[0], 11);
    assert_eq!(hist[85], 1);
    assert_eq!(hist[170], 1);
    assert_eq!(hist[1], 0);
    assert_eq!(hist[255], 0);
    assert_eq!(hist.iter().map(|&c| c as u64).sum::<u64>(), 13);
}

#[test]
fn clipping_below_the_limit_changes_nothing() {
    let mut hist = vec![2u32; 256];
    clip_histogram(&mut hist, 5);
    assert_eq!(hist, vec![2u32; 256]);
}

#[test]
fn cumulative_counts() {
    let cdf = cumulative(&vec![1, 0, 2, 3]);
    assert_eq!(cdf, vec![1, 1, 3, 6]);
}

#[test]
fn equalized_tile_ends_at_the_pixel_count() {
    let pixels: Vec<u8> = (0..64u32).map(|i| (i * 4) as u8).collect();
    let cdf = equalize_tile(&pixels, 8, 8, 2, 7, 1, 5, 1);
    assert_eq!(cdf.len(), 256);
    assert_eq!(cdf[255], 20);
    assert!(cdf.windows(2).all(|w| w[0] <= w[1]));
}

#[test]
fn tile_clamping() {
    assert_eq!(clamp_tile(-1, 6), 0);
    assert_eq!(clamp_tile(0, 6), 0);
    assert_eq!(clamp_tile(3, 6), 3);
    assert_eq!(clamp_tile(6, 6), 5);
    assert_eq!(clamp_tile(100, 6), 5);
}

#[test]
fn empty_crop_has_no_pixels() {
    let image = gradient(5, 4, 255);
    let out = apply_crop(image, Some((2, 1, 2, 3))).unwrap();
    assert_eq!((out.width, out.height), (0, 2));
    assert!(out.data.is_empty());
}
