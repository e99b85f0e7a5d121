use equistitch::pixel::{Image, Rgba};
use equistitch::tiling::{parse_tile_count, split_image, stitch_image, StitchError};

fn numbered_image(width: u32, height: u32) -> Image {
    let mut im = Image::new(width, height, Rgba::new(0, 0, 0, 255));
    for y in 0..height {
        for x in 0..width {
            im.set(x, y, Rgba::new(x as u8, y as u8, (x + y) as u8, 255));
        }
    }
    im
}

#[test]
fn split_produces_column_major_patches() {
    let im = numbered_image(4, 4);
    let (patches, x_pieces) = split_image(&im, 2);
    assert_eq!(x_pieces, 2);
    assert_eq!(patches.len(), 4);
    // order: (px 0, py 0), (px 0, py 1), (px 1, py 0), (px 1, py 1)
    assert_eq!(patches[0].get(0, 0), im.get(0, 0));
    assert_eq!(patches[1].get(0, 0), im.get(0, 2));
    assert_eq!(patches[2].get(0, 0), im.get(2, 0));
    assert_eq!(patches[3].get(1, 1), im.get(3, 3));
}

#[test]
fn split_then_stitch_reproduces_the_image() {
    let im = numbered_image(6, 4);
    let (patches, x_pieces) = split_image(&im, 2);
    assert_eq!(x_pieces, 3);
    let back = match stitch_image(&patches, x_pieces) {
        Ok(im) => im,
        Err(_) => panic!("stitching the split patches failed"),
    };
    assert_eq!(back.width, 6);
    assert_eq!(back.height, 4);
    for y in 0..4 {
        for x in 0..6 {
            assert_eq!(back.get(x, y), im.get(x, y));
        }
    }
}

#[test]
fn stitch_of_empty_patch_set_fails() {
    let patches: Vec<Image> = Vec::new();
    assert!(matches!(stitch_image(&patches, 2), Err(StitchError::NoPatches)));
}

#[test]
fn stitch_with_zero_pieces_fails() {
    let im = numbered_image(2, 2);
    let (patches, _) = split_image(&im, 2);
    assert!(matches!(stitch_image(&patches, 0), Err(StitchError::UnevenPatchCount)));
}

#[test]
fn stitch_with_uneven_patch_count_fails() {
    let mut patches = Vec::new();
    patches.push(numbered_image(2, 2));
    patches.push(numbered_image(2, 2));
    patches.push(numbered_image(2, 2));
    assert!(matches!(stitch_image(&patches, 2), Err(StitchError::UnevenPatchCount)));
}

#[test]
fn stitch_with_mismatched_patch_sizes_fails() {
    let mut patches = Vec::new();
    patches.push(numbered_image(2, 2));
    patches.push(numbered_image(1, 1));
    assert!(matches!(stitch_image(&patches, 1), Err(StitchError::SizeMismatch)));
}

#[test]
fn split_of_image_smaller_than_patch_yields_nothing() {
    let im = numbered_image(3, 3);
    let (patches, x_pieces) = split_image(&im, 4);
    assert_eq!(x_pieces, 0);
    assert_eq!(patches.len(), 0);
}

#[test]
fn tile_count_parses_from_decimal_digits() {
    assert_eq!(parse_tile_count(b"2"), Some(2));
    assert_eq!(parse_tile_count(b"480"), Some(480));
    assert_eq!(parse_tile_count(b"4294967295"), Some(u32::MAX));
    assert_eq!(parse_tile_count(b"4294967296"), None);
    assert_eq!(parse_tile_count(b""), None);
    assert_eq!(parse_tile_count(b"12a"), None);
}
