use bevy_tile_map::render::tile_sheet::{make_into_tiles, DEFAULT_FORMAT};
use bevy_tile_map::{
    AtlasLayout, HandleSet, PixelFormat, PrepareAssetError, SourceImage, TileSheet, UVec2,
};
use std::collections::HashMap;

const GREY: PixelFormat = PixelFormat { id: 9, pixel_size: 1 };
const RGBA: PixelFormat = PixelFormat { id: DEFAULT_FORMAT, pixel_size: 4 };

/// A one-byte-per-pixel image whose pixel `(x, y)` holds `y * width + x`.
fn counted(width: u32, height: u32) -> SourceImage {
    let data: Vec<u8> = (0..width * height).map(|i| i as u8).collect();
    SourceImage::new(data, UVec2::new(width, height), GREY).unwrap()
}

fn handles(list: &[u64]) -> HandleSet {
    let mut set = HandleSet::new();
    for handle in list {
        set.insert(*handle);
    }
    set
}

#[test]
fn new_sheet_sorts_and_deduplicates_its_images() {
    let sheet = TileSheet::new(vec![7, 3, 9, 3, 7, 1], UVec2::new(16, 16));
    assert_eq!(sheet.tile_sets, vec![1, 3, 7, 9]);
    assert_eq!(sheet.tile_size, UVec2::new(16, 16));
    assert!(sheet.tile_data.is_empty());
    assert_eq!(sheet.array_count, 0);
    assert_eq!(sheet.format, None);
    let same = TileSheet::new(vec![9, 1, 7, 3], UVec2::new(16, 16));
    assert_eq!(same.tile_sets, sheet.tile_sets);
}

#[test]
fn empty_sheet_is_one_blank_pixel() {
    let sheet = TileSheet::empty();
    assert!(sheet.tile_sets.is_empty());
    assert_eq!(sheet.tile_size, UVec2::new(1, 1));
    assert_eq!(sheet.tile_data, vec![0, 0, 0, 0]);
    assert_eq!(sheet.array_count, 1);
    assert_eq!(sheet.format, Some(RGBA));
}

#[test]
fn source_image_checks_its_length() {
    assert!(SourceImage::new(vec![0; 12], UVec2::new(3, 4), GREY).is_some());
    assert!(SourceImage::new(vec![0; 11], UVec2::new(3, 4), GREY).is_none());
    assert!(SourceImage::new(vec![0; 48], UVec2::new(3, 4), RGBA).is_some());
    assert!(SourceImage::new(vec![0; 12], UVec2::new(3, 4), RGBA).is_none());
    assert!(SourceImage::new(vec![], UVec2::new(3, 4), PixelFormat { id: 0, pixel_size: 0 })
        .is_none());
}

#[test]
fn wide_image_packs_into_two_flipped_tiles() {
    let mut data = Vec::new();
    for y in 0..16u32 {
        for x in 0..32u32 {
            data.push(if x < 16 { y as u8 } else { 100 + y as u8 });
        }
    }
    let image = SourceImage::new(data, UVec2::new(32, 16), GREY).unwrap();
    let mut images = HashMap::new();
    images.insert(4, image);
    let mut sheet = TileSheet::new(vec![4], UVec2::new(16, 16));
    sheet.update_images(&images, &handles(&[4]));
    assert_eq!(sheet.array_count, 2);
    assert_eq!(sheet.format, Some(GREY));
    assert_eq!(sheet.tile_data.len(), 2 * 16 * 16);
    for row in 0..16usize {
        for x in 0..16usize {
            assert_eq!(sheet.tile_data[row * 16 + x], (15 - row) as u8);
            assert_eq!(sheet.tile_data[256 + row * 16 + x], 100 + (15 - row) as u8);
        }
    }
}

#[test]
fn packing_cuts_whole_tiles_row_by_row() {
    // 5 x 4 pixels, tiles of 2 x 2: two rows of two tiles, the fifth column is left over.
    let image = counted(5, 4);
    let mut dest = vec![200u8];
    make_into_tiles(&mut dest, &image, UVec2::new(2, 2));
    assert_eq!(
        dest,
        vec![
            200, // what was there
            5, 6, 0, 1, // tile 0: rows 1 and 0 of the image, columns 0..2
            7, 8, 2, 3, // tile 1: columns 2..4
            15, 16, 10, 11, // tile 2: rows 3 and 2
            17, 18, 12, 13, // tile 3
        ]
    );
}

#[test]
fn packing_keeps_the_bytes_of_a_pixel_together() {
    let data: Vec<u8> = (0..2 * 2 * 4).collect();
    let image = SourceImage::new(data, UVec2::new(2, 2), RGBA).unwrap();
    let mut dest = Vec::new();
    make_into_tiles(&mut dest, &image, UVec2::new(1, 2));
    assert_eq!(
        dest,
        vec![8, 9, 10, 11, 0, 1, 2, 3, 12, 13, 14, 15, 4, 5, 6, 7]
    );
}

#[test]
fn image_smaller_than_a_tile_gives_no_tile() {
    let image = counted(3, 3);
    let mut dest = Vec::new();
    make_into_tiles(&mut dest, &image, UVec2::new(4, 4));
    assert!(dest.is_empty());
}

#[test]
fn repacking_without_a_changed_image_is_a_no_op() {
    let mut images = HashMap::new();
    images.insert(1, counted(4, 2));
    images.insert(2, counted(2, 2));
    let mut sheet = TileSheet::new(vec![2, 1], UVec2::new(2, 2));
    sheet.update_images(&images, &handles(&[1]));
    let packed = sheet.tile_data.clone();
    assert_eq!(packed, vec![4, 5, 0, 1, 6, 7, 2, 3, 2, 3, 0, 1]);
    assert_eq!(sheet.array_count, 3);

    // The image changes, but the sheet is not told: nothing is packed anew.
    images.insert(1, counted(2, 2));
    sheet.update_images(&images, &handles(&[5, 6]));
    assert_eq!(sheet.tile_data, packed);
    assert_eq!(sheet.array_count, 3);
    assert_eq!(sheet.format, Some(GREY));
    sheet.update_images(&images, &HandleSet::new());
    assert_eq!(sheet.tile_data, packed);

    // Told of the change, it packs anew.
    sheet.update_images(&images, &handles(&[2]));
    assert_eq!(sheet.tile_data, vec![2, 3, 0, 1, 2, 3, 0, 1]);
    assert_eq!(sheet.array_count, 2);
}

#[test]
fn images_that_are_not_loaded_are_skipped() {
    let mut images = HashMap::new();
    images.insert(8, counted(2, 2));
    let mut sheet = TileSheet::new(vec![8, 3], UVec2::new(2, 2));
    sheet.update_images(&images, &handles(&[3]));
    assert_eq!(sheet.format, Some(GREY));
    assert_eq!(sheet.array_count, 1);
    assert_eq!(sheet.tile_data, vec![2, 3, 0, 1]);
}

#[test]
fn sheet_without_a_loaded_image_asks_to_retry() {
    let images: HashMap<u64, SourceImage> = HashMap::new();
    let mut sheet = TileSheet::new(vec![1, 2], UVec2::new(16, 16));
    assert_eq!(sheet.prepare_asset(), Err(PrepareAssetError::RetryNextUpdate));
    sheet.update_images(&images, &handles(&[1]));
    assert_eq!(sheet.format, None);
    assert_eq!(sheet.array_count, 0);
    assert_eq!(sheet.prepare_asset(), Err(PrepareAssetError::RetryNextUpdate));
}

#[test]
fn loaded_sheet_describes_its_texture() {
    let mut images = HashMap::new();
    images.insert(1, counted(4, 4));
    let mut sheet = TileSheet::new(vec![1], UVec2::new(2, 2));
    sheet.update_images(&images, &handles(&[1]));
    assert_eq!(
        sheet.prepare_asset(),
        Ok(AtlasLayout { tile_size: UVec2::new(2, 2), array_count: 4, format: GREY })
    );
    assert_eq!(
        TileSheet::empty().prepare_asset(),
        Ok(AtlasLayout { tile_size: UVec2::new(1, 1), array_count: 1, format: RGBA })
    );
}

#[test]
fn handle_set_holds_what_was_inserted() {
    let mut set = HandleSet::new();
    assert!(!set.contains(3));
    assert!(set.insert(3));
    assert!(!set.insert(3));
    assert!(set.contains(3));
    assert!(!set.contains(4));
}

#[test]
fn images_of_two_formats_cannot_be_packed() {
    let mut images = HashMap::new();
    images.insert(1, counted(2, 2));
    images.insert(2, SourceImage::new(vec![0; 16], UVec2::new(2, 2), RGBA).unwrap());
    assert!(TileSheet::new(vec![1], UVec2::new(2, 2)).check_can_pack(&images));
    assert!(TileSheet::new(vec![2, 7], UVec2::new(2, 2)).check_can_pack(&images));
    assert!(!TileSheet::new(vec![1, 2], UVec2::new(2, 2)).check_can_pack(&images));
    assert!(!TileSheet::new(vec![1], UVec2::new(0, 2)).check_can_pack(&images));
    assert!(!TileSheet::new(vec![1], UVec2::new(2, 0)).check_can_pack(&images));
}

#[test]
fn an_image_with_missing_bytes_cannot_be_packed() {
    let mut image = counted(2, 2);
    assert!(image.is_well_formed());
    image.data.pop();
    assert!(!image.is_well_formed());
    let mut images = HashMap::new();
    images.insert(1, image);
    assert!(!TileSheet::new(vec![1], UVec2::new(2, 2)).check_can_pack(&images));
    assert!(TileSheet::new(vec![2], UVec2::new(2, 2)).check_can_pack(&images));
}

#[test]
fn layer_count_is_bytes_by_tile_bytes() {
    let mut images = HashMap::new();
    images.insert(1, SourceImage::new((0..5 * 7 * 4).map(|i| i as u8).collect(), UVec2::new(5, 7), RGBA).unwrap());
    images.insert(2, SourceImage::new(vec![9; 4 * 4 * 4], UVec2::new(4, 4), RGBA).unwrap());
    let mut sheet = TileSheet::new(vec![1, 2], UVec2::new(2, 3));
    sheet.update_images(&images, &handles(&[2]));
    // 2 x 2 tiles from the first image, 2 x 1 from the second.
    assert_eq!(sheet.array_count, 6);
    assert_eq!(sheet.tile_data.len(), 6 * 2 * 3 * 4);
    // Layer 1 is the second tile of the first image; its first row is the tile's bottom row:
    // image row 2, columns 2..4.
    let row: Vec<u8> = (0..8).map(|k| ((2 * 5 + 2) * 4 + k) as u8).collect();
    assert_eq!(&sheet.tile_data[24..32], &row[..]);
}
