use bevy_tile_map::{ChunkCoord, Color, Tile, TileKind, TileMap, TileTransform, UVec2, UVec3};

fn sprite(idx: u16) -> Tile {
    Tile {
        entity: None,
        kind: Some(TileKind::Sprite {
            idx,
            transform: TileTransform::default(),
            mask_color: Color { r: 255, g: 255, b: 255, a: 255 },
        }),
        pickable: true,
    }
}

fn small_map() -> TileMap {
    TileMap::new(UVec2::new(4, 4), UVec2::new(2, 2), UVec2::new(16, 16), 7)
}

#[test]
fn new_map_has_one_empty_layer_and_nothing_dirty() {
    let map = small_map();
    assert_eq!(map.size(), UVec3::new(4, 4, 1));
    assert!(!map.has_dirty_chunks());
    for x in 0..4 {
        for y in 0..4 {
            assert_eq!(map.get(UVec3::new(x, y, 0)), Some(&Tile::default()));
        }
    }
}

#[test]
fn default_tile_is_empty_and_not_pickable() {
    let tile = Tile::default();
    assert!(tile.is_empty());
    assert!(!tile.pickable);
    assert_eq!(tile.entity, None);
    assert_eq!(tile.index(), None);
}

#[test]
fn write_then_read_back_marks_the_chunk() {
    let mut map = small_map();
    *map.get_mut(UVec3::new(3, 3, 0)).unwrap() = sprite(5);
    assert_eq!(map.get(UVec3::new(3, 3, 0)), Some(&sprite(5)));
    assert_eq!(map.get(UVec3::new(2, 3, 0)), Some(&Tile::default()));
    assert!(map.is_chunk_dirty(ChunkCoord::new(1, 1, 0)));
    assert!(!map.is_chunk_dirty(ChunkCoord::new(0, 0, 0)));
    assert!(!map.is_chunk_dirty(ChunkCoord::new(1, 0, 0)));
    assert!(!map.is_chunk_dirty(ChunkCoord::new(0, 1, 0)));
    assert_eq!(map.take_dirty_chunks(), vec![ChunkCoord::new(1, 1, 0)]);
}

#[test]
fn get_outside_the_map_is_none() {
    let mut map = small_map();
    assert_eq!(map.get(UVec3::new(4, 0, 0)), None);
    assert_eq!(map.get(UVec3::new(0, 4, 0)), None);
    assert_eq!(map.get(UVec3::new(0, 0, 1)), None);
    assert!(map.get_mut(UVec3::new(4, 0, 0)).is_none());
    assert!(map.get_mut(UVec3::new(0, 0, 1)).is_none());
    assert!(!map.has_dirty_chunks());
}

#[test]
fn unchecked_write_marks_nothing() {
    let mut map = small_map();
    *map.get_mut_unchecked(UVec3::new(1, 2, 0)) = sprite(9);
    assert_eq!(map.index(UVec3::new(1, 2, 0)), &sprite(9));
    assert!(!map.has_dirty_chunks());
    *map.index_mut(UVec3::new(1, 2, 0)) = sprite(3);
    assert!(map.is_chunk_dirty(ChunkCoord::new(0, 1, 0)));
}

#[test]
fn cell_index_is_row_major() {
    let map = TileMap::new(UVec2::new(5, 3), UVec2::new(2, 2), UVec2::new(8, 8), 0);
    assert_eq!(map.coord_to_tile_idx(UVec2::new(0, 0)), 0);
    assert_eq!(map.coord_to_tile_idx(UVec2::new(4, 0)), 4);
    assert_eq!(map.coord_to_tile_idx(UVec2::new(2, 1)), 7);
    assert_eq!(map.coord_to_tile_idx(UVec2::new(4, 2)), 14);
    assert_eq!(map.coord_to_chunk_coord(UVec3::new(4, 2, 0)), ChunkCoord::new(2, 1, 0));
    assert_eq!(map.coord_to_chunk_coord(UVec3::new(1, 1, 0)), ChunkCoord::new(0, 0, 0));
}

#[test]
fn chunks_cover_a_partial_last_column() {
    let map = TileMap::new(UVec2::new(5, 3), UVec2::new(2, 2), UVec2::new(8, 8), 0);
    let chunks = map.chunks();
    assert_eq!(
        chunks,
        vec![
            ChunkCoord::new(0, 0, 0),
            ChunkCoord::new(0, 1, 0),
            ChunkCoord::new(1, 0, 0),
            ChunkCoord::new(1, 1, 0),
            ChunkCoord::new(2, 0, 0),
            ChunkCoord::new(2, 1, 0),
        ]
    );
}

#[test]
fn chunks_list_layers_fastest() {
    let mut map = TileMap::new(UVec2::new(2, 1), UVec2::new(1, 1), UVec2::new(8, 8), 0);
    map.add_empty_layer();
    assert_eq!(
        map.chunks(),
        vec![
            ChunkCoord::new(0, 0, 0),
            ChunkCoord::new(0, 0, 1),
            ChunkCoord::new(1, 0, 0),
            ChunkCoord::new(1, 0, 1),
        ]
    );
}

#[test]
fn add_empty_layer_marks_every_chunk() {
    let mut map = small_map();
    let before = map.chunks().len();
    assert_eq!(before, 4);
    let layer = map.add_empty_layer();
    assert_eq!(layer, 1);
    assert_eq!(map.size(), UVec3::new(4, 4, 2));
    let after = map.chunks();
    assert_eq!(after.len(), before * 2);
    for chunk in &after {
        assert!(map.is_chunk_dirty(*chunk));
    }
    let mut dirty = map.take_dirty_chunks();
    dirty.sort_by_key(|c| (c.0.x, c.0.y, c.0.z));
    assert_eq!(dirty, after);
    assert_eq!(map.get(UVec3::new(3, 3, 1)), Some(&Tile::default()));
}

#[test]
fn add_layer_keeps_the_given_tiles() {
    let mut map = TileMap::new(UVec2::new(2, 2), UVec2::new(2, 2), UVec2::new(8, 8), 0);
    let layer = map.add_layer(vec![sprite(0), sprite(1), sprite(2), sprite(3)]);
    assert_eq!(layer, 1);
    assert_eq!(map.get(UVec3::new(1, 0, 1)), Some(&sprite(1)));
    assert_eq!(map.get(UVec3::new(0, 1, 1)), Some(&sprite(2)));
    assert_eq!(map.get(UVec3::new(0, 1, 0)), Some(&Tile::default()));
    assert!(map.is_chunk_dirty(ChunkCoord::new(0, 0, 0)));
    assert!(map.is_chunk_dirty(ChunkCoord::new(0, 0, 1)));
}

#[test]
fn marking_is_idempotent() {
    let mut map = small_map();
    map.mark_chunk_dirty(UVec3::new(0, 1, 0));
    map.mark_chunk_dirty(UVec3::new(1, 0, 0));
    assert_eq!(map.take_dirty_chunks(), vec![ChunkCoord::new(0, 0, 0)]);
    map.mark_all_chunks_dirty();
    map.mark_all_chunks_dirty();
    assert_eq!(map.take_dirty_chunks().len(), 4);
    assert!(!map.has_dirty_chunks());
}

#[test]
fn every_cell_reads_back_what_was_written() {
    let mut map = TileMap::new(UVec2::new(5, 3), UVec2::new(2, 2), UVec2::new(16, 16), 0);
    map.add_empty_layer();
    map.take_dirty_chunks();
    for z in 0..2 {
        for y in 0..3 {
            for x in 0..5 {
                let coord = UVec3::new(x, y, z);
                let tile = sprite((z * 15 + y * 5 + x) as u16);
                *map.get_mut(coord).unwrap() = tile;
                assert_eq!(map.get(coord), Some(&tile));
                assert!(map.is_chunk_dirty(ChunkCoord::new(x / 2, y / 2, z)));
                assert_eq!(map.take_dirty_chunks(), vec![ChunkCoord::new(x / 2, y / 2, z)]);
            }
        }
    }
    for z in 0..2 {
        for y in 0..3 {
            for x in 0..5 {
                assert_eq!(
                    map.get(UVec3::new(x, y, z)),
                    Some(&sprite((z * 15 + y * 5 + x) as u16))
                );
            }
        }
    }
}

#[test]
fn set_tile_writes_and_marks() {
    let mut map = small_map();
    map.set_tile(UVec3::new(2, 1, 0), sprite(4));
    assert_eq!(map.index(UVec3::new(2, 1, 0)), &sprite(4));
    assert_eq!(map.take_dirty_chunks(), vec![ChunkCoord::new(1, 0, 0)]);
}

#[test]
fn default_transform_is_the_identity() {
    let transform = TileTransform::default();
    assert_eq!(f32::from_bits(transform.angle), 0.0);
    assert_eq!(f32::from_bits(transform.translation_x), 0.0);
    assert_eq!(f32::from_bits(transform.translation_y), 0.0);
    assert_eq!(f32::from_bits(transform.scale_x), 1.0);
    assert_eq!(f32::from_bits(transform.scale_y), 1.0);
}

#[test]
fn a_map_with_a_wrong_size_is_not_shaped() {
    let mut map = small_map();
    assert!(map.is_shaped());
    map.size.x = 5;
    assert!(!map.is_shaped());
    map.size.x = 4;
    map.chunk_size.y = 0;
    assert!(!map.is_shaped());
    map.chunk_size.y = 2;
    map.size.z = 2;
    assert!(!map.is_shaped());
    map.size.z = 1;
    map.tile_size = UVec2::new(0, 0);
    assert!(map.is_shaped());
}

#[test]
fn a_map_without_cells_has_no_chunks() {
    let map = TileMap::new(UVec2::new(0, 7), UVec2::new(2, 2), UVec2::new(16, 16), 0);
    assert!(map.chunks().is_empty());
    assert_eq!(map.get(UVec3::new(0, 0, 0)), None);
}
