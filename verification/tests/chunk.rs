use bevy_tile_map::{
    generate_or_update_chunks, ChunkCoord, ChunkData, ChunkEntities, ChunkUpdate, Color, Tile,
    TileKind, TileMap, TileTransform, U64Vec2, U64Vec3, UVec2, UVec3,
};

fn sprite(idx: u16) -> Tile {
    Tile {
        entity: None,
        kind: Some(TileKind::Sprite {
            idx,
            transform: TileTransform::default(),
            mask_color: Color { r: 255, g: 255, b: 255, a: 255 },
        }),
        pickable: false,
    }
}

/// A map whose cell `(x, y)` shows sprite `y * width + x`.
fn numbered_map(width: u32, height: u32, chunk: u32) -> TileMap {
    let mut map = TileMap::new(
        UVec2::new(width, height),
        UVec2::new(chunk, chunk),
        UVec2::new(16, 8),
        3,
    );
    for y in 0..height {
        for x in 0..width {
            *map.get_mut_unchecked(UVec3::new(x, y, 0)) = sprite((y * width + x) as u16);
        }
    }
    map
}

#[test]
fn chunk_inside_the_map_is_the_sub_grid() {
    let map = numbered_map(4, 4, 2);
    let data = ChunkData::new(ChunkCoord::new(1, 0, 0), &map, 3);
    assert_eq!(data.tiles(), &vec![sprite(2), sprite(3), sprite(6), sprite(7)]);
    assert_eq!(data.chunk_size(), UVec2::new(2, 2));
    assert_eq!(data.tile_size(), UVec2::new(16, 8));
    assert_eq!(data.tile_sheet(), 3);
    let data = ChunkData::new(ChunkCoord::new(0, 1, 0), &map, 3);
    assert_eq!(data.tiles(), &vec![sprite(8), sprite(9), sprite(12), sprite(13)]);
}

#[test]
fn chunk_past_the_edge_is_padded_with_empty_tiles() {
    let map = numbered_map(3, 3, 2);
    let corner = ChunkData::new(ChunkCoord::new(1, 1, 0), &map, 0);
    assert_eq!(
        corner.tiles(),
        &vec![sprite(8), Tile::default(), Tile::default(), Tile::default()]
    );
    let right = ChunkData::new(ChunkCoord::new(1, 0, 0), &map, 0);
    assert_eq!(
        right.tiles(),
        &vec![sprite(2), Tile::default(), sprite(5), Tile::default()]
    );
    let bottom = ChunkData::new(ChunkCoord::new(0, 1, 0), &map, 0);
    assert_eq!(
        bottom.tiles(),
        &vec![sprite(6), sprite(7), Tile::default(), Tile::default()]
    );
}

#[test]
fn copy_tiles_leaves_cells_past_the_edge_as_they_were() {
    let src: Vec<Tile> = (0..9).map(sprite).collect();
    let mut dest = vec![sprite(100); 4];
    ChunkData::copy_tiles(
        &mut dest,
        &src,
        UVec2::new(1, 1),
        UVec2::new(2, 2),
        UVec2::new(3, 3),
    );
    assert_eq!(dest, vec![sprite(8), sprite(100), sprite(100), sprite(100)]);
    let mut dest = vec![sprite(100); 4];
    ChunkData::copy_tiles(
        &mut dest,
        &src,
        UVec2::new(0, 0),
        UVec2::new(2, 2),
        UVec2::new(3, 3),
    );
    assert_eq!(dest, vec![sprite(0), sprite(1), sprite(3), sprite(4)]);
}

#[test]
fn sync_copies_again_and_takes_the_tile_size() {
    let mut map = numbered_map(4, 4, 2);
    let mut data = ChunkData::new(ChunkCoord::new(1, 1, 0), &map, 3);
    assert_eq!(data.tiles(), &vec![sprite(10), sprite(11), sprite(14), sprite(15)]);
    *map.get_mut(UVec3::new(3, 2, 0)).unwrap() = sprite(99);
    map.tile_size = UVec2::new(32, 32);
    data.sync(&map);
    assert_eq!(data.tiles(), &vec![sprite(10), sprite(99), sprite(14), sprite(15)]);
    assert_eq!(data.tile_size(), UVec2::new(32, 32));
    assert_eq!(data.chunk_coord, ChunkCoord::new(1, 1, 0));
}

#[test]
fn empty_chunk_is_reported_empty() {
    let map = TileMap::new(UVec2::new(4, 4), UVec2::new(2, 2), UVec2::new(16, 16), 0);
    assert!(ChunkData::new(ChunkCoord::new(0, 0, 0), &map, 0).is_empty());
    let map = numbered_map(4, 4, 2);
    assert!(!ChunkData::new(ChunkCoord::new(0, 0, 0), &map, 0).is_empty());
}

#[test]
fn write_then_reconcile_creates_one_record() {
    let mut map = TileMap::new(UVec2::new(4, 4), UVec2::new(2, 2), UVec2::new(16, 8), 5);
    let mut chunks = ChunkEntities::new();
    *map.get_mut(UVec3::new(3, 3, 0)).unwrap() = sprite(1);
    assert!(map.is_chunk_dirty(ChunkCoord::new(1, 1, 0)));
    for chunk in map.chunks() {
        assert_eq!(map.is_chunk_dirty(chunk), chunk == ChunkCoord::new(1, 1, 0));
    }

    let changes = generate_or_update_chunks(&mut map, &mut chunks);
    assert_eq!(
        changes,
        vec![ChunkUpdate { chunk: ChunkCoord::new(1, 1, 0), record: 0, created: true }]
    );
    assert!(!map.has_dirty_chunks());
    assert_eq!(chunks.records.len(), 1);
    assert_eq!(chunks.get(ChunkCoord::new(1, 1, 0)), Some(0));
    assert_eq!(chunks.get(ChunkCoord::new(0, 0, 0)), None);
    let record = &chunks.records[0];
    assert_eq!(record.extent, U64Vec2 { x: 32, y: 16 });
    assert_eq!(record.translation, U64Vec3 { x: 32, y: 16, z: 0 });
    assert_eq!(record.data.chunk_coord, ChunkCoord::new(1, 1, 0));
    assert_eq!(record.data.tile_sheet(), 5);
    assert_eq!(
        record.data.tiles(),
        &vec![Tile::default(), Tile::default(), Tile::default(), sprite(1)]
    );
}

#[test]
fn reconcile_twice_does_nothing_the_second_time() {
    let mut map = TileMap::new(UVec2::new(4, 4), UVec2::new(2, 2), UVec2::new(16, 16), 0);
    let mut chunks = ChunkEntities::new();
    assert!(generate_or_update_chunks(&mut map, &mut chunks).is_empty());
    *map.get_mut(UVec3::new(0, 0, 0)).unwrap() = sprite(1);
    *map.get_mut(UVec3::new(2, 0, 0)).unwrap() = sprite(2);
    assert_eq!(generate_or_update_chunks(&mut map, &mut chunks).len(), 2);
    let records_before: Vec<Vec<Tile>> =
        chunks.records.iter().map(|r| r.data.tiles().clone()).collect();
    let changes = generate_or_update_chunks(&mut map, &mut chunks);
    assert!(changes.is_empty());
    assert!(!map.has_dirty_chunks());
    let records_after: Vec<Vec<Tile>> =
        chunks.records.iter().map(|r| r.data.tiles().clone()).collect();
    assert_eq!(records_before, records_after);
}

#[test]
fn reconcile_updates_existing_records_in_place() {
    let mut map = TileMap::new(UVec2::new(4, 4), UVec2::new(2, 2), UVec2::new(16, 16), 0);
    let mut chunks = ChunkEntities::new();
    *map.get_mut(UVec3::new(1, 1, 0)).unwrap() = sprite(1);
    let first = generate_or_update_chunks(&mut map, &mut chunks);
    assert_eq!(
        first,
        vec![ChunkUpdate { chunk: ChunkCoord::new(0, 0, 0), record: 0, created: true }]
    );
    *map.get_mut(UVec3::new(0, 0, 0)).unwrap() = sprite(7);
    *map.get_mut(UVec3::new(2, 3, 0)).unwrap() = sprite(8);
    map.tile_size = UVec2::new(8, 8);
    let mut second = generate_or_update_chunks(&mut map, &mut chunks);
    second.sort_by_key(|change| change.record);
    assert_eq!(
        second,
        vec![
            ChunkUpdate { chunk: ChunkCoord::new(0, 0, 0), record: 0, created: false },
            ChunkUpdate { chunk: ChunkCoord::new(1, 1, 0), record: 1, created: true },
        ]
    );
    assert_eq!(
        chunks.records[0].data.tiles(),
        &vec![sprite(7), Tile::default(), Tile::default(), sprite(1)]
    );
    assert_eq!(chunks.records[0].data.tile_size(), UVec2::new(8, 8));
    assert_eq!(chunks.records[0].extent, U64Vec2 { x: 16, y: 16 });
    assert_eq!(chunks.records[0].translation, U64Vec3 { x: 0, y: 0, z: 0 });
    assert_eq!(chunks.records[1].translation, U64Vec3 { x: 16, y: 16, z: 0 });
    assert_eq!(
        chunks.records[1].data.tiles(),
        &vec![Tile::default(), Tile::default(), sprite(8), Tile::default()]
    );
}

#[test]
fn reconcile_after_adding_a_layer_covers_every_chunk() {
    let mut map = TileMap::new(UVec2::new(3, 2), UVec2::new(2, 2), UVec2::new(4, 4), 0);
    let mut chunks = ChunkEntities::new();
    map.add_empty_layer();
    let changes = generate_or_update_chunks(&mut map, &mut chunks);
    assert_eq!(changes.len(), 4);
    for chunk in map.chunks() {
        let id = chunks.get(chunk).unwrap();
        assert_eq!(chunks.records[id].data.chunk_coord, chunk);
        assert_eq!(chunks.records[id].translation.z, chunk.0.z as u64);
    }
}
