use bevy_tile_map::hash::TileKindMap;
use bevy_tile_map::tile_map::{sync_as_tiles, AsTiles};
use bevy_tile_map::{ChunkCoord, Color, Tile, TileKind, TileMap, TileTransform, UVec2, UVec3};

fn kind(idx: u16) -> TileKind {
    TileKind::Sprite {
        idx,
        transform: TileTransform::default(),
        mask_color: Color { r: 255, g: 255, b: 255, a: 255 },
    }
}

fn group(coord: UVec3, cells: &[((u32, u32, u32), u16)]) -> AsTiles {
    let mut tiles = TileKindMap::new();
    for (offset, idx) in cells {
        tiles.insert(*offset, kind(*idx));
    }
    AsTiles { coord, tiles, tile_map_entity: 1 }
}

fn placed(entity: u64, idx: u16) -> Tile {
    Tile { entity: Some(entity), kind: Some(kind(idx)), pickable: true }
}

fn dirty(map: &mut TileMap) -> Vec<ChunkCoord> {
    let mut list = map.take_dirty_chunks();
    list.sort_by_key(|c| (c.0.x, c.0.y, c.0.z));
    list
}

#[test]
fn a_group_is_placed_at_its_offsets() {
    let mut map = TileMap::new(UVec2::new(6, 6), UVec2::new(2, 2), UVec2::new(16, 16), 0);
    let hero = group(UVec3::new(1, 1, 0), &[((0, 0, 0), 10), ((1, 0, 0), 11), ((0, 1, 0), 12)]);
    assert!(hero.check_fits(&map));
    assert!(sync_as_tiles(&mut map, None, 77, &hero));
    assert_eq!(map.get(UVec3::new(1, 1, 0)), Some(&placed(77, 10)));
    assert_eq!(map.get(UVec3::new(2, 1, 0)), Some(&placed(77, 11)));
    assert_eq!(map.get(UVec3::new(1, 2, 0)), Some(&placed(77, 12)));
    assert_eq!(map.get(UVec3::new(2, 2, 0)), Some(&Tile::default()));
    assert_eq!(
        dirty(&mut map),
        vec![ChunkCoord::new(0, 0, 0), ChunkCoord::new(0, 1, 0), ChunkCoord::new(1, 0, 0)]
    );
}

#[test]
fn a_group_that_did_not_change_is_left_alone() {
    let mut map = TileMap::new(UVec2::new(6, 6), UVec2::new(2, 2), UVec2::new(16, 16), 0);
    let hero = group(UVec3::new(1, 1, 0), &[((0, 0, 0), 10), ((1, 0, 0), 11)]);
    let same = group(UVec3::new(1, 1, 0), &[((1, 0, 0), 11), ((0, 0, 0), 10)]);
    assert!(sync_as_tiles(&mut map, None, 77, &hero));
    dirty(&mut map);
    assert!(!sync_as_tiles(&mut map, Some(&hero), 77, &same));
    assert!(!map.has_dirty_chunks());
    assert_eq!(map.get(UVec3::new(1, 1, 0)), Some(&placed(77, 10)));
}

#[test]
fn a_moved_group_leaves_empty_cells_behind() {
    let mut map = TileMap::new(UVec2::new(6, 6), UVec2::new(2, 2), UVec2::new(16, 16), 0);
    let before = group(UVec3::new(0, 0, 0), &[((0, 0, 0), 10), ((1, 0, 0), 11)]);
    let after = group(UVec3::new(1, 0, 0), &[((0, 0, 0), 10), ((1, 0, 0), 11)]);
    assert!(sync_as_tiles(&mut map, None, 5, &before));
    dirty(&mut map);
    assert!(sync_as_tiles(&mut map, Some(&before), 5, &after));
    assert_eq!(map.get(UVec3::new(0, 0, 0)), Some(&Tile::default()));
    assert_eq!(map.get(UVec3::new(1, 0, 0)), Some(&placed(5, 10)));
    assert_eq!(map.get(UVec3::new(2, 0, 0)), Some(&placed(5, 11)));
    assert_eq!(dirty(&mut map), vec![ChunkCoord::new(0, 0, 0), ChunkCoord::new(1, 0, 0)]);
}

#[test]
fn a_group_past_the_edge_does_not_fit() {
    let map = TileMap::new(UVec2::new(4, 4), UVec2::new(2, 2), UVec2::new(16, 16), 0);
    assert!(group(UVec3::new(3, 3, 0), &[((0, 0, 0), 1)]).check_fits(&map));
    assert!(!group(UVec3::new(3, 3, 0), &[((1, 0, 0), 1)]).check_fits(&map));
    assert!(!group(UVec3::new(3, 3, 0), &[((0, 0, 1), 1)]).check_fits(&map));
    assert!(!group(UVec3::new(4, 0, 0), &[((0, 0, 0), 1)]).check_fits(&map));
    assert!(!group(UVec3::new(0, 0, 0), &[((0, 0, 0), 1), ((u32::MAX, 0, 0), 2)]).check_fits(&map));
    assert!(group(UVec3::new(9, 9, 9), &[]).check_fits(&map));
}
