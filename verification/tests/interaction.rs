use bevy_tile_map::interaction::pick_tile;
use bevy_tile_map::TileMapInteractionEvent::{Clicked, Hovering, JustEntered, JustExited};
use bevy_tile_map::{
    queue_interaction_events, ChunkCoord, ChunkData, ChunkHit, Color, Tile, TileKind, TileMap,
    TileTransform, UVec2, UVec3,
};

fn sprite(idx: u16) -> Tile {
    Tile {
        entity: None,
        kind: Some(TileKind::Sprite {
            idx,
            transform: TileTransform::default(),
            mask_color: Color { r: 255, g: 255, b: 255, a: 255 },
        }),
        pickable: true,
    }
}

#[test]
fn entering_hovering_and_leaving() {
    let a = (1u64, UVec3::new(1, 2, 0));
    let b = (1u64, UVec3::new(2, 2, 0));
    let mut last = None;
    assert_eq!(queue_interaction_events(&mut last, Some(a), false), vec![JustEntered(a.0, a.1)]);
    assert_eq!(last, Some(a));
    assert_eq!(queue_interaction_events(&mut last, Some(a), false), vec![Hovering(a.0, a.1)]);
    assert_eq!(last, Some(a));
    assert_eq!(
        queue_interaction_events(&mut last, Some(b), false),
        vec![JustExited(a.0, a.1), JustEntered(b.0, b.1)]
    );
    assert_eq!(last, Some(b));
    assert_eq!(queue_interaction_events(&mut last, None, false), vec![JustExited(b.0, b.1)]);
    assert_eq!(last, None);
    assert_eq!(queue_interaction_events(&mut last, None, false), vec![]);
}

#[test]
fn a_press_clicks_the_tile_under_the_pointer() {
    let a = (1u64, UVec3::new(1, 2, 0));
    let b = (2u64, UVec3::new(1, 2, 0));
    let mut last = None;
    assert_eq!(
        queue_interaction_events(&mut last, Some(a), true),
        vec![JustEntered(a.0, a.1), Clicked(a.0, a.1)]
    );
    assert_eq!(
        queue_interaction_events(&mut last, Some(a), true),
        vec![Hovering(a.0, a.1), Clicked(a.0, a.1)]
    );
    assert_eq!(
        queue_interaction_events(&mut last, Some(b), true),
        vec![JustExited(a.0, a.1), JustEntered(b.0, b.1), Clicked(b.0, b.1)]
    );
    assert_eq!(queue_interaction_events(&mut last, None, true), vec![JustExited(b.0, b.1)]);
    assert_eq!(queue_interaction_events(&mut last, None, true), vec![]);
}

#[test]
fn a_hit_is_wrapped_into_the_chunk_and_placed_in_the_map() {
    let mut map = TileMap::new(UVec2::new(8, 8), UVec2::new(4, 4), UVec2::new(16, 16), 0);
    *map.get_mut(UVec3::new(5, 6, 0)).unwrap() = sprite(1);
    let chunk = ChunkData::new(ChunkCoord::new(1, 1, 0), &map, 0);
    assert_eq!(chunk.pick(UVec2::new(1, 2)), Some(UVec3::new(5, 6, 0)));
    assert_eq!(chunk.pick(UVec2::new(5, 6)), Some(UVec3::new(5, 6, 0)));
    assert_eq!(chunk.pick(UVec2::new(9, 2)), Some(UVec3::new(5, 6, 0)));
    assert_eq!(chunk.pick(UVec2::new(2, 2)), None);
    assert_eq!(chunk.pick(UVec2::new(1, 1)), None);
}

#[test]
fn the_nearest_hit_on_a_tile_wins() {
    let mut map = TileMap::new(UVec2::new(4, 4), UVec2::new(2, 2), UVec2::new(16, 16), 0);
    map.add_empty_layer();
    *map.get_mut(UVec3::new(3, 0, 0)).unwrap() = sprite(1);
    *map.get_mut(UVec3::new(3, 0, 1)).unwrap() = sprite(2);
    *map.get_mut(UVec3::new(2, 1, 0)).unwrap() = sprite(3);
    let below = ChunkData::new(ChunkCoord::new(1, 0, 0), &map, 0);
    let above = ChunkData::new(ChunkCoord::new(1, 0, 1), &map, 0);

    let hit = |chunk, x, y| ChunkHit { chunk, tile_map_entity: 42, cell: UVec2::new(x, y) };
    assert_eq!(
        pick_tile(&vec![hit(&above, 1, 0), hit(&below, 1, 0)]),
        Some((42, UVec3::new(3, 0, 1)))
    );
    assert_eq!(
        pick_tile(&vec![hit(&below, 1, 0), hit(&above, 1, 0)]),
        Some((42, UVec3::new(3, 0, 0)))
    );
    // The upper layer is empty at (2, 1): the hit goes through to the lower one.
    assert_eq!(
        pick_tile(&vec![hit(&above, 0, 1), hit(&below, 0, 1)]),
        Some((42, UVec3::new(2, 1, 0)))
    );
    assert_eq!(pick_tile(&vec![hit(&above, 0, 0), hit(&below, 0, 0)]), None);
    assert_eq!(pick_tile(&Vec::new()), None);
}

#[test]
fn a_chunk_at_the_end_of_the_number_range_is_not_addressable() {
    let map = TileMap::new(UVec2::new(8, 8), UVec2::new(4, 4), UVec2::new(16, 16), 0);
    let mut chunk = ChunkData::new(ChunkCoord::new(1, 1, 0), &map, 0);
    assert!(chunk.is_addressable());
    chunk.chunk_coord = ChunkCoord::new(u32::MAX / 4, 0, 0);
    assert!(chunk.is_addressable());
    chunk.chunk_coord = ChunkCoord::new(u32::MAX / 4 + 1, 0, 0);
    assert!(!chunk.is_addressable());
    chunk.chunk_coord = ChunkCoord::new(0, u32::MAX, 0);
    assert!(!chunk.is_addressable());
}
