use bevy_tile_map::render::{
    chunk_indices, extract_chunks, index_count, pack_tile_indices, prepare_tiles, ChunkSource,
    ExtractedChunk, ExtractedChunks, TileMapPipelineKey,
};
use bevy_tile_map::{ChunkCoord, ChunkData, Color, Tile, TileKind, TileMap, TileTransform, UVec2, UVec3};

fn sprite(idx: u16) -> Tile {
    Tile {
        entity: None,
        kind: Some(TileKind::Sprite {
            idx,
            transform: TileTransform::default(),
            mask_color: Color { r: 255, g: 255, b: 255, a: 255 },
        }),
        pickable: false,
    }
}

fn flat() -> Tile {
    Tile {
        entity: None,
        kind: Some(TileKind::Color {
            color: Color { r: 1, g: 2, b: 3, a: 4 },
            transform: TileTransform::default(),
        }),
        pickable: false,
    }
}

fn extracted(index: usize, depth: i32) -> ExtractedChunk {
    ExtractedChunk {
        index,
        data: vec![sprite(index as u16), Tile::default()],
        chunk_size: UVec2::new(2, 1),
        tile_size: UVec2::new(16, 16),
        tile_sheet_handle: 0,
        depth,
    }
}

#[test]
fn pipeline_key_keeps_the_sample_count() {
    for samples in 1..=64 {
        assert_eq!(TileMapPipelineKey::from_msaa_samples(samples).msaa_samples(), samples);
    }
    assert_eq!(TileMapPipelineKey::from_msaa_samples(1).bits, 0);
    assert_eq!(TileMapPipelineKey::from_msaa_samples(4).bits, 0x0c00_0000);
    assert_eq!(TileMapPipelineKey::from_msaa_samples(64).bits, 0xfc00_0000);
    assert_eq!(TileMapPipelineKey::from_msaa_samples(65).msaa_samples(), 1);
    assert_eq!(TileMapPipelineKey::none().msaa_samples(), 1);
}

#[test]
fn pipeline_key_rejects_unknown_bits() {
    assert_eq!(TileMapPipelineKey::from_bits(0), Some(TileMapPipelineKey { bits: 0 }));
    assert_eq!(
        TileMapPipelineKey::from_bits(0x0400_0000),
        Some(TileMapPipelineKey { bits: 0x0400_0000 })
    );
    assert_eq!(TileMapPipelineKey::from_bits(1), None);
    assert_eq!(TileMapPipelineKey::from_bits(0x0200_0000), None);
}

#[test]
fn tile_indices_are_sprite_numbers_or_minus_one() {
    let tiles = vec![sprite(0), Tile::default(), sprite(364), flat(), sprite(65535)];
    assert_eq!(pack_tile_indices(&tiles), vec![0, -1, 364, -1, 65535]);
    assert_eq!(pack_tile_indices(&Vec::new()), Vec::<i32>::new());
}

#[test]
fn extraction_keeps_visible_chunks_that_show_something() {
    let mut map = TileMap::new(UVec2::new(4, 2), UVec2::new(2, 2), UVec2::new(16, 16), 9);
    *map.get_mut(UVec3::new(0, 0, 0)).unwrap() = sprite(5);
    *map.get_mut(UVec3::new(3, 1, 0)).unwrap() = sprite(6);
    let first = ChunkData::new(ChunkCoord::new(0, 0, 0), &map, 9);
    let second = ChunkData::new(ChunkCoord::new(1, 0, 0), &map, 9);
    let blank_map = TileMap::new(UVec2::new(2, 2), UVec2::new(2, 2), UVec2::new(16, 16), 9);
    let blank = ChunkData::new(ChunkCoord::new(0, 0, 0), &blank_map, 9);
    let sources = vec![
        ChunkSource { is_visible: false, data: &first, depth: 1 },
        ChunkSource { is_visible: true, data: &blank, depth: 2 },
        ChunkSource { is_visible: true, data: &second, depth: 3 },
        ChunkSource { is_visible: true, data: &first, depth: 4 },
    ];
    let extracted = extract_chunks(&sources);
    assert_eq!(extracted.chunks.len(), 2);
    assert_eq!(extracted.chunks[0].index, 2);
    assert_eq!(extracted.chunks[0].depth, 3);
    assert_eq!(&extracted.chunks[0].data, second.tiles());
    assert_eq!(extracted.chunks[0].chunk_size, UVec2::new(2, 2));
    assert_eq!(extracted.chunks[0].tile_size, UVec2::new(16, 16));
    assert_eq!(extracted.chunks[0].tile_sheet_handle, 9);
    assert_eq!(extracted.chunks[1].index, 3);
    assert_eq!(extracted.chunks[1].depth, 4);
    assert_eq!(&extracted.chunks[1].data, first.tiles());
}

#[test]
fn chunks_are_drawn_by_depth_then_by_place() {
    let mut chunks = ExtractedChunks {
        chunks: vec![
            extracted(0, 5),
            extracted(1, -2),
            extracted(2, 5),
            extracted(3, 0),
            extracted(4, -2),
        ],
    };
    let buffers = prepare_tiles(&mut chunks);
    let order: Vec<(i32, usize)> = chunks.chunks.iter().map(|c| (c.depth, c.index)).collect();
    assert_eq!(order, vec![(-2, 1), (-2, 4), (0, 3), (5, 0), (5, 2)]);
    assert_eq!(
        buffers,
        vec![vec![1, -1], vec![4, -1], vec![3, -1], vec![0, -1], vec![2, -1]]
    );
}

#[test]
fn index_buffer_names_two_triangles_per_cell() {
    assert_eq!(
        chunk_indices(UVec2::new(2, 1)),
        vec![0, 3, 1, 0, 2, 3, 4, 7, 5, 4, 6, 7]
    );
    assert_eq!(chunk_indices(UVec2::new(0, 5)), Vec::<u16>::new());
    assert_eq!(chunk_indices(UVec2::new(3, 2)).len(), 36);
    assert_eq!(index_count(UVec2::new(3, 2)), 36);
    assert_eq!(index_count(UVec2::new(32, 32)), 6144);
}

#[test]
fn index_buffer_wraps_vertex_numbers_at_sixteen_bits() {
    let indices = chunk_indices(UVec2::new(128, 129));
    // Cell 16383 owns the vertices 65532..65536; cell 16384 starts again at 0.
    assert_eq!(&indices[6 * 16383..6 * 16383 + 6], &[65532, 65535, 65533, 65532, 65534, 65535]);
    assert_eq!(&indices[6 * 16384..6 * 16384 + 6], &[0, 3, 1, 0, 2, 3]);
}
