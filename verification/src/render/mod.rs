//! What the renderer is handed: the packed tile sheet, the visible chunks in drawing order
//! with their per-tile image numbers, and the index buffer of a chunk's quads.

pub mod tile_sheet;

use crate::chunk::ChunkData;
use crate::math::UVec2;
use crate::tile_map::Tile;
use vstd::prelude::*;

verus! {

/// The low six bits: the width of the sample count in a pipeline key.
pub const MSAA_MASK_BITS: u32 = 0b111111;

/// The sample count sits in the six highest bits of a pipeline key.
pub const MSAA_SHIFT_BITS: u32 = 26;

/// The bits of a pipeline key that are in use: those of the sample count.
pub const MSAA_RESERVED_BITS: u32 = 0xfc00_0000;

/// The key by which render pipelines are told apart: the multisampling count, less one, in
/// the six highest bits.
#[derive(Clone, Copy, Debug, PartialEq, Eq, Hash, Structural)]
pub struct TileMapPipelineKey {
    pub bits: u32,
}

impl TileMapPipelineKey {
    /// The key with no bit set: one sample.
    pub fn none() -> (key: TileMapPipelineKey)
        ensures
            key.bits == 0,
    {
        TileMapPipelineKey { bits: 0 }
    }

    /// The key with the given bits, or `None` where a bit outside the sample count is set.
    pub fn from_bits(bits: u32) -> (key: Option<TileMapPipelineKey>)
        ensures
            key == (if bits & !MSAA_RESERVED_BITS == 0 {
                Some(TileMapPipelineKey { bits })
            } else {
                None
            }),
    {
        if bits & !MSAA_RESERVED_BITS == 0 {
            Some(TileMapPipelineKey { bits })
        } else {
            None
        }
    }

    /// The sample count that the key stands for.
    pub open spec fn spec_msaa_samples(&self) -> u32 {
        (((self.bits >> MSAA_SHIFT_BITS) & MSAA_MASK_BITS) + 1) as u32
    }

    /// The key for a sample count. Counts from 1 to 64 are kept as they are; of a larger
    /// count only the six low bits of the count less one are kept.
    pub fn from_msaa_samples(msaa_samples: u32) -> (key: TileMapPipelineKey)
        requires
            msaa_samples >= 1,
        ensures
            key.bits == (((msaa_samples - 1) as u32) & MSAA_MASK_BITS) << MSAA_SHIFT_BITS,
            msaa_samples <= 64 ==> key.spec_msaa_samples() == msaa_samples,
    {
        let count: u32 = msaa_samples - 1;
        let msaa_bits = (count & MSAA_MASK_BITS) << MSAA_SHIFT_BITS;
        assert(msaa_bits & !MSAA_RESERVED_BITS == 0) by (bit_vector)
            requires
                msaa_bits == (count & 0b111111u32) << 26u32,
        ;
        assert(count < 64 ==> ((msaa_bits >> 26u32) & 0b111111u32) == count) by (bit_vector)
            requires
                msaa_bits == (count & 0b111111u32) << 26u32,
        ;
        Self::from_bits(msaa_bits).unwrap()
    }

    /// The sample count that the key stands for.
    #[verifier::when_used_as_spec(spec_msaa_samples)]
    pub fn msaa_samples(&self) -> (samples: u32)
        ensures
            samples == self.spec_msaa_samples(),
            1 <= samples <= 64,
    {
        let bits = self.bits;
        assert(((bits >> 26u32) & 0b111111u32) < 64) by (bit_vector);
        ((self.bits >> MSAA_SHIFT_BITS) & MSAA_MASK_BITS) + 1
    }
}

/// A chunk as the renderer sees it.
#[derive(Debug)]
pub struct ExtractedChunk {
    /// The chunk's place among the chunks that were looked at, hidden ones counted.
    pub index: usize,
    pub data: Vec<Tile>,
    pub chunk_size: UVec2,
    pub tile_size: UVec2,
    pub tile_sheet_handle: u64,
    /// The chunk's depth in the world as an integer that orders as the depth does: chunks
    /// with a smaller key are drawn first.
    pub depth: i32,
}

/// The chunks to draw in this frame.
#[derive(Debug)]
pub struct ExtractedChunks {
    pub chunks: Vec<ExtractedChunk>,
}

/// A chunk that is offered for drawing.
pub struct ChunkSource<'a> {
    pub is_visible: bool,
    pub data: &'a ChunkData,
    pub depth: i32,
}

impl<'a> ChunkSource<'a> {
    /// Whether the chunk is drawn: it is visible and shows something.
    pub open spec fn wanted(&self) -> bool {
        self.is_visible && !self.data.all_empty()
    }
}

/// The places of the chunks that are drawn, in growing order.
pub open spec fn kept(sources: Seq<ChunkSource>) -> Seq<int>
    decreases sources.len(),
{
    if sources.len() == 0 {
        Seq::empty()
    } else if sources.last().wanted() {
        kept(sources.drop_last()).push(sources.len() - 1)
    } else {
        kept(sources.drop_last())
    }
}

/// Every place that `kept` lists is a place of `sources`, and the places grow.
pub proof fn lemma_kept_in_range(sources: Seq<ChunkSource>)
    ensures
        forall|j: int|
            0 <= j < kept(sources).len() ==> 0 <= #[trigger] kept(sources)[j] < sources.len(),
        forall|i: int, j: int|
            0 <= i < j < kept(sources).len() ==> kept(sources)[i] < kept(sources)[j],
        forall|j: int|
            0 <= j < kept(sources).len() ==> sources[#[trigger] kept(sources)[j]].wanted(),
        forall|k: int|
            0 <= k < sources.len() && (#[trigger] sources[k]).wanted() ==> kept(sources).contains(k),
    decreases sources.len(),
{
    if sources.len() > 0 {
        let rest = sources.drop_last();
        lemma_kept_in_range(rest);
        assert forall|j: int| 0 <= j < kept(sources).len() implies 0 <= #[trigger] kept(sources)[j]
            < sources.len() by {
            if j < kept(rest).len() {
                assert(kept(sources)[j] == kept(rest)[j]);
            }
        }
        assert forall|i: int, j: int| 0 <= i < j < kept(sources).len() implies kept(sources)[i]
            < kept(sources)[j] by {
            assert(kept(sources)[i] == kept(rest)[i]);
            if j < kept(rest).len() {
                assert(kept(sources)[j] == kept(rest)[j]);
            }
        }
        assert forall|j: int| 0 <= j < kept(sources).len() implies sources[#[trigger] kept(
            sources,
        )[j]].wanted() by {
            if j < kept(rest).len() {
                assert(kept(sources)[j] == kept(rest)[j]);
                assert(sources[kept(rest)[j]] == rest[kept(rest)[j]]);
            }
        }
        assert forall|k: int| 0 <= k < sources.len() && (#[trigger] sources[k]).wanted() implies kept(
            sources,
        ).contains(k) by {
            if k < rest.len() {
                assert(rest[k].wanted());
                let j = choose|j: int| 0 <= j < kept(rest).len() && kept(rest)[j] == k;
                assert(kept(sources)[j] == k);
            } else {
                assert(kept(sources)[kept(rest).len() as int] == k);
            }
        }
    }
}

/// Whether `chunk` is what is extracted from the source at place `index`.
pub open spec fn extract_of(chunk: ExtractedChunk, source: ChunkSource, index: int) -> bool {
    &&& chunk.index == index
    &&& chunk.data@ == source.data.tiles@
    &&& chunk.chunk_size == source.data.chunk_size
    &&& chunk.tile_size == source.data.tile_size
    &&& chunk.tile_sheet_handle == source.data.tile_sheet
    &&& chunk.depth == source.depth
}

pub(crate) fn copy_of(tiles: &Vec<Tile>) -> (copy: Vec<Tile>)
    ensures
        copy@ == tiles@,
{
    let mut copy: Vec<Tile> = Vec::new();
    let mut i: usize = 0;
    while i < tiles.len()
        invariant
            i <= tiles.len(),
            copy@ == tiles@.take(i as int),
        decreases tiles.len() - i,
    {
        copy.push(tiles[i]);
        i += 1;
        assert(copy@ =~= tiles@.take(i as int));
    }
    assert(tiles@.take(i as int) == tiles@);
    copy
}

/// Collects the chunks to draw: those that are visible and show something, in the order
/// in which they are offered, each with its place among all that were offered.
pub fn extract_chunks(sources: &Vec<ChunkSource<'_>>) -> (extracted: ExtractedChunks)
    ensures
        extracted.chunks@.len() == kept(sources@).len(),
        forall|j: int|
            0 <= j < extracted.chunks@.len() ==> extract_of(
                #[trigger] extracted.chunks@[j],
                sources@[kept(sources@)[j]],
                kept(sources@)[j],
            ),
{
    let mut chunks: Vec<ExtractedChunk> = Vec::new();
    let mut index: usize = 0;
    while index < sources.len()
        invariant
            index <= sources.len(),
            chunks@.len() == kept(sources@.take(index as int)).len(),
            forall|j: int|
                0 <= j < chunks@.len() ==> extract_of(
                    #[trigger] chunks@[j],
                    sources@[kept(sources@.take(index as int))[j]],
                    kept(sources@.take(index as int))[j],
                ),
        decreases sources.len() - index,
    {
        let source = &sources[index];
        let ghost before = chunks@;
        let ghost prev = kept(sources@.take(index as int));
        let ghost next = kept(sources@.take(index + 1));
        proof {
            assert(sources@.take(index + 1).drop_last() =~= sources@.take(index as int));
            assert(sources@.take(index + 1).last() == sources@[index as int]);
            assert(next == (if source.wanted() {
                prev.push(index as int)
            } else {
                prev
            }));
        }
        if source.is_visible && !source.data.is_empty() {
            chunks.push(
                ExtractedChunk {
                    index,
                    data: copy_of(source.data.tiles()),
                    chunk_size: source.data.chunk_size(),
                    tile_size: source.data.tile_size(),
                    tile_sheet_handle: source.data.tile_sheet(),
                    depth: source.depth,
                },
            );
        }
        proof {
            assert forall|j: int| 0 <= j < chunks@.len() implies extract_of(
                #[trigger] chunks@[j],
                sources@[next[j]],
                next[j],
            ) by {
                if j < before.len() {
                    assert(chunks@[j] == before[j]);
                    assert(next[j] == prev[j]);
                }
            }
        }
        index += 1;
        assert(kept(sources@.take(index as int)) == next);
    }
    proof {
        assert(sources@.take(index as int) =~= sources@);
        assert(kept(sources@.take(index as int)) == kept(sources@));
    }
    ExtractedChunks { chunks }
}

/// The key by which chunks are put in drawing order: the depth, and among chunks of one
/// depth the place in the extraction.
pub open spec fn draw_key(chunk: ExtractedChunk) -> (i32, usize) {
    (chunk.depth, chunk.index)
}

/// The order of draw keys: by depth, then by place.
pub open spec fn key_le(a: (i32, usize), b: (i32, usize)) -> bool {
    a.0 < b.0 || (a.0 == b.0 && a.1 <= b.1)
}

/// Whether the chunks stand in drawing order: no chunk before one with a smaller key.
pub open spec fn in_draw_order(chunks: Seq<ExtractedChunk>) -> bool {
    forall|i: int, j: int|
        0 <= i < j < chunks.len() ==> key_le(draw_key(chunks[i]), draw_key(chunks[j]))
}

/// The chunks that have the given draw key, in the order in which they stand.
pub open spec fn with_key(chunks: Seq<ExtractedChunk>, key: (i32, usize)) -> Seq<ExtractedChunk> {
    chunks.filter(|c: ExtractedChunk| draw_key(c) == key)
}

impl ExtractedChunk {
    /// The key by which chunks are put in drawing order.
    pub fn sort_key(&self) -> (key: (i32, usize))
        ensures
            key == draw_key(*self),
    {
        (self.depth, self.index)
    }
}

/// `slice::sort_by_key` with the draw key: the chunks are rearranged, none lost and none
/// added, so that they stand in drawing order, and chunks with equal keys keep the order
/// they had among themselves.
#[verifier::external_body]
fn sort_by_draw_key(chunks: &mut Vec<ExtractedChunk>)
    ensures
        in_draw_order(final(chunks)@),
        final(chunks)@.to_multiset() == old(chunks)@.to_multiset(),
        forall|key: (i32, usize)| #[trigger] with_key(final(chunks)@, key) == with_key(old(chunks)@, key),
{
    chunks.sort_by_key(|chunk| chunk.sort_key());
}

/// The numbers sent to the renderer for the cells of a chunk: for each cell the image
/// number of its sprite, or -1 where the cell shows no sprite.
pub open spec fn tile_indices(tiles: Seq<Tile>) -> Seq<i32> {
    Seq::new(tiles.len(), |i: int| tiles[i].sheet_index() as i32)
}

/// The numbers sent to the renderer for the cells of a chunk.
pub fn pack_tile_indices(tiles: &Vec<Tile>) -> (indices: Vec<i32>)
    ensures
        indices@ == tile_indices(tiles@),
{
    let mut indices: Vec<i32> = Vec::new();
    let mut i: usize = 0;
    while i < tiles.len()
        invariant
            i <= tiles.len(),
            indices@ == tile_indices(tiles@.take(i as int)),
        decreases tiles.len() - i,
    {
        let number: i32 = match tiles[i].index() {
            Some(idx) => idx as i32,
            None => -1,
        };
        indices.push(number);
        i += 1;
        assert(indices@ =~= tile_indices(tiles@.take(i as int)));
    }
    assert(tiles@.take(i as int) == tiles@);
    indices
}

/// Puts the extracted chunks in drawing order and packs, for each of them in that order,
/// the numbers of its tiles.
pub fn prepare_tiles(extracted: &mut ExtractedChunks) -> (buffers: Vec<Vec<i32>>)
    ensures
        in_draw_order(final(extracted).chunks@),
        final(extracted).chunks@.to_multiset() == old(extracted).chunks@.to_multiset(),
        forall|key: (i32, usize)| #[trigger]
            with_key(final(extracted).chunks@, key) == with_key(old(extracted).chunks@, key),
        buffers@.len() == final(extracted).chunks@.len(),
        forall|j: int|
            0 <= j < buffers@.len() ==> (#[trigger] buffers@[j])@ == tile_indices(
                final(extracted).chunks@[j].data@,
            ),
{
    sort_by_draw_key(&mut extracted.chunks);
    let mut buffers: Vec<Vec<i32>> = Vec::new();
    let mut j: usize = 0;
    while j < extracted.chunks.len()
        invariant
            j <= extracted.chunks.len(),
            buffers@.len() == j,
            forall|k: int|
                0 <= k < j ==> (#[trigger] buffers@[k])@ == tile_indices(
                    extracted.chunks@[k].data@,
                ),
        decreases extracted.chunks.len() - j,
    {
        buffers.push(pack_tile_indices(&extracted.chunks[j].data));
        j += 1;
    }
    buffers
}

/// The corners of a quad in the order in which its two triangles name them.
pub open spec fn quad_corner(k: int) -> int {
    if k == 0 {
        0
    } else if k == 1 {
        3
    } else if k == 2 {
        1
    } else if k == 3 {
        0
    } else if k == 4 {
        2
    } else {
        3
    }
}

/// The most cells a chunk may have for its index buffer to be built: four times the number
/// of a cell has to fit in 32 bits.
pub const MAX_INDEXED_CELLS: u32 = 0x4000_0000;

/// The index buffer shared by all chunks of one size: for each cell the six corners of its
/// two triangles. Cell `t` owns the vertices `4 * t` to `4 * t + 3`; a vertex number is kept
/// in 16 bits, so of `4 * t` only the remainder by 65536 is used.
pub fn chunk_indices(chunk_size: UVec2) -> (indices: Vec<u16>)
    requires
        chunk_size.x * chunk_size.y <= MAX_INDEXED_CELLS,
    ensures
        indices@.len() == 6 * (chunk_size.x * chunk_size.y),
        forall|t: int, k: int|
            0 <= t < chunk_size.x * chunk_size.y && 0 <= k < 6 ==> #[trigger] indices@[6 * t + k]
                == quad_corner(k) + (4 * t) % 0x1_0000,
{
    let cells: u32 = chunk_size.x * chunk_size.y;
    let mut indices: Vec<u16> = Vec::new();
    let mut tile_idx: u32 = 0;
    while tile_idx < cells
        invariant
            tile_idx <= cells,
            cells <= MAX_INDEXED_CELLS,
            indices@.len() == 6 * tile_idx,
            forall|t: int, k: int|
                0 <= t < tile_idx && 0 <= k < 6 ==> #[trigger] indices@[6 * t + k] == quad_corner(
                    k,
                ) + (4 * t) % 0x1_0000,
        decreases cells - tile_idx,
    {
        let base: u16 = ((4 * tile_idx) % 0x1_0000) as u16;
        assert(base <= 0xfffc) by {
            assert((4 * tile_idx) % 0x1_0000 <= 0xfffc) by (bit_vector)
                requires
                    tile_idx <= 0x4000_0000u32,
            ;
        }
        let ghost before = indices@;
        indices.push(base);
        indices.push(3 + base);
        indices.push(1 + base);
        indices.push(base);
        indices.push(2 + base);
        indices.push(3 + base);
        proof {
            assert forall|t: int, k: int| 0 <= t < tile_idx + 1 && 0 <= k < 6 implies #[trigger] indices@[6
                * t + k] == quad_corner(k) + (4 * t) % 0x1_0000 by {
                if t < tile_idx {
                    assert(indices@[6 * t + k] == before[6 * t + k]);
                }
            }
        }
        tile_idx += 1;
    }
    indices
}

/// The number of indices drawn for a chunk: six for each of its cells.
pub fn index_count(chunk_size: UVec2) -> (count: u32)
    requires
        chunk_size.x * chunk_size.y * 6 <= u32::MAX,
    ensures
        count == chunk_size.x * chunk_size.y * 6,
{
    assert(chunk_size.x * chunk_size.y <= chunk_size.x * chunk_size.y * 6) by (nonlinear_arith);
    chunk_size.x * chunk_size.y * 6
}

} // verus!
