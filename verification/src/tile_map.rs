//! The grid store: layers of tiles addressed by `(x, y, layer)`, and the set of chunks whose
//! tiles changed since they were last copied out.

use crate::chunk::ChunkCoord;
use crate::hash::{
    coord_set_contains, coord_set_contents, coord_set_drain, coord_set_insert,
    coord_set_is_empty, coord_set_new, tile_kind_map_entries, tile_kind_map_eq, CoordSet,
    TileKindMap,
};
use crate::math::{ceil_div, div_ceil, lemma_ceil_div_bound, UVec2, UVec3};
use vstd::prelude::*;

verus! {

/// A colour with eight bits per channel.
#[derive(Clone, Copy, Debug, PartialEq, Eq, Structural)]
pub struct Color {
    pub r: u8,
    pub g: u8,
    pub b: u8,
    pub a: u8,
}

/// Where a tile's image sits inside its cell. Each field holds the bit pattern of a
/// single-precision number; the grid carries the values and never computes with them.
#[derive(Clone, Copy, Debug, PartialEq, Eq, Structural)]
pub struct TileTransform {
    pub angle: u32,
    pub translation_x: u32,
    pub translation_y: u32,
    pub scale_x: u32,
    pub scale_y: u32,
}

/// The bit pattern of the single-precision number one.
pub const ONE_BITS: u32 = 0x3f80_0000;

impl TileTransform {
    /// No rotation, no offset, scale one.
    pub open spec fn identity() -> TileTransform {
        TileTransform { angle: 0, translation_x: 0, translation_y: 0, scale_x: ONE_BITS, scale_y: ONE_BITS }
    }
}

impl Default for TileTransform {
    fn default() -> (t: TileTransform)
        ensures
            t == TileTransform::identity(),
    {
        TileTransform { angle: 0, translation_x: 0, translation_y: 0, scale_x: ONE_BITS, scale_y: ONE_BITS }
    }
}

/// What a cell shows.
#[derive(Clone, Copy, Debug, PartialEq, Eq, Structural)]
pub enum TileKind {
    /// A flat colour.
    Color { color: Color, transform: TileTransform },
    /// Image number `idx` of the tile sheet, tinted by `mask_color`.
    Sprite { idx: u16, transform: TileTransform, mask_color: Color },
}

/// One cell of the grid.
#[derive(Clone, Copy, Debug, PartialEq, Eq, Structural)]
pub struct Tile {
    /// The entity that placed the tile, if one did.
    pub entity: Option<u64>,
    /// What the cell shows; `None` for an empty cell.
    pub kind: Option<TileKind>,
    pub pickable: bool,
}

impl Tile {
    /// The empty cell: nothing shown, no owner, not pickable.
    pub open spec fn empty() -> Tile {
        Tile { entity: None, kind: None, pickable: false }
    }

    /// The number sent to the renderer for this cell: the sprite's image number, or -1 for a
    /// cell that shows no sprite.
    pub open spec fn sheet_index(self) -> int {
        match self.kind {
            Some(TileKind::Sprite { idx, .. }) => idx as int,
            _ => -1,
        }
    }

    pub fn is_empty(&self) -> (b: bool)
        ensures
            b == (self.kind is None),
    {
        self.kind.is_none()
    }

    /// The image number of a sprite tile.
    pub fn index(&self) -> (i: Option<u16>)
        ensures
            i == (match self.kind {
                Some(TileKind::Sprite { idx, .. }) => Some(idx),
                _ => None,
            }),
    {
        match self.kind {
            Some(TileKind::Sprite { idx, .. }) => Some(idx),
            _ => None,
        }
    }
}

impl Default for Tile {
    fn default() -> (t: Tile)
        ensures
            t == Tile::empty(),
    {
        Tile { entity: None, kind: None, pickable: false }
    }
}

/// A layer of `n` empty cells.
pub open spec fn empty_layer(n: nat) -> Seq<Tile> {
    Seq::new(n, |i: int| Tile::empty())
}

pub(crate) fn new_empty_layer(n: usize) -> (layer: Vec<Tile>)
    ensures
        layer@ == empty_layer(n as nat),
{
    let mut layer: Vec<Tile> = Vec::new();
    let mut i: usize = 0;
    while i < n
        invariant
            i <= n,
            layer@ == empty_layer(i as nat),
        decreases n - i,
    {
        layer.push(Tile::default());
        i += 1;
    }
    layer
}

/// `y * w + x < w * h` for a cell inside a `w` by `h` grid.
pub proof fn lemma_cell_index(x: int, y: int, w: int, h: int)
    requires
        0 <= x < w,
        0 <= y < h,
    ensures
        0 <= y * w + x < w * h,
        y * w + x >= y * w >= 0,
{
    assert(0 <= y * w + x < w * h && y * w >= 0) by (nonlinear_arith)
        requires
            0 <= x < w,
            0 <= y < h,
    {
        assert((y + 1) * w <= h * w);
    }
}

/// The chunk of a cell starts at or before the cell: `(x / c) * c <= x`.
pub proof fn lemma_chunk_start(x: int, c: int)
    requires
        0 <= x,
        0 < c,
    ensures
        0 <= (x / c) * c <= x,
        x < (x / c) * c + c,
{
    assert(0 <= (x / c) * c <= x < (x / c) * c + c) by (nonlinear_arith)
        requires
            0 <= x,
            0 < c,
    {
        assert(x == c * (x / c) + x % c);
        assert(0 <= x % c < c);
    }
}

/// A grid of tiles in layers, cut into chunks, with the set of chunks that changed.
pub struct TileMap {
    /// The cells of each layer, row after row.
    pub tiles: Vec<Vec<Tile>>,
    /// Width and height in cells, and the number of layers.
    pub size: UVec3,
    /// Width and height of a chunk in cells.
    pub chunk_size: UVec2,
    /// Width and height of a cell in pixels.
    pub tile_size: UVec2,
    /// The chunks whose cells changed since they were last copied out.
    pub dirty_chunks: CoordSet,
    /// The handle of the tile sheet that the map draws from.
    pub tile_sheet: u64,
}

impl TileMap {
    /// The cells of each layer, row after row.
    pub open spec fn layers(&self) -> Seq<Seq<Tile>> {
        Seq::new(self.tiles@.len(), |z: int| self.tiles@[z]@)
    }

    /// The chunks marked as changed.
    pub closed spec fn dirty(&self) -> Set<ChunkCoord> {
        Set::new(|c: ChunkCoord| coord_set_contents(self.dirty_chunks).contains(c.key()))
    }

    /// Whether `coord` names a cell of the map.
    pub open spec fn in_bounds(&self, coord: UVec3) -> bool {
        coord.x < self.size.x && coord.y < self.size.y && coord.z < self.size.z
    }

    /// The place of cell `(x, y)` in its layer.
    pub open spec fn cell_index(&self, x: int, y: int) -> int {
        y * self.size.x + x
    }

    /// The tile at a cell of the map.
    pub open spec fn tile(&self, coord: UVec3) -> Tile
        recommends
            self.in_bounds(coord),
    {
        self.layers()[coord.z as int][self.cell_index(coord.x as int, coord.y as int)]
    }

    /// The chunk that a cell belongs to.
    pub open spec fn chunk_of(&self, coord: UVec3) -> ChunkCoord {
        ChunkCoord(
            UVec3 { x: coord.x / self.chunk_size.x, y: coord.y / self.chunk_size.y, z: coord.z },
        )
    }

    /// Whether `chunk` is an address of the map: its first cell lies inside the grid.
    pub open spec fn is_chunk(&self, chunk: ChunkCoord) -> bool {
        &&& chunk.0.x * self.chunk_size.x < self.size.x
        &&& chunk.0.y * self.chunk_size.y < self.size.y
        &&& chunk.0.z < self.size.z
    }

    /// The number of chunk addresses of the map: the chunks needed to cover the width, times
    /// those needed to cover the height, times the layers.
    pub open spec fn chunk_count(&self) -> int {
        ceil_div(self.size.x as int, self.chunk_size.x as int) * ceil_div(
            self.size.y as int,
            self.chunk_size.y as int,
        ) * self.size.z
    }

    /// Every chunk address of the map.
    pub open spec fn all_chunks(&self) -> Set<ChunkCoord> {
        Set::new(|c: ChunkCoord| self.is_chunk(c))
    }

    /// The shape of the grid: chunks have at least one cell each way, the cells of a layer
    /// and of a chunk can be counted in 32 bits, and there are `size.z` layers of
    /// `width * height` cells each.
    pub open spec fn shaped(&self) -> bool {
        &&& self.chunk_size.x >= 1
        &&& self.chunk_size.y >= 1
        &&& self.size.x * self.size.y <= u32::MAX
        &&& self.chunk_size.x * self.chunk_size.y <= u32::MAX
        &&& self.layers().len() == self.size.z
        &&& forall|z: int|
            0 <= z < self.layers().len() ==> (#[trigger] self.layers()[z]).len() == self.size.x
                * self.size.y
    }

    /// What every operation keeps: the grid has its shape, and only chunks of the map are
    /// marked.
    pub open spec fn wf(&self) -> bool {
        &&& self.shaped()
        &&& forall|c: ChunkCoord| #[trigger] self.dirty().contains(c) ==> self.is_chunk(c)
    }

    /// Whether two maps hold the same cells, sizes and sheet; the marked chunks may differ.
    pub open spec fn same_grid(&self, other: TileMap) -> bool {
        &&& self.layers() == other.layers()
        &&& self.size == other.size
        &&& self.chunk_size == other.chunk_size
        &&& self.tile_size == other.tile_size
        &&& self.tile_sheet == other.tile_sheet
    }

    /// The chunk of a cell of the map is a chunk of the map.
    pub proof fn lemma_chunk_of_in_bounds(&self, coord: UVec3)
        requires
            self.chunk_size.x >= 1,
            self.chunk_size.y >= 1,
            self.in_bounds(coord),
        ensures
            self.is_chunk(self.chunk_of(coord)),
    {
        lemma_chunk_start(coord.x as int, self.chunk_size.x as int);
        lemma_chunk_start(coord.y as int, self.chunk_size.y as int);
    }

    /// A map of one layer of empty cells, with no chunk marked.
    pub fn new(size: UVec2, chunk_size: UVec2, tile_size: UVec2, tile_sheet: u64) -> (map: TileMap)
        requires
            chunk_size.x >= 1,
            chunk_size.y >= 1,
            size.x * size.y <= u32::MAX,
            chunk_size.x * chunk_size.y <= u32::MAX,
        ensures
            map.wf(),
            map.size == (UVec3 { x: size.x, y: size.y, z: 1 }),
            map.chunk_size == chunk_size,
            map.tile_size == tile_size,
            map.tile_sheet == tile_sheet,
            map.layers() == seq![empty_layer((size.x * size.y) as nat)],
            map.dirty() == Set::<ChunkCoord>::empty(),
    {
        let layer = new_empty_layer((size.x * size.y) as usize);
        let mut tiles: Vec<Vec<Tile>> = Vec::new();
        tiles.push(layer);
        let map = TileMap {
            tiles,
            size: size.extend(1),
            chunk_size,
            tile_size,
            dirty_chunks: coord_set_new(),
            tile_sheet,
        };
        assert(map.layers() =~= seq![empty_layer((size.x * size.y) as nat)]);
        assert(map.dirty() =~= Set::<ChunkCoord>::empty());
        map
    }

    /// Whether the grid has its shape. The sizes are open to writing; a caller that wrote
    /// them asks here before it goes on.
    pub fn is_shaped(&self) -> (b: bool)
        ensures
            b == self.shaped(),
    {
        if self.chunk_size.x < 1 || self.chunk_size.y < 1 {
            return false;
        }
        assert(self.size.x * self.size.y <= u64::MAX && self.chunk_size.x * self.chunk_size.y
            <= u64::MAX) by (nonlinear_arith)
            requires
                self.size.x <= u32::MAX,
                self.size.y <= u32::MAX,
                self.chunk_size.x <= u32::MAX,
                self.chunk_size.y <= u32::MAX,
        ;
        let cells: u64 = self.size.x as u64 * self.size.y as u64;
        let chunk_cells: u64 = self.chunk_size.x as u64 * self.chunk_size.y as u64;
        if cells > u32::MAX as u64 || chunk_cells > u32::MAX as u64 {
            return false;
        }
        if self.tiles.len() as u64 != self.size.z as u64 {
            return false;
        }
        let mut z: usize = 0;
        while z < self.tiles.len()
            invariant
                z <= self.tiles.len(),
                cells == self.size.x * self.size.y,
                forall|k: int|
                    0 <= k < z ==> (#[trigger] self.layers()[k]).len() == self.size.x * self.size.y,
            decreases self.tiles.len() - z,
        {
            if self.tiles[z].len() as u64 != cells {
                assert(self.layers()[z as int].len() != self.size.x * self.size.y);
                return false;
            }
            assert(self.layers()[z as int] == self.tiles@[z as int]@);
            z += 1;
        }
        true
    }

    #[inline]
    pub fn size(&self) -> (s: UVec3)
        ensures
            s == self.size,
    {
        self.size
    }

    /// The place of cell `(x, y)` in its layer.
    #[inline]
    pub fn coord_to_tile_idx(&self, index: UVec2) -> (i: usize)
        requires
            self.size.x * self.size.y <= u32::MAX,
            index.x < self.size.x,
            index.y < self.size.y,
        ensures
            i == self.cell_index(index.x as int, index.y as int),
            i < self.size.x * self.size.y,
    {
        proof {
            lemma_cell_index(index.x as int, index.y as int, self.size.x as int, self.size.y as int);
        }
        (index.y * self.size.x + index.x) as usize
    }

    /// The chunk that a cell belongs to.
    #[inline]
    pub fn coord_to_chunk_coord(&self, coord: UVec3) -> (chunk: ChunkCoord)
        requires
            self.chunk_size.x >= 1,
            self.chunk_size.y >= 1,
        ensures
            chunk == self.chunk_of(coord),
    {
        ChunkCoord(
            UVec3 { x: coord.x / self.chunk_size.x, y: coord.y / self.chunk_size.y, z: coord.z },
        )
    }

    /// The tile at `coord`, or `None` where `coord` names no cell of the map.
    pub fn get(&self, coord: UVec3) -> (tile: Option<&Tile>)
        requires
            self.wf(),
        ensures
            self.in_bounds(coord) ==> tile == Some(&self.tile(coord)),
            !self.in_bounds(coord) ==> tile is None,
    {
        if coord.x < self.size.x && coord.y < self.size.y && coord.z < self.size.z {
            let index = self.coord_to_tile_idx(coord.truncate());
            assert(self.layers()[coord.z as int] == self.tiles@[coord.z as int]@);
            let layer = &self.tiles[coord.z as usize];
            Some(&layer[index])
        } else {
            None
        }
    }

    /// Whether `chunk` is marked as changed.
    pub fn is_chunk_dirty(&self, chunk: ChunkCoord) -> (b: bool)
        ensures
            b == self.dirty().contains(chunk),
    {
        coord_set_contains(&self.dirty_chunks, chunk.to_key())
    }

    /// Whether any chunk is marked as changed.
    pub fn has_dirty_chunks(&self) -> (b: bool)
        ensures
            b == (self.dirty() != Set::<ChunkCoord>::empty()),
    {
        let empty = coord_set_is_empty(&self.dirty_chunks);
        proof {
            let keys = coord_set_contents(self.dirty_chunks);
            if empty {
                assert(self.dirty() =~= Set::<ChunkCoord>::empty());
            } else {
                assert(!(keys =~= Set::<(u32, u32, u32)>::empty()));
                let k = choose|k: (u32, u32, u32)| keys.contains(k);
                assert(ChunkCoord::from_key(k).key() == k);
                assert(self.dirty().contains(ChunkCoord::from_key(k)));
            }
        }
        !empty
    }

    /// Marks the chunk of the cell `coord` as changed. Marking a marked chunk changes nothing.
    #[inline]
    pub fn mark_chunk_dirty(&mut self, coord: UVec3)
        requires
            old(self).wf(),
            old(self).in_bounds(coord),
        ensures
            final(self).wf(),
            final(self).same_grid(*old(self)),
            final(self).dirty() == old(self).dirty().insert(old(self).chunk_of(coord)),
    {
        let chunk = self.coord_to_chunk_coord(coord);
        proof {
            self.lemma_chunk_of_in_bounds(coord);
        }
        coord_set_insert(&mut self.dirty_chunks, chunk.to_key());
        assert(self.dirty() =~= old(self).dirty().insert(chunk)) by {
            assert forall|c: ChunkCoord| c.key() == chunk.key() implies c == chunk by {}
        }
        assert(self.layers() == old(self).layers());
    }

    /// Every chunk address of the map: column by column, within a column row by row, within
    /// a row layer by layer.
    pub fn chunks(&self) -> (list: Vec<ChunkCoord>)
        requires
            self.chunk_size.x >= 1,
            self.chunk_size.y >= 1,
        ensures
            forall|c: ChunkCoord| list@.contains(c) <==> self.is_chunk(c),
            forall|i: int, j: int| 0 <= i < j < list@.len() ==> precedes(list@[i], list@[j]),
            list@.no_duplicates(),
            list@.len() == self.chunk_count(),
    {
        let nx = div_ceil(self.size.x, self.chunk_size.x);
        let ny = div_ceil(self.size.y, self.chunk_size.y);
        let nz = self.size.z;
        let mut list: Vec<ChunkCoord> = Vec::new();
        proof {
            assert forall|c: ChunkCoord|
                self.is_chunk(c) <==> (c.0.x < nx && c.0.y < ny && c.0.z < nz) by {
                lemma_ceil_div_bound(self.size.x as int, self.chunk_size.x as int, c.0.x as int);
                lemma_ceil_div_bound(self.size.y as int, self.chunk_size.y as int, c.0.y as int);
            }
        }
        if nx == 0 || ny == 0 || nz == 0 {
            assert(nx * ny * nz == 0) by (nonlinear_arith)
                requires
                    nx == 0 || ny == 0 || nz == 0,
            ;
            return list;
        }
        let mut x: u32 = 0;
        let mut y: u32 = 0;
        let mut z: u32 = 0;
        assert((0 * ny + 0) * nz + 0 == 0) by (nonlinear_arith);
        while x < nx
            invariant
                nx > 0,
                ny > 0,
                nz > 0,
                x <= nx,
                x < nx ==> y < ny && z < nz,
                x == nx ==> y == 0 && z == 0,
                list@.len() == (x * ny + y) * nz + z,
                forall|c: ChunkCoord|
                    self.is_chunk(c) <==> (c.0.x < nx && c.0.y < ny && c.0.z < nz),
                forall|c: ChunkCoord| #[trigger]
                    list@.contains(c) ==> self.is_chunk(c) && precedes(
                        c,
                        ChunkCoord(UVec3 { x, y, z }),
                    ),
                forall|c: ChunkCoord|
                    #[trigger] self.is_chunk(c) && precedes(c, ChunkCoord(UVec3 { x, y, z }))
                        ==> list@.contains(c),
                forall|i: int, j: int| 0 <= i < j < list@.len() ==> precedes(list@[i], list@[j]),
            decreases nx - x, ny - y, nz - z,
        {
            let ghost before = list@;
            let cur = ChunkCoord(UVec3 { x, y, z });
            list.push(cur);
            proof {
                let row = x * ny + y;
                assert((row + 1) * nz == row * nz + nz) by (nonlinear_arith);
                assert((x + 1) * ny == x * ny + ny) by (nonlinear_arith);
            }
            z += 1;
            if z == nz {
                z = 0;
                y += 1;
                if y == ny {
                    y = 0;
                    x += 1;
                }
            }
            proof {
                let next = ChunkCoord(UVec3 { x, y, z });
                assert(list@ == before.push(cur));
                assert(self.is_chunk(cur));
                assert(precedes(cur, next));
                assert forall|c: ChunkCoord| list@.contains(c) implies self.is_chunk(c)
                    && precedes(c, next) by {
                    let i = choose|i: int| 0 <= i < list@.len() && list@[i] == c;
                    if i < before.len() {
                        assert(before[i] == c);
                        assert(before.contains(c));
                        assert(precedes(c, cur));
                    } else {
                        assert(c == cur);
                    }
                }
                assert forall|c: ChunkCoord| self.is_chunk(c) && precedes(c, next) implies list@.contains(
                    c,
                ) by {
                    assert(c.0.x < nx && c.0.y < ny && c.0.z < nz);
                    if precedes(c, cur) {
                        assert(before.contains(c));
                        let i = choose|i: int| 0 <= i < before.len() && before[i] == c;
                        assert(list@[i] == c);
                    } else {
                        assert(c.0 == cur.0);
                        assert(c == cur);
                        assert(list@[before.len() as int] == c);
                    }
                }
                assert forall|i: int, j: int| 0 <= i < j < list@.len() implies precedes(
                    list@[i],
                    list@[j],
                ) by {
                    assert(list@[i] == before[i]);
                    if j == before.len() {
                        assert(before.contains(before[i]));
                        assert(precedes(before[i], cur));
                        assert(list@[j] == cur);
                    } else {
                        assert(list@[j] == before[j]);
                    }
                }
            }
        }
        proof {
            assert forall|i: int, j: int| 0 <= i < j < list@.len() implies list@[i] != list@[j] by {
                assert(precedes(list@[i], list@[j]));
            }
        }
        list
    }

    /// A map with one layer more has as many chunk addresses more as one layer has: the
    /// count grows in the proportion of the layers.
    pub proof fn lemma_chunk_count_add_layer(&self, after: TileMap)
        requires
            after.size == (UVec3 { z: (self.size.z + 1) as u32, ..self.size }),
            self.size.z < u32::MAX,
            after.chunk_size == self.chunk_size,
        ensures
            after.chunk_count() * self.size.z == self.chunk_count() * (self.size.z + 1),
            after.chunk_count() == self.chunk_count() + ceil_div(
                self.size.x as int,
                self.chunk_size.x as int,
            ) * ceil_div(self.size.y as int, self.chunk_size.y as int),
    {
        let per_layer = ceil_div(self.size.x as int, self.chunk_size.x as int) * ceil_div(
            self.size.y as int,
            self.chunk_size.y as int,
        );
        let layers = self.size.z as int;
        assert(per_layer * (layers + 1) * layers == per_layer * layers * (layers + 1) && per_layer
            * (layers + 1) == per_layer * layers + per_layer) by (nonlinear_arith);
    }

    /// Marks every chunk of the map as changed.
    #[inline]
    pub fn mark_all_chunks_dirty(&mut self)
        requires
            old(self).wf(),
        ensures
            final(self).wf(),
            final(self).same_grid(*old(self)),
            final(self).dirty() == old(self).all_chunks(),
    {
        let list = self.chunks();
        let mut i: usize = 0;
        while i < list.len()
            invariant
                i <= list.len(),
                self.same_grid(*old(self)),
                self.tiles == old(self).tiles,
                forall|c: ChunkCoord| list@.contains(c) <==> old(self).is_chunk(c),
                forall|c: ChunkCoord|
                    self.dirty().contains(c) <==> (old(self).dirty().contains(c) || exists|j: int|
                        0 <= j < i && list@[j] == c),
            decreases list.len() - i,
        {
            let ghost before = self.dirty();
            let chunk = list[i];
            coord_set_insert(&mut self.dirty_chunks, chunk.to_key());
            proof {
                assert forall|c: ChunkCoord| c.key() == chunk.key() implies c == chunk by {}
                assert(self.dirty() =~= before.insert(chunk));
                assert forall|c: ChunkCoord|
                    self.dirty().contains(c) <==> (old(self).dirty().contains(c) || exists|j: int|
                        0 <= j < i + 1 && list@[j] == c) by {
                    if c == chunk {
                        assert(list@[i as int] == c);
                    }
                }
            }
            i += 1;
        }
        proof {
            assert forall|c: ChunkCoord| self.dirty().contains(c) <==> old(self).is_chunk(c) by {
                if old(self).is_chunk(c) {
                    assert(list@.contains(c));
                    let j = choose|j: int| 0 <= j < list@.len() && list@[j] == c;
                    assert(list@[j] == c);
                }
                if self.dirty().contains(c) && !old(self).dirty().contains(c) {
                    let j = choose|j: int| 0 <= j < i && list@[j] == c;
                    assert(list@.contains(list@[j]));
                }
            }
            assert(self.dirty() =~= old(self).all_chunks());
        }
    }

    /// Hands out the marked chunks, each once, and leaves none marked.
    pub fn take_dirty_chunks(&mut self) -> (list: Vec<ChunkCoord>)
        ensures
            final(self).same_grid(*old(self)),
            final(self).dirty() == Set::<ChunkCoord>::empty(),
            list@.no_duplicates(),
            forall|c: ChunkCoord| list@.contains(c) <==> old(self).dirty().contains(c),
    {
        let keys = coord_set_drain(&mut self.dirty_chunks);
        assert(self.dirty() =~= Set::<ChunkCoord>::empty());
        let mut list: Vec<ChunkCoord> = Vec::new();
        let mut i: usize = 0;
        while i < keys.len()
            invariant
                i <= keys.len(),
                list@.len() == i,
                forall|j: int| 0 <= j < i ==> (#[trigger] list@[j]).key() == keys@[j],
            decreases keys.len() - i,
        {
            list.push(ChunkCoord::of_key(keys[i]));
            i += 1;
        }
        proof {
            assert forall|a: int, b: int| 0 <= a < list@.len() && 0 <= b < list@.len() && a != b implies list@[a] != list@[b] by {
                assert(list@[a].key() == keys@[a]);
                assert(list@[b].key() == keys@[b]);
            }
            assert forall|c: ChunkCoord| list@.contains(c) <==> old(self).dirty().contains(c) by {
                if list@.contains(c) {
                    let j = choose|j: int| 0 <= j < list@.len() && list@[j] == c;
                    assert(list@[j].key() == keys@[j]);
                    assert(keys@.contains(keys@[j]));
                }
                if old(self).dirty().contains(c) {
                    assert(keys@.contains(c.key()));
                    let j = choose|j: int| 0 <= j < keys@.len() && keys@[j] == c.key();
                    assert(list@[j].key() == c.key());
                    assert(list@[j] == c);
                }
            }
        }
        list
    }

    /// Appends a layer of empty cells and marks every chunk of the map, those of the new
    /// layer among them. Returns the number of the new layer.
    pub fn add_empty_layer(&mut self) -> (layer: u32)
        requires
            old(self).wf(),
            old(self).size.z < u32::MAX,
        ensures
            final(self).wf(),
            layer == old(self).size.z,
            final(self).size == (UVec3 { z: (old(self).size.z + 1) as u32, ..old(self).size }),
            final(self).chunk_size == old(self).chunk_size,
            final(self).tile_size == old(self).tile_size,
            final(self).tile_sheet == old(self).tile_sheet,
            final(self).layers() == old(self).layers().push(
                empty_layer((old(self).size.x * old(self).size.y) as nat),
            ),
            final(self).dirty() == final(self).all_chunks(),
    {
        let cells = new_empty_layer((self.size.x * self.size.y) as usize);
        self.add_layer(cells)
    }

    /// Appends a layer that holds `tiles`, and marks every chunk of the map, those of the new
    /// layer among them. Returns the number of the new layer.
    pub fn add_layer(&mut self, tiles: Vec<Tile>) -> (layer: u32)
        requires
            old(self).wf(),
            old(self).size.z < u32::MAX,
            tiles@.len() == old(self).size.x * old(self).size.y,
        ensures
            final(self).wf(),
            layer == old(self).size.z,
            final(self).size == (UVec3 { z: (old(self).size.z + 1) as u32, ..old(self).size }),
            final(self).chunk_size == old(self).chunk_size,
            final(self).tile_size == old(self).tile_size,
            final(self).tile_sheet == old(self).tile_sheet,
            final(self).layers() == old(self).layers().push(tiles@),
            final(self).dirty() == final(self).all_chunks(),
    {
        let layer = self.size.z;
        self.tiles.push(tiles);
        self.size.z += 1;
        assert(self.layers() =~= old(self).layers().push(tiles@));
        assert(self.dirty() == old(self).dirty());
        self.mark_all_chunks_dirty();
        layer
    }

    /// The tile at `coord`, to be changed in place, or `None` where `coord` names no cell of
    /// the map. Where it hands out a tile it marks the tile's chunk as changed.
    pub fn get_mut(&mut self, coord: UVec3) -> (tile: Option<&mut Tile>)
        requires
            old(self).wf(),
        ensures
            !old(self).in_bounds(coord) ==> tile is None && *final(self) == *old(self),
            old(self).in_bounds(coord) ==> tile is Some && *tile->Some_0 == old(self).tile(coord)
                && old(self).written(*final(self), coord, *final(tile->Some_0))
                && final(self).dirty() == old(self).dirty().insert(old(self).chunk_of(coord)),
    {
        if coord.x < self.size.x && coord.y < self.size.y && coord.z < self.size.z {
            self.mark_chunk_dirty(coord);
            Some(self.get_mut_unchecked(coord))
        } else {
            None
        }
    }

    /// The tile at `coord`, to be changed in place. Marks no chunk: a caller that rewrites many
    /// cells marks the chunks itself, once, when it is done.
    pub fn get_mut_unchecked(&mut self, coord: UVec3) -> (tile: &mut Tile)
        requires
            old(self).wf(),
            old(self).in_bounds(coord),
        ensures
            *tile == old(self).tile(coord),
            old(self).written(*final(self), coord, *final(tile)),
            final(self).dirty() == old(self).dirty(),
    {
        let index = self.coord_to_tile_idx(coord.truncate());
        assert(self.layers()[coord.z as int] == self.tiles@[coord.z as int]@);
        let layer = &mut self.tiles[coord.z as usize];
        let tile = &mut layer[index];
        tile
    }

    /// The tile at `coord`.
    #[inline]
    pub fn index(&self, coord: UVec3) -> (tile: &Tile)
        requires
            self.wf(),
            self.in_bounds(coord),
        ensures
            *tile == self.tile(coord),
    {
        let index = self.coord_to_tile_idx(coord.truncate());
        assert(self.layers()[coord.z as int] == self.tiles@[coord.z as int]@);
        let layer = &self.tiles[coord.z as usize];
        &layer[index]
    }

    /// The tile at `coord`, to be changed in place; marks the tile's chunk as changed.
    #[inline]
    pub fn index_mut(&mut self, coord: UVec3) -> (tile: &mut Tile)
        requires
            old(self).wf(),
            old(self).in_bounds(coord),
        ensures
            *tile == old(self).tile(coord),
            old(self).written(*final(self), coord, *final(tile)),
            final(self).dirty() == old(self).dirty().insert(old(self).chunk_of(coord)),
    {
        self.mark_chunk_dirty(coord);
        self.get_mut_unchecked(coord)
    }

    /// Puts `tile` into the cell `coord` and marks the cell's chunk as changed.
    pub fn set_tile(&mut self, coord: UVec3, tile: Tile)
        requires
            old(self).wf(),
            old(self).in_bounds(coord),
        ensures
            final(self).wf(),
            final(self).size == old(self).size,
            final(self).chunk_size == old(self).chunk_size,
            final(self).tile_size == old(self).tile_size,
            final(self).tile_sheet == old(self).tile_sheet,
            final(self).tile(coord) == tile,
            forall|other: UVec3|
                old(self).in_bounds(other) && other != coord ==> #[trigger] final(self).tile(other)
                    == old(self).tile(other),
            final(self).dirty() == old(self).dirty().insert(old(self).chunk_of(coord)),
    {
        let cell = self.index_mut(coord);
        *cell = tile;
        proof {
            old(self).lemma_write_then_read(*self, coord, tile);
        }
    }

    /// Whether `after` is this map with the cell `coord` set to `tile`: no other cell, no size
    /// and no sheet differs. Nothing is said of the marked chunks.
    pub open spec fn written(&self, after: TileMap, coord: UVec3, tile: Tile) -> bool {
        &&& after.size == self.size
        &&& after.chunk_size == self.chunk_size
        &&& after.tile_size == self.tile_size
        &&& after.tile_sheet == self.tile_sheet
        &&& after.layers() =~= self.layers().update(
            coord.z as int,
            self.layers()[coord.z as int].update(
                self.cell_index(coord.x as int, coord.y as int),
                tile,
            ),
        )
    }

    /// A tile written to a cell of the map is the tile read back from that cell, every other
    /// cell reads as before, and the map keeps its shape once the cell's chunk is marked.
    pub proof fn lemma_write_then_read(&self, after: TileMap, coord: UVec3, tile: Tile)
        requires
            self.wf(),
            self.in_bounds(coord),
            self.written(after, coord, tile),
            after.dirty() == self.dirty().insert(self.chunk_of(coord)),
        ensures
            after.wf(),
            after.tile(coord) == tile,
            after.dirty().contains(after.chunk_of(coord)),
            forall|other: UVec3|
                self.in_bounds(other) && other != coord ==> after.tile(other) == self.tile(other),
    {
        let w = self.size.x as int;
        let h = self.size.y as int;
        lemma_cell_index(coord.x as int, coord.y as int, w, h);
        self.lemma_chunk_of_in_bounds(coord);
        assert forall|z: int| 0 <= z < after.layers().len() implies (#[trigger] after.layers()[z]).len()
            == after.size.x * after.size.y by {
            assert(self.layers()[z].len() == w * h);
        }
        assert forall|other: UVec3| self.in_bounds(other) && other != coord implies after.tile(
            other,
        ) == self.tile(other) by {
            lemma_cell_index(other.x as int, other.y as int, w, h);
            if other.z == coord.z {
                assert(self.cell_index(other.x as int, other.y as int) != self.cell_index(
                    coord.x as int,
                    coord.y as int,
                )) by (nonlinear_arith)
                    requires
                        0 <= other.x < w,
                        0 <= coord.x < w,
                        other.x != coord.x || other.y != coord.y,
                        self.cell_index(other.x as int, other.y as int) == other.y * w + other.x,
                        self.cell_index(coord.x as int, coord.y as int) == coord.y * w + coord.x,
                {
                    if other.y < coord.y {
                        assert((other.y + 1) * w <= coord.y * w);
                    } else if other.y > coord.y {
                        assert((coord.y + 1) * w <= other.y * w);
                    }
                }
            }
        }
    }
}

/// The order in which `TileMap::chunks` lists addresses: by column, then row, then layer.
pub open spec fn precedes(a: ChunkCoord, b: ChunkCoord) -> bool {
    a.0.x < b.0.x || (a.0.x == b.0.x && (a.0.y < b.0.y || (a.0.y == b.0.y && a.0.z < b.0.z)))
}

/// Tiles that an entity places on a map: a group of cells that moves as one.
pub struct AsTiles {
    /// The cell of the map that the group's offsets are counted from.
    pub coord: UVec3,
    /// What each cell of the group shows, by the cell's offset from `coord`.
    pub tiles: TileKindMap,
    /// The entity of the tile map that the tiles are placed on.
    pub tile_map_entity: u64,
}

/// The cell at `offset` from `origin`.
pub open spec fn shifted(origin: UVec3, offset: (u32, u32, u32)) -> UVec3 {
    UVec3 {
        x: (origin.x + offset.0) as u32,
        y: (origin.y + offset.1) as u32,
        z: (origin.z + offset.2) as u32,
    }
}

/// Whether the cell at `offset` from `origin` is a cell of `map`.
pub open spec fn lands_in(origin: UVec3, offset: (u32, u32, u32), map: TileMap) -> bool {
    origin.x + offset.0 < map.size.x && origin.y + offset.1 < map.size.y && origin.z + offset.2
        < map.size.z
}

/// The tile that a group's entity shows in a cell.
pub open spec fn placed_tile(entity: u64, kind: TileKind) -> Tile {
    Tile { entity: Some(entity), kind: Some(kind), pickable: true }
}

impl AsTiles {
    /// Whether every cell of the group is a cell of `map`.
    pub open spec fn fits(&self, map: TileMap) -> bool {
        forall|offset: (u32, u32, u32)| #[trigger]
            self.tiles@.contains_key(offset) ==> lands_in(self.coord, offset, map)
    }

    /// Whether the group has a tile for the cell `cell` of the map.
    pub open spec fn covers(&self, cell: UVec3) -> bool {
        exists|offset: (u32, u32, u32)| #[trigger]
            self.tiles@.contains_key(offset) && self.coord.x + offset.0 == cell.x && self.coord.y
                + offset.1 == cell.y && self.coord.z + offset.2 == cell.z
    }

    /// What the group shows in the cell `cell` of the map.
    pub open spec fn kind_at(&self, cell: UVec3) -> TileKind
        recommends
            self.covers(cell),
    {
        self.tiles@[((cell.x - self.coord.x) as u32, (cell.y - self.coord.y) as u32, (cell.z
            - self.coord.z) as u32)]
    }

    /// Whether two groups sit at the same cell of the same map and show the same tiles.
    pub open spec fn same_as(&self, other: AsTiles) -> bool {
        self.coord == other.coord && self.tile_map_entity == other.tile_map_entity && self.tiles@
            == other.tiles@
    }

    /// Whether every cell of the group is a cell of `map`.
    pub fn check_fits(&self, map: &TileMap) -> (b: bool)
        ensures
            b == self.fits(*map),
    {
        let entries = tile_kind_map_entries(&self.tiles);
        let mut i: usize = 0;
        while i < entries.len()
            invariant
                i <= entries.len(),
                forall|j: int|
                    0 <= j < entries@.len() ==> self.tiles@.contains_key((#[trigger] entries@[j]).0),
                forall|j: int| 0 <= j < i ==> lands_in(self.coord, (#[trigger] entries@[j]).0, *map),
            decreases entries.len() - i,
        {
            let offset = entries[i].0;
            let inside = offset.0 < map.size.x && self.coord.x < map.size.x - offset.0 && offset.1
                < map.size.y && self.coord.y < map.size.y - offset.1 && offset.2 < map.size.z
                && self.coord.z < map.size.z - offset.2;
            if !inside {
                assert(self.tiles@.contains_key(entries@[i as int].0));
                return false;
            }
            i += 1;
        }
        proof {
            assert forall|offset: (u32, u32, u32)| #[trigger]
                self.tiles@.contains_key(offset) implies lands_in(self.coord, offset, *map) by {
                let j = choose|j: int| 0 <= j < entries@.len() && (#[trigger] entries@[j]).0 == offset;
                assert(lands_in(self.coord, entries@[j].0, *map));
            }
        }
        true
    }
}

/// Whether one of the first `n` entries lies at `cell`, counted from `origin`.
pub open spec fn painted_by(
    entries: Seq<((u32, u32, u32), TileKind)>,
    n: int,
    origin: UVec3,
    cell: UVec3,
) -> bool {
    exists|j: int|
        0 <= j < n && origin.x + (#[trigger] entries[j]).0.0 == cell.x && origin.y + entries[j].0.1
            == cell.y && origin.z + entries[j].0.2 == cell.z
}

/// The chunks of the cells at which the first `n` entries lie.
pub open spec fn chunks_painted(
    entries: Seq<((u32, u32, u32), TileKind)>,
    n: int,
    origin: UVec3,
    map: TileMap,
) -> Set<ChunkCoord> {
    Set::new(
        |chunk: ChunkCoord|
            exists|j: int|
                0 <= j < n && map.chunk_of(shifted(origin, (#[trigger] entries[j]).0)) == chunk,
    )
}

/// Writes a tile into each cell that `entries` names by its offset from `origin`: the
/// entry's kind in the name of `owner`, or the empty tile where there is no owner.
pub(crate) fn paint(
    tile_map: &mut TileMap,
    origin: UVec3,
    entries: &Vec<((u32, u32, u32), TileKind)>,
    owner: Option<u64>,
)
    requires
        old(tile_map).wf(),
        forall|i: int, j: int| 0 <= i < j < entries@.len() ==> entries@[i].0 != entries@[j].0,
        forall|i: int|
            0 <= i < entries@.len() ==> lands_in(origin, (#[trigger] entries@[i]).0, *old(tile_map)),
    ensures
        final(tile_map).wf(),
        final(tile_map).size == old(tile_map).size,
        final(tile_map).chunk_size == old(tile_map).chunk_size,
        final(tile_map).tile_size == old(tile_map).tile_size,
        final(tile_map).tile_sheet == old(tile_map).tile_sheet,
        forall|cell: UVec3|
            old(tile_map).in_bounds(cell) && !painted_by(entries@, entries@.len() as int, origin, cell)
                ==> #[trigger] final(tile_map).tile(cell) == old(tile_map).tile(cell),
        forall|j: int|
            0 <= j < entries@.len() ==> final(tile_map).tile(
                shifted(origin, (#[trigger] entries@[j]).0),
            ) == (match owner {
                Some(entity) => placed_tile(entity, entries@[j].1),
                None => Tile::empty(),
            }),
        final(tile_map).dirty() == old(tile_map).dirty().union(
            chunks_painted(entries@, entries@.len() as int, origin, *old(tile_map)),
        ),
{
    let mut i: usize = 0;
    assert(tile_map.dirty() =~= old(tile_map).dirty().union(
        chunks_painted(entries@, 0, origin, *old(tile_map)),
    ));
    while i < entries.len()
        invariant
            i <= entries.len(),
            tile_map.wf(),
            tile_map.size == old(tile_map).size,
            tile_map.chunk_size == old(tile_map).chunk_size,
            tile_map.tile_size == old(tile_map).tile_size,
            tile_map.tile_sheet == old(tile_map).tile_sheet,
            forall|a: int, b: int| 0 <= a < b < entries@.len() ==> entries@[a].0 != entries@[b].0,
            forall|k: int|
                0 <= k < entries@.len() ==> lands_in(origin, (#[trigger] entries@[k]).0, *old(tile_map)),
            forall|cell: UVec3|
                old(tile_map).in_bounds(cell) && !painted_by(entries@, i as int, origin, cell)
                    ==> #[trigger] tile_map.tile(cell) == old(tile_map).tile(cell),
            forall|j: int|
                0 <= j < i ==> tile_map.tile(shifted(origin, (#[trigger] entries@[j]).0)) == (match owner {
                    Some(entity) => placed_tile(entity, entries@[j].1),
                    None => Tile::empty(),
                }),
            tile_map.dirty() == old(tile_map).dirty().union(
                chunks_painted(entries@, i as int, origin, *old(tile_map)),
            ),
        decreases entries.len() - i,
    {
        let offset = entries[i].0;
        let kind = entries[i].1;
        assert(lands_in(origin, entries@[i as int].0, *old(tile_map)));
        let cell = UVec3 { x: origin.x + offset.0, y: origin.y + offset.1, z: origin.z + offset.2 };
        let tile = match owner {
            Some(entity) => Tile { entity: Some(entity), kind: Some(kind), pickable: true },
            None => Tile::default(),
        };
        let ghost before = *tile_map;
        tile_map.set_tile(cell, tile);
        proof {
            assert(cell == shifted(origin, entries@[i as int].0));
            assert forall|c: UVec3|
                old(tile_map).in_bounds(c) && !painted_by(entries@, i + 1, origin, c) implies #[trigger] tile_map.tile(
                c,
            ) == old(tile_map).tile(c) by {
                if c == cell {
                    assert(origin.x + entries@[i as int].0.0 == c.x);
                    assert(painted_by(entries@, i + 1, origin, c));
                }
                if painted_by(entries@, i as int, origin, c) {
                    let j = choose|j: int|
                        0 <= j < i && origin.x + (#[trigger] entries@[j]).0.0 == c.x && origin.y
                            + entries@[j].0.1 == c.y && origin.z + entries@[j].0.2 == c.z;
                    assert(0 <= j < i + 1 && origin.x + entries@[j].0.0 == c.x);
                    assert(painted_by(entries@, i + 1, origin, c));
                }
                assert(before.tile(c) == old(tile_map).tile(c));
            }
            assert forall|j: int| 0 <= j < i + 1 implies tile_map.tile(
                shifted(origin, (#[trigger] entries@[j]).0),
            ) == (match owner {
                Some(entity) => placed_tile(entity, entries@[j].1),
                None => Tile::empty(),
            }) by {
                if j < i {
                    assert(entries@[j].0 != entries@[i as int].0);
                    assert(lands_in(origin, entries@[j].0, *old(tile_map)));
                    assert(shifted(origin, entries@[j].0) != cell);
                }
            }
            assert(tile_map.dirty() =~= old(tile_map).dirty().union(
                chunks_painted(entries@, i + 1, origin, *old(tile_map)),
            )) by {
                assert forall|chunk: ChunkCoord|
                    chunks_painted(entries@, i + 1, origin, *old(tile_map)).contains(chunk)
                    <==> (chunks_painted(entries@, i as int, origin, *old(tile_map)).contains(chunk)
                    || chunk == before.chunk_of(cell)) by {
                    if chunks_painted(entries@, i as int, origin, *old(tile_map)).contains(chunk) {
                        let j = choose|j: int|
                            0 <= j < i && old(tile_map).chunk_of(
                                shifted(origin, (#[trigger] entries@[j]).0),
                            ) == chunk;
                        assert(0 <= j < i + 1 && old(tile_map).chunk_of(
                            shifted(origin, entries@[j].0),
                        ) == chunk);
                    }
                    if chunk == before.chunk_of(cell) {
                        assert(0 <= i < i + 1 && old(tile_map).chunk_of(
                            shifted(origin, entries@[i as int].0),
                        ) == chunk);
                    }
                    if chunks_painted(entries@, i + 1, origin, *old(tile_map)).contains(chunk) {
                        let j = choose|j: int|
                            0 <= j < i + 1 && old(tile_map).chunk_of(
                                shifted(origin, (#[trigger] entries@[j]).0),
                            ) == chunk;
                        if j < i {
                            assert(chunks_painted(entries@, i as int, origin, *old(tile_map)).contains(
                                chunk,
                            ));
                        }
                    }
                }
            }
        }
        i += 1;
    }
}

impl AsTiles {
    /// The chunks of `map` that hold a cell of the group.
    pub open spec fn chunks_of(&self, map: TileMap) -> Set<ChunkCoord> {
        Set::new(
            |chunk: ChunkCoord|
                exists|offset: (u32, u32, u32)| #[trigger]
                    self.tiles@.contains_key(offset) && map.chunk_of(shifted(self.coord, offset))
                        == chunk,
        )
    }
}

/// The entries handed out by a group's map name the cells that the group covers.
proof fn lemma_entries_cover(
    group: AsTiles,
    entries: Seq<((u32, u32, u32), TileKind)>,
    map: TileMap,
)
    requires
        group.fits(map),
        forall|i: int, j: int| 0 <= i < j < entries.len() ==> entries[i].0 != entries[j].0,
        forall|i: int|
            0 <= i < entries.len() ==> group.tiles@.contains_key((#[trigger] entries[i]).0)
                && group.tiles@[entries[i].0] == entries[i].1,
        forall|key: (u32, u32, u32)|
            group.tiles@.contains_key(key) ==> exists|i: int|
                0 <= i < entries.len() && (#[trigger] entries[i]).0 == key,
    ensures
        forall|i: int| 0 <= i < entries.len() ==> lands_in(group.coord, (#[trigger] entries[i]).0, map),
        forall|cell: UVec3|
            painted_by(entries, entries.len() as int, group.coord, cell) <==> group.covers(cell),
        forall|i: int|
            0 <= i < entries.len() ==> group.kind_at(shifted(group.coord, (#[trigger] entries[i]).0))
                == entries[i].1,
        chunks_painted(entries, entries.len() as int, group.coord, map) == group.chunks_of(map),
{
    let n = entries.len() as int;
    assert forall|i: int| 0 <= i < n implies lands_in(group.coord, (#[trigger] entries[i]).0, map) by {
        assert(group.tiles@.contains_key(entries[i].0));
    }
    assert forall|cell: UVec3| painted_by(entries, n, group.coord, cell) <==> group.covers(cell) by {
        if painted_by(entries, n, group.coord, cell) {
            let j = choose|j: int|
                0 <= j < n && group.coord.x + (#[trigger] entries[j]).0.0 == cell.x && group.coord.y
                    + entries[j].0.1 == cell.y && group.coord.z + entries[j].0.2 == cell.z;
            assert(group.tiles@.contains_key(entries[j].0));
        }
        if group.covers(cell) {
            let offset = choose|offset: (u32, u32, u32)| #[trigger]
                group.tiles@.contains_key(offset) && group.coord.x + offset.0 == cell.x
                    && group.coord.y + offset.1 == cell.y && group.coord.z + offset.2 == cell.z;
            let j = choose|j: int| 0 <= j < n && (#[trigger] entries[j]).0 == offset;
            assert(group.coord.x + entries[j].0.0 == cell.x);
        }
    }
    assert forall|i: int| 0 <= i < n implies group.kind_at(
        shifted(group.coord, (#[trigger] entries[i]).0),
    ) == entries[i].1 by {
        assert(lands_in(group.coord, entries[i].0, map));
        let cell = shifted(group.coord, entries[i].0);
        assert(((cell.x - group.coord.x) as u32, (cell.y - group.coord.y) as u32, (cell.z
            - group.coord.z) as u32) == entries[i].0);
    }
    assert forall|chunk: ChunkCoord|
        chunks_painted(entries, n, group.coord, map).contains(chunk) <==> group.chunks_of(
            map,
        ).contains(chunk) by {
        if chunks_painted(entries, n, group.coord, map).contains(chunk) {
            let j = choose|j: int|
                0 <= j < n && map.chunk_of(shifted(group.coord, (#[trigger] entries[j]).0)) == chunk;
            assert(group.tiles@.contains_key(entries[j].0));
        }
        if group.chunks_of(map).contains(chunk) {
            let offset = choose|offset: (u32, u32, u32)| #[trigger]
                group.tiles@.contains_key(offset) && map.chunk_of(shifted(group.coord, offset))
                    == chunk;
            let j = choose|j: int| 0 <= j < n && (#[trigger] entries[j]).0 == offset;
            assert(map.chunk_of(shifted(group.coord, entries[j].0)) == chunk);
        }
    }
    assert(chunks_painted(entries, n, group.coord, map) =~= group.chunks_of(map));
}

/// The tile of a cell after a group was brought to the map: the group's tile where the group
/// covers the cell, the empty tile where only the group as it was before (`cached`) covered
/// it, and the tile that was there in every other cell.
pub open spec fn synced_tile(
    before: Tile,
    cached: Option<AsTiles>,
    as_tiles: AsTiles,
    entity: u64,
    cell: UVec3,
) -> Tile {
    if as_tiles.covers(cell) {
        placed_tile(entity, as_tiles.kind_at(cell))
    } else if cached is Some && cached->Some_0.covers(cell) {
        Tile::empty()
    } else {
        before
    }
}

/// The chunks that bringing a group to the map marks: those of the group's cells, and those
/// of the cells of the group as it was before.
pub open spec fn synced_chunks(cached: Option<AsTiles>, as_tiles: AsTiles, map: TileMap) -> Set<ChunkCoord> {
    match cached {
        Some(old_tiles) => old_tiles.chunks_of(map).union(as_tiles.chunks_of(map)),
        None => as_tiles.chunks_of(map),
    }
}

/// Brings the tiles of a group to the map. `cached` is the group as it was when it was last
/// brought to the map, if it ever was.
///
/// Where the group is as it was, nothing is done and the result is `false`. Otherwise the
/// cells of the group as it was are emptied, the cells of the group as it is now are set to
/// the group's tiles in the name of `as_tiles_entity`, made pickable, and the chunks of all
/// these cells are marked.
pub fn sync_as_tiles(
    tile_map: &mut TileMap,
    cached: Option<&AsTiles>,
    as_tiles_entity: u64,
    as_tiles: &AsTiles,
) -> (changed: bool)
    requires
        old(tile_map).wf(),
        as_tiles.fits(*old(tile_map)),
        cached matches Some(old_tiles) ==> old_tiles.fits(*old(tile_map)),
    ensures
        final(tile_map).wf(),
        final(tile_map).size == old(tile_map).size,
        final(tile_map).chunk_size == old(tile_map).chunk_size,
        final(tile_map).tile_size == old(tile_map).tile_size,
        final(tile_map).tile_sheet == old(tile_map).tile_sheet,
        changed == !(cached matches Some(old_tiles) && old_tiles.same_as(*as_tiles)),
        !changed ==> *final(tile_map) == *old(tile_map),
        changed ==> final(tile_map).dirty() == old(tile_map).dirty().union(
            synced_chunks(
                match cached {
                    Some(old_tiles) => Some(*old_tiles),
                    None => None,
                },
                *as_tiles,
                *old(tile_map),
            ),
        ),
        changed ==> forall|cell: UVec3|
            old(tile_map).in_bounds(cell) ==> #[trigger] final(tile_map).tile(cell) == synced_tile(
                old(tile_map).tile(cell),
                match cached {
                    Some(old_tiles) => Some(*old_tiles),
                    None => None,
                },
                *as_tiles,
                as_tiles_entity,
                cell,
            ),
{
    let ghost start = *tile_map;
    let ghost mut old_list: Seq<((u32, u32, u32), TileKind)> = Seq::empty();
    match cached {
        Some(old_tiles) => {
            if old_tiles.coord == as_tiles.coord && old_tiles.tile_map_entity
                == as_tiles.tile_map_entity && tile_kind_map_eq(&old_tiles.tiles, &as_tiles.tiles) {
                return false;
            }
            let old_entries = tile_kind_map_entries(&old_tiles.tiles);
            proof {
                old_list = old_entries@;
                lemma_entries_cover(*old_tiles, old_entries@, start);
            }
            paint(tile_map, old_tiles.coord, &old_entries, None);
        },
        None => {
            assert(tile_map.dirty() =~= start.dirty());
        },
    }
    let ghost cleared = *tile_map;
    let entries = tile_kind_map_entries(&as_tiles.tiles);
    proof {
        lemma_entries_cover(*as_tiles, entries@, start);
        lemma_entries_cover(*as_tiles, entries@, cleared);
    }
    paint(tile_map, as_tiles.coord, &entries, Some(as_tiles_entity));
    proof {
        assert(as_tiles.chunks_of(cleared) =~= as_tiles.chunks_of(start));
        assert forall|cell: UVec3| start.in_bounds(cell) implies #[trigger] tile_map.tile(cell)
            == synced_tile(
            start.tile(cell),
            match cached {
                Some(old_tiles) => Some(*old_tiles),
                None => None,
            },
            *as_tiles,
            as_tiles_entity,
            cell,
        ) by {
            if as_tiles.covers(cell) {
                let j = choose|j: int|
                    0 <= j < entries@.len() && as_tiles.coord.x + (#[trigger] entries@[j]).0.0
                        == cell.x && as_tiles.coord.y + entries@[j].0.1 == cell.y
                        && as_tiles.coord.z + entries@[j].0.2 == cell.z;
                assert(shifted(as_tiles.coord, entries@[j].0) == cell);
            } else {
                assert(tile_map.tile(cell) == cleared.tile(cell));
                match cached {
                    Some(old_tiles) => {
                        if old_tiles.covers(cell) {
                            let j = choose|j: int|
                                0 <= j < old_list.len() && old_tiles.coord.x + (
                                #[trigger] old_list[j]).0.0 == cell.x && old_tiles.coord.y
                                    + old_list[j].0.1 == cell.y && old_tiles.coord.z
                                    + old_list[j].0.2 == cell.z;
                            assert(shifted(old_tiles.coord, old_list[j].0) == cell);
                        }
                    },
                    None => {},
                }
            }
        }
        match cached {
            Some(old_tiles) => {
                assert(tile_map.dirty() =~= start.dirty().union(
                    old_tiles.chunks_of(start).union(as_tiles.chunks_of(start)),
                ));
            },
            None => {},
        }
    }
    true
}

} // verus!
