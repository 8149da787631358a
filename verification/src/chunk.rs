//! Chunks: fixed-size rectangles of the grid, the unit of change tracking and of drawing.

use crate::hash::{coord_map_contents, coord_map_get, coord_map_insert, coord_map_new, CoordMap};
use crate::math::{U64Vec2, U64Vec3, UVec2, UVec3};
use crate::tile_map::{empty_layer, lemma_cell_index, new_empty_layer, Tile, TileMap};
use vstd::prelude::*;

verus! {

/// The address of a chunk: its column and row in units of chunks, and its layer.
#[derive(Clone, Copy, Debug, PartialEq, Eq, Hash, Structural)]
pub struct ChunkCoord(pub UVec3);

impl ChunkCoord {
    /// The address as a plain triple, the form in which the hash tables hold it.
    pub open spec fn key(self) -> (u32, u32, u32) {
        (self.0.x, self.0.y, self.0.z)
    }

    /// The address that a triple stands for.
    pub open spec fn from_key(key: (u32, u32, u32)) -> ChunkCoord {
        ChunkCoord(UVec3 { x: key.0, y: key.1, z: key.2 })
    }

    pub fn new(x: u32, y: u32, z: u32) -> (c: ChunkCoord)
        ensures
            c == ChunkCoord(UVec3 { x, y, z }),
    {
        ChunkCoord(UVec3 { x, y, z })
    }

    pub(crate) fn to_key(self) -> (key: (u32, u32, u32))
        ensures
            key == self.key(),
    {
        (self.0.x, self.0.y, self.0.z)
    }

    pub(crate) fn of_key(key: (u32, u32, u32)) -> (c: ChunkCoord)
        ensures
            c == ChunkCoord::from_key(key),
            c.key() == key,
    {
        ChunkCoord(UVec3 { x: key.0, y: key.1, z: key.2 })
    }
}

/// The cell `(lx, ly)` of a chunk whose rows are `width` cells long.
pub open spec fn cell_at(cells: Seq<Tile>, width: int, lx: int, ly: int) -> Tile {
    cells[ly * width + lx]
}

/// Whether `cells` is the copy of a chunk taken from one layer of a grid.
///
/// `src` holds the layer's `map_size.x * map_size.y` cells row after row, and `chunk` is the
/// chunk's column and row in units of chunks. A cell of the chunk that lies inside the grid
/// holds the grid's tile; a cell past the grid's edge holds what `prior` held there.
pub open spec fn copied(
    cells: Seq<Tile>,
    prior: Seq<Tile>,
    src: Seq<Tile>,
    chunk: UVec2,
    chunk_size: UVec2,
    map_size: UVec2,
) -> bool {
    &&& cells.len() == prior.len()
    &&& forall|lx: int, ly: int|
        0 <= lx < chunk_size.x && 0 <= ly < chunk_size.y ==> #[trigger] cell_at(
            cells,
            chunk_size.x as int,
            lx,
            ly,
        ) == (if chunk.x * chunk_size.x + lx < map_size.x && chunk.y * chunk_size.y + ly
            < map_size.y {
            src[(chunk.y * chunk_size.y + ly) * map_size.x + chunk.x * chunk_size.x + lx]
        } else {
            cell_at(prior, chunk_size.x as int, lx, ly)
        })
}

/// Two cells of a grid that differ in column or row differ in their place in the layer.
pub proof fn lemma_cell_index_injective(x1: int, y1: int, x2: int, y2: int, w: int)
    requires
        0 <= x1 < w,
        0 <= x2 < w,
        0 <= y1,
        0 <= y2,
        x1 != x2 || y1 != y2,
    ensures
        y1 * w + x1 != y2 * w + x2,
{
    assert(y1 * w + x1 != y2 * w + x2) by (nonlinear_arith)
        requires
            0 <= x1 < w,
            0 <= x2 < w,
            0 <= y1,
            0 <= y2,
            x1 != x2 || y1 != y2,
    {
        if y1 < y2 {
            assert((y1 + 1) * w <= y2 * w);
        } else if y2 < y1 {
            assert((y2 + 1) * w <= y1 * w);
        }
    }
}

/// The cells of one chunk, copied out of the grid.
#[derive(Clone, Debug)]
pub struct ChunkData {
    /// `chunk_size.x * chunk_size.y` cells, row after row.
    pub tiles: Vec<Tile>,
    pub chunk_coord: ChunkCoord,
    pub chunk_size: UVec2,
    pub tile_size: UVec2,
    /// The handle of the tile sheet that the chunk is drawn with.
    pub tile_sheet: u64,
}

impl ChunkData {
    /// The chunk holds one tile for each of its cells.
    pub open spec fn wf(&self) -> bool {
        &&& self.tiles@.len() == self.chunk_size.x * self.chunk_size.y
        &&& self.chunk_size.x * self.chunk_size.y <= u32::MAX
    }

    /// The cell of the grid that the chunk's cell `(lx, ly)` stands for.
    pub open spec fn global(&self, lx: int, ly: int) -> (int, int) {
        (self.chunk_coord.0.x * self.chunk_size.x + lx, self.chunk_coord.0.y * self.chunk_size.y + ly)
    }

    /// Whether the chunk is a copy of its part of `map`: each of its cells that lies inside the
    /// map holds the map's tile, and each cell past the map's edge holds what `prior` held.
    pub open spec fn reflects(&self, map: TileMap, prior: Seq<Tile>) -> bool {
        copied(
            self.tiles@,
            prior,
            map.layers()[self.chunk_coord.0.z as int],
            self.chunk_coord.0.truncate(),
            self.chunk_size,
            map.size.truncate(),
        )
    }

    /// Whether the chunk is the copy of its part of `map` with empty tiles past the map's edge.
    pub open spec fn snapshot_of(&self, map: TileMap) -> bool {
        self.reflects(map, empty_layer((self.chunk_size.x * self.chunk_size.y) as nat))
    }

    /// Whether the chunk's cells past the edge of `map` are empty.
    pub open spec fn padded(&self, map: TileMap) -> bool {
        forall|lx: int, ly: int|
            0 <= lx < self.chunk_size.x && 0 <= ly < self.chunk_size.y && !(self.global(lx, ly).0
                < map.size.x && self.global(lx, ly).1 < map.size.y) ==> #[trigger] cell_at(
                self.tiles@,
                self.chunk_size.x as int,
                lx,
                ly,
            ) == Tile::empty()
    }

    /// Whether the chunk can be copied from `map` again: it has one tile per cell, the map's
    /// chunk size and an address of the map, and its cells past the map's edge are empty.
    pub open spec fn belongs_to(&self, map: TileMap) -> bool {
        &&& self.wf()
        &&& self.chunk_size == map.chunk_size
        &&& map.is_chunk(self.chunk_coord)
        &&& self.padded(map)
    }

    /// A chunk copied from `map` over cells that were empty past the map's edge is the
    /// snapshot of its part of the map.
    pub proof fn lemma_reflects_padded(&self, map: TileMap, prior: ChunkData)
        requires
            self.wf(),
            prior.wf(),
            prior.chunk_size == self.chunk_size,
            prior.chunk_coord == self.chunk_coord,
            prior.padded(map),
            self.reflects(map, prior.tiles@),
        ensures
            self.snapshot_of(map),
            self.padded(map),
    {
        let cw = self.chunk_size.x as int;
        let ch = self.chunk_size.y as int;
        let blank = empty_layer((cw * ch) as nat);
        assert forall|lx: int, ly: int| 0 <= lx < cw && 0 <= ly < ch implies cell_at(
            blank,
            cw,
            lx,
            ly,
        ) == Tile::empty() by {
            lemma_cell_index(lx, ly, cw, ch);
        }
        assert forall|lx: int, ly: int| 0 <= lx < cw && 0 <= ly < ch && !(self.global(lx, ly).0
            < map.size.x && self.global(lx, ly).1 < map.size.y) implies #[trigger] cell_at(
            self.tiles@,
            cw,
            lx,
            ly,
        ) == Tile::empty() by {
            assert(cell_at(prior.tiles@, cw, lx, ly) == Tile::empty());
        }
    }

    /// Whether the chunk lies inside `map` with all its cells.
    pub open spec fn inside(&self, map: TileMap) -> bool {
        &&& self.chunk_coord.0.x * self.chunk_size.x + self.chunk_size.x <= map.size.x
        &&& self.chunk_coord.0.y * self.chunk_size.y + self.chunk_size.y <= map.size.y
    }

    /// The cells of a snapshot: a cell inside the map holds the map's tile at its place, a
    /// cell past the map's edge is empty. A chunk that lies inside the map is its part of
    /// the map, cell for cell.
    pub proof fn lemma_snapshot_cells(&self, map: TileMap)
        requires
            map.wf(),
            map.is_chunk(self.chunk_coord),
            self.snapshot_of(map),
        ensures
            forall|lx: int, ly: int|
                0 <= lx < self.chunk_size.x && 0 <= ly < self.chunk_size.y ==> #[trigger] cell_at(
                    self.tiles@,
                    self.chunk_size.x as int,
                    lx,
                    ly,
                ) == (if self.global(lx, ly).0 < map.size.x && self.global(lx, ly).1 < map.size.y {
                    map.tile(
                        UVec3 {
                            x: self.global(lx, ly).0 as u32,
                            y: self.global(lx, ly).1 as u32,
                            z: self.chunk_coord.0.z,
                        },
                    )
                } else {
                    Tile::empty()
                }),
            self.inside(map) ==> forall|lx: int, ly: int|
                0 <= lx < self.chunk_size.x && 0 <= ly < self.chunk_size.y ==> #[trigger] cell_at(
                    self.tiles@,
                    self.chunk_size.x as int,
                    lx,
                    ly,
                ) == map.tile(
                    UVec3 {
                        x: self.global(lx, ly).0 as u32,
                        y: self.global(lx, ly).1 as u32,
                        z: self.chunk_coord.0.z,
                    },
                ),
    {
        let cw = self.chunk_size.x as int;
        let ch = self.chunk_size.y as int;
        assert forall|lx: int, ly: int| 0 <= lx < cw && 0 <= ly < ch implies #[trigger] cell_at(
            self.tiles@,
            cw,
            lx,
            ly,
        ) == (if self.global(lx, ly).0 < map.size.x && self.global(lx, ly).1 < map.size.y {
            map.tile(
                UVec3 {
                    x: self.global(lx, ly).0 as u32,
                    y: self.global(lx, ly).1 as u32,
                    z: self.chunk_coord.0.z,
                },
            )
        } else {
            Tile::empty()
        }) by {
            lemma_cell_index(lx, ly, cw, ch);
            assert(0 <= self.chunk_coord.0.x * self.chunk_size.x && 0 <= self.chunk_coord.0.y
                * self.chunk_size.y) by (nonlinear_arith);
        }
    }

    /// Copies the chunk at `chunk_coord` out of `tile_map`. Cells of the chunk past the map's
    /// edge are empty.
    pub fn new(chunk_coord: ChunkCoord, tile_map: &TileMap, tile_sheet: u64) -> (data: ChunkData)
        requires
            tile_map.wf(),
            tile_map.is_chunk(chunk_coord),
        ensures
            data.wf(),
            data.chunk_coord == chunk_coord,
            data.chunk_size == tile_map.chunk_size,
            data.tile_size == tile_map.tile_size,
            data.tile_sheet == tile_sheet,
            data.snapshot_of(*tile_map),
            data.belongs_to(*tile_map),
    {
        let mut tiles = new_empty_layer((tile_map.chunk_size.x * tile_map.chunk_size.y) as usize);
        assert(tile_map.layers()[chunk_coord.0.z as int] == tile_map.tiles@[chunk_coord.0.z as int]@);
        Self::copy_tiles(
            tiles.as_mut_slice(),
            tile_map.tiles[chunk_coord.0.z as usize].as_slice(),
            chunk_coord.0.truncate(),
            tile_map.chunk_size,
            tile_map.size.truncate(),
        );
        let data = ChunkData {
            tiles,
            chunk_coord,
            chunk_size: tile_map.chunk_size,
            tile_size: tile_map.tile_size,
            tile_sheet,
        };
        proof {
            let cw = data.chunk_size.x as int;
            let ch = data.chunk_size.y as int;
            assert forall|lx: int, ly: int| 0 <= lx < cw && 0 <= ly < ch implies #[trigger] cell_at(
                empty_layer((cw * ch) as nat),
                cw,
                lx,
                ly,
            ) == Tile::empty() by {
                lemma_cell_index(lx, ly, cw, ch);
            }
        }
        data
    }

    /// Copies the chunk's cells out of `tile_map` again and takes over the map's tile size.
    /// Cells of the chunk past the map's edge keep what they held.
    pub fn sync(&mut self, tile_map: &TileMap)
        requires
            old(self).wf(),
            tile_map.wf(),
            tile_map.is_chunk(old(self).chunk_coord),
            old(self).chunk_size == tile_map.chunk_size,
        ensures
            final(self).wf(),
            final(self).chunk_coord == old(self).chunk_coord,
            final(self).chunk_size == old(self).chunk_size,
            final(self).tile_sheet == old(self).tile_sheet,
            final(self).tile_size == tile_map.tile_size,
            final(self).reflects(*tile_map, old(self).tiles@),
            old(self).padded(*tile_map) ==> final(self).snapshot_of(*tile_map) && final(self).belongs_to(*tile_map),
    {
        self.tile_size = tile_map.tile_size;
        assert(tile_map.layers()[self.chunk_coord.0.z as int] == tile_map.tiles@[self.chunk_coord.0.z as int]@);
        Self::copy_tiles(
            self.tiles.as_mut_slice(),
            tile_map.tiles[self.chunk_coord.0.z as usize].as_slice(),
            self.chunk_coord.0.truncate(),
            tile_map.chunk_size,
            tile_map.size.truncate(),
        );
        proof {
            if old(self).padded(*tile_map) {
                self.lemma_reflects_padded(*tile_map, *old(self));
            }
        }
    }

    /// Copies one chunk of a layer into `dest`, row by row. From each row of the chunk that
    /// lies inside the grid it copies the cells up to the grid's right edge; the rest of
    /// `dest` keeps what it held.
    pub fn copy_tiles(
        dest: &mut [Tile],
        src: &[Tile],
        chunk_coord: UVec2,
        chunk_size: UVec2,
        tile_map_size: UVec2,
    )
        requires
            old(dest)@.len() == chunk_size.x * chunk_size.y,
            src@.len() == tile_map_size.x * tile_map_size.y,
            chunk_size.x * chunk_size.y <= u32::MAX,
            tile_map_size.x * tile_map_size.y <= u32::MAX,
            chunk_coord.x * chunk_size.x < tile_map_size.x,
            chunk_coord.y * chunk_size.y < tile_map_size.y,
        ensures
            copied(final(dest)@, old(dest)@, src@, chunk_coord, chunk_size, tile_map_size),
    {
        let cw = chunk_size.x;
        let ch = chunk_size.y;
        let w = tile_map_size.x;
        let h = tile_map_size.y;
        assert(chunk_coord.x * cw <= u32::MAX && chunk_coord.y * ch <= u32::MAX);
        let start_x: u32 = chunk_coord.x * cw;
        let start_y: u32 = chunk_coord.y * ch;
        let room: u32 = w - start_x;
        let copy_width: u32 = if room < cw { room } else { cw };
        let rows_inside: u32 = h - start_y;
        let mut y: u32 = 0;
        while y < ch
            invariant
                y <= ch,
                cw == chunk_size.x,
                ch == chunk_size.y,
                w == tile_map_size.x,
                h == tile_map_size.y,
                start_x == chunk_coord.x * cw,
                start_y == chunk_coord.y * ch,
                start_x < w,
                start_y < h,
                rows_inside == h - start_y,
                copy_width <= cw,
                copy_width == (if w - start_x < cw { w - start_x } else { cw as int }),
                dest@.len() == cw * ch,
                src@.len() == w * h,
                cw * ch <= u32::MAX,
                w * h <= u32::MAX,
                forall|lx: int, ly: int|
                    0 <= lx < cw && 0 <= ly < ch ==> #[trigger] cell_at(dest@, cw as int, lx, ly)
                        == (if ly < y && start_x + lx < w && start_y + ly < h {
                        src@[(start_y + ly) * w + start_x + lx]
                    } else {
                        cell_at(old(dest)@, cw as int, lx, ly)
                    }),
            decreases ch - y,
        {
            if y < rows_inside {
                let gy: u32 = start_y + y;
                proof {
                    assert(0 <= y * cw <= cw * ch) by (nonlinear_arith)
                        requires
                            0 <= y < ch,
                            0 <= cw,
                    ;
                    lemma_cell_index(start_x as int, gy as int, w as int, h as int);
                }
                let dest_start: usize = (y * cw) as usize;
                let src_start: usize = (gy * w + start_x) as usize;
                let mut x: u32 = 0;
                while x < copy_width
                    invariant
                        x <= copy_width,
                        copy_width <= cw,
                        copy_width <= w - start_x,
                        y < ch,
                        gy == start_y + y,
                        gy < h,
                        start_x < w,
                        dest_start == y * cw,
                        src_start == gy * w + start_x,
                        dest@.len() == cw * ch,
                        src@.len() == w * h,
                        cw * ch <= u32::MAX,
                        w * h <= u32::MAX,
                        forall|lx: int, ly: int|
                            0 <= lx < cw && 0 <= ly < ch ==> #[trigger] cell_at(
                                dest@,
                                cw as int,
                                lx,
                                ly,
                            ) == (if (ly < y || (ly == y && lx < x)) && start_x + lx < w && start_y
                                + ly < h {
                                src@[(start_y + ly) * w + start_x + lx]
                            } else {
                                cell_at(old(dest)@, cw as int, lx, ly)
                            }),
                    decreases copy_width - x,
                {
                    proof {
                        lemma_cell_index(x as int, y as int, cw as int, ch as int);
                        lemma_cell_index((start_x + x) as int, gy as int, w as int, h as int);
                    }
                    let ghost before = dest@;
                    let tile = src[src_start + x as usize];
                    dest[dest_start + x as usize] = tile;
                    proof {
                        assert forall|lx: int, ly: int| 0 <= lx < cw && 0 <= ly < ch implies #[trigger] cell_at(
                            dest@,
                            cw as int,
                            lx,
                            ly,
                        ) == (if (ly < y || (ly == y && lx < x + 1)) && start_x + lx < w && start_y
                            + ly < h {
                            src@[(start_y + ly) * w + start_x + lx]
                        } else {
                            cell_at(old(dest)@, cw as int, lx, ly)
                        }) by {
                            if lx == x && ly == y {
                            } else {
                                lemma_cell_index_injective(lx, ly, x as int, y as int, cw as int);
                                lemma_cell_index(lx, ly, cw as int, ch as int);
                                assert(dest@ == before.update(y * cw + x, tile));
                                assert(cell_at(dest@, cw as int, lx, ly) == cell_at(
                                    before,
                                    cw as int,
                                    lx,
                                    ly,
                                ));
                            }
                        }
                    }
                    x += 1;
                }
            }
            y += 1;
        }
    }

    /// Whether no cell of the chunk shows anything.
    pub open spec fn all_empty(&self) -> bool {
        forall|i: int| 0 <= i < self.tiles@.len() ==> (#[trigger] self.tiles@[i]).kind is None
    }

    /// Whether no cell of the chunk shows anything.
    pub fn is_empty(&self) -> (b: bool)
        ensures
            b == self.all_empty(),
    {
        let mut i: usize = 0;
        while i < self.tiles.len()
            invariant
                i <= self.tiles.len(),
                forall|j: int| 0 <= j < i ==> (#[trigger] self.tiles@[j]).kind is None,
            decreases self.tiles.len() - i,
        {
            if !self.tiles[i].is_empty() {
                assert(!(self.tiles@[i as int].kind is None));
                return false;
            }
            i += 1;
        }
        true
    }

    pub fn tiles(&self) -> (tiles: &Vec<Tile>)
        ensures
            tiles == &self.tiles,
    {
        &self.tiles
    }

    pub fn tile_size(&self) -> (size: UVec2)
        ensures
            size == self.tile_size,
    {
        self.tile_size
    }

    pub fn chunk_size(&self) -> (size: UVec2)
        ensures
            size == self.chunk_size,
    {
        self.chunk_size
    }

    pub fn tile_sheet(&self) -> (handle: u64)
        ensures
            handle == self.tile_sheet,
    {
        self.tile_sheet
    }
}

/// The size of one chunk of `map` in pixels: its size in cells times the size of a cell.
pub open spec fn footprint(map: TileMap) -> U64Vec2 {
    U64Vec2 {
        x: (map.chunk_size.x * map.tile_size.x) as u64,
        y: (map.chunk_size.y * map.tile_size.y) as u64,
    }
}

/// Where the chunk at `chunk` is drawn, relative to its map: as many footprints along each
/// axis as the address says, and the layer as depth.
pub open spec fn placement(chunk: ChunkCoord, map: TileMap) -> U64Vec3 {
    U64Vec3 {
        x: (chunk.0.x * (map.chunk_size.x * map.tile_size.x)) as u64,
        y: (chunk.0.y * (map.chunk_size.y * map.tile_size.y)) as u64,
        z: chunk.0.z as u64,
    }
}

/// What is kept for one chunk: its copy of the grid, where it is drawn and how large it is.
#[derive(Debug)]
pub struct ChunkRecord {
    pub data: ChunkData,
    /// The chunk's offset from its map, in pixels, and its layer.
    pub translation: U64Vec3,
    /// The chunk's width and height in pixels: the box that culling tests.
    pub extent: U64Vec2,
}

/// One entry of what a reconciliation did.
#[derive(Clone, Copy, Debug, PartialEq, Eq, Structural)]
pub struct ChunkUpdate {
    pub chunk: ChunkCoord,
    /// The number of the chunk's record.
    pub record: usize,
    /// Whether the record was made by this reconciliation; otherwise it was copied anew.
    pub created: bool,
}

/// The records of a map's chunks, found by chunk address.
pub struct ChunkEntities {
    /// The record number of each chunk that has a record.
    pub index: CoordMap,
    pub records: Vec<ChunkRecord>,
}

impl ChunkEntities {
    /// Whether the chunk has a record.
    pub open spec fn has(&self, chunk: ChunkCoord) -> bool {
        coord_map_contents(self.index).contains_key(chunk.key())
    }

    /// The number of the chunk's record.
    pub open spec fn id(&self, chunk: ChunkCoord) -> usize
        recommends
            self.has(chunk),
    {
        coord_map_contents(self.index)[chunk.key()]
    }

    /// The chunk's record.
    pub open spec fn record(&self, chunk: ChunkCoord) -> ChunkRecord
        recommends
            self.has(chunk),
    {
        self.records@[self.id(chunk) as int]
    }

    /// The chunk's record, if it has one.
    pub open spec fn record_of(&self, chunk: ChunkCoord) -> Option<ChunkRecord> {
        if self.has(chunk) {
            Some(self.record(chunk))
        } else {
            None
        }
    }

    /// Index and records agree: every indexed chunk has its own record, and every record is
    /// indexed under the address it was copied from.
    pub open spec fn wf(&self) -> bool {
        &&& forall|c: ChunkCoord| #[trigger]
            self.has(c) ==> self.id(c) < self.records@.len() && self.records@[self.id(
                c,
            ) as int].data.chunk_coord == c
        &&& forall|i: int|
            0 <= i < self.records@.len() ==> self.has((#[trigger] self.records@[i]).data.chunk_coord)
                && self.id(self.records@[i].data.chunk_coord) == i
    }

    /// Every record belongs to a chunk of `map`, has the map's chunk size, and holds empty
    /// tiles in the cells that lie past the map's edge.
    pub open spec fn fits(&self, map: TileMap) -> bool {
        forall|i: int|
            0 <= i < self.records@.len() ==> (#[trigger] self.records@[i]).data.belongs_to(map)
    }

    /// No records.
    pub fn new() -> (chunks: ChunkEntities)
        ensures
            chunks.wf(),
            chunks.records@.len() == 0,
            forall|c: ChunkCoord| !chunks.has(c),
    {
        let chunks = ChunkEntities { index: coord_map_new(), records: Vec::new() };
        assert forall|c: ChunkCoord| !chunks.has(c) by {
            assert(!coord_map_contents(chunks.index).dom().contains(c.key()));
        }
        chunks
    }

    /// The number of the chunk's record, if it has one.
    pub fn get(&self, chunk: ChunkCoord) -> (id: Option<usize>)
        ensures
            id == (if self.has(chunk) {
                Some(self.id(chunk))
            } else {
                None
            }),
    {
        coord_map_get(&self.index, chunk.to_key())
    }
}

/// Whether `after` is what a reconciliation leaves as the record of a marked chunk: the
/// snapshot of the chunk's part of `map`, with the map's tile size and the footprint as
/// extent. A record that existed (`before`) keeps its place and its sheet; a new one is
/// placed by its address and takes the map's sheet.
pub open spec fn refreshed(
    before: Option<ChunkRecord>,
    after: ChunkRecord,
    chunk: ChunkCoord,
    map: TileMap,
) -> bool {
    &&& after.data.chunk_coord == chunk
    &&& after.data.chunk_size == map.chunk_size
    &&& after.data.tile_size == map.tile_size
    &&& after.data.snapshot_of(map)
    &&& after.extent == footprint(map)
    &&& match before {
        Some(b) => after.translation == b.translation && after.data.tile_sheet
            == b.data.tile_sheet,
        None => after.translation == placement(chunk, map) && after.data.tile_sheet
            == map.tile_sheet,
    }
}

/// Whether `changes` reports a reconciliation of the chunks in `dirty`: one entry for each of
/// them and no other, each with the chunk's record number and with `created` set exactly when
/// the chunk had no record before.
pub open spec fn reports(
    changes: Seq<ChunkUpdate>,
    dirty: Set<ChunkCoord>,
    before: ChunkEntities,
    after: ChunkEntities,
) -> bool {
    &&& forall|c: ChunkCoord|
        dirty.contains(c) <==> exists|j: int|
            0 <= j < changes.len() && (#[trigger] changes[j]).chunk == c
    &&& forall|j: int, k: int|
        0 <= j < k < changes.len() ==> (#[trigger] changes[j]).chunk != (#[trigger] changes[k]).chunk
    &&& forall|j: int|
        0 <= j < changes.len() ==> (#[trigger] changes[j]).record == after.id(changes[j].chunk)
            && changes[j].created == !before.has(changes[j].chunk)
}

/// Whether `after_map`, `after` and `changes` are what a reconciliation leaves of `map` and
/// `before`.
///
/// The map keeps its cells and has no chunk marked. Every chunk that was marked has a
/// record that is `refreshed`; the record of every other chunk is as it was, and no record
/// changes its number. `changes` reports the chunks that were marked.
pub open spec fn reconciled(
    map: TileMap,
    before: ChunkEntities,
    after_map: TileMap,
    after: ChunkEntities,
    changes: Seq<ChunkUpdate>,
) -> bool {
    &&& after_map.wf()
    &&& after_map.same_grid(map)
    &&& after_map.dirty() == Set::<ChunkCoord>::empty()
    &&& after.wf()
    &&& after.fits(after_map)
    &&& forall|c: ChunkCoord| #[trigger]
        map.dirty().contains(c) ==> after.has(c) && refreshed(
            before.record_of(c),
            after.record(c),
            c,
            after_map,
        )
    &&& forall|c: ChunkCoord|
        !(#[trigger] map.dirty().contains(c)) ==> after.record_of(c) == before.record_of(c)
    &&& forall|c: ChunkCoord| #[trigger]
        before.has(c) ==> after.has(c) && after.id(c) == before.id(c)
    &&& forall|c: ChunkCoord| #[trigger] after.has(c) <==> before.has(c) || map.dirty().contains(c)
    &&& reports(changes, map.dirty(), before, after)
    &&& map.dirty() == Set::<ChunkCoord>::empty() ==> changes.len() == 0 && after == before
}

/// A reconciliation that follows another, with no tile written in between, does nothing:
/// it reports no chunk, and leaves every record and the map's cells as they are.
pub proof fn lemma_reconcile_twice(
    map: TileMap,
    chunks: ChunkEntities,
    map1: TileMap,
    chunks1: ChunkEntities,
    changes1: Seq<ChunkUpdate>,
    map2: TileMap,
    chunks2: ChunkEntities,
    changes2: Seq<ChunkUpdate>,
)
    requires
        reconciled(map, chunks, map1, chunks1, changes1),
        reconciled(map1, chunks1, map2, chunks2, changes2),
    ensures
        changes2.len() == 0,
        chunks2 == chunks1,
        map2.same_grid(map1),
        map2.dirty() == Set::<ChunkCoord>::empty(),
{
}

/// What holds while a reconciliation works through the marked chunks: `done` lists the chunks
/// handled so far, `start` is the state it began with.
pub(crate) open spec fn progress(
    start: ChunkEntities,
    chunks: ChunkEntities,
    map: TileMap,
    done: Seq<ChunkCoord>,
    changes: Seq<ChunkUpdate>,
) -> bool {
    &&& chunks.wf()
    &&& chunks.fits(map)
    &&& forall|c: ChunkCoord| #[trigger]
        start.has(c) ==> chunks.has(c) && chunks.id(c) == start.id(c)
    &&& forall|c: ChunkCoord| #[trigger] chunks.has(c) ==> start.has(c) || done.contains(c)
    &&& forall|c: ChunkCoord| #[trigger]
        done.contains(c) ==> chunks.has(c) && refreshed(
            start.record_of(c),
            chunks.record(c),
            c,
            map,
        )
    &&& forall|c: ChunkCoord|
        #[trigger] start.has(c) && !done.contains(c) ==> chunks.record(c) == start.record(c)
    &&& changes.len() == done.len()
    &&& forall|j: int|
        0 <= j < done.len() ==> #[trigger] changes[j] == (ChunkUpdate {
            chunk: done[j],
            record: chunks.id(done[j]),
            created: !start.has(done[j]),
        })
}

/// Copying the record of one more chunk anew keeps `progress`.
proof fn lemma_progress_update(
    start: ChunkEntities,
    before: ChunkEntities,
    after: ChunkEntities,
    map: TileMap,
    done: Seq<ChunkCoord>,
    changes: Seq<ChunkUpdate>,
    chunk: ChunkCoord,
)
    requires
        progress(start, before, map, done, changes),
        !done.contains(chunk),
        before.has(chunk),
        after.index == before.index,
        after.records@ == before.records@.update(
            before.id(chunk) as int,
            after.records@[before.id(chunk) as int],
        ),
        refreshed(Some(before.record(chunk)), after.records@[before.id(chunk) as int], chunk, map),
        after.records@[before.id(chunk) as int].data.belongs_to(map),
    ensures
        progress(
            start,
            after,
            map,
            done.push(chunk),
            changes.push(ChunkUpdate { chunk, record: before.id(chunk), created: false }),
        ),
{
    let id = before.id(chunk) as int;
    let done2 = done.push(chunk);
    let changes2 = changes.push(ChunkUpdate { chunk, record: before.id(chunk), created: false });
    assert forall|c: ChunkCoord| done2.contains(c) <==> (done.contains(c) || c == chunk) by {
        if done.contains(c) {
            let j = choose|j: int| 0 <= j < done.len() && done[j] == c;
            assert(done2[j] == c);
        }
        if c == chunk {
            assert(done2[done.len() as int] == c);
        }
    }
    assert forall|c: ChunkCoord| after.has(c) && c != chunk implies after.id(c) != id by {
        assert(before.has(c));
    }
    assert(start.has(chunk));
    assert forall|c: ChunkCoord| #[trigger] done2.contains(c) implies after.has(c) && refreshed(
        start.record_of(c),
        after.record(c),
        c,
        map,
    ) by {
        if c != chunk {
            assert(done.contains(c));
            assert(before.has(c));
        }
    }
    assert forall|j: int| 0 <= j < done2.len() implies #[trigger] changes2[j] == (ChunkUpdate {
        chunk: done2[j],
        record: after.id(done2[j]),
        created: !start.has(done2[j]),
    }) by {
        if j < done.len() {
            assert(changes2[j] == changes[j]);
        }
    }
    assert forall|i: int| 0 <= i < after.records@.len() implies (#[trigger] after.records@[i]).data.belongs_to(
        map,
    ) by {
        if i != id {
            assert(after.records@[i] == before.records@[i]);
        }
    }
    assert(after.wf()) by {
        assert forall|c: ChunkCoord| #[trigger] after.has(c) implies after.id(c)
            < after.records@.len() && after.records@[after.id(c) as int].data.chunk_coord == c by {
            assert(before.has(c));
            if c != chunk {
                assert(after.id(c) != id);
                assert(after.records@[after.id(c) as int] == before.records@[before.id(c) as int]);
            }
        }
        assert forall|i: int| 0 <= i < after.records@.len() implies after.has(
            (#[trigger] after.records@[i]).data.chunk_coord,
        ) && after.id(after.records@[i].data.chunk_coord) == i by {
            if i != id {
                assert(after.records@[i] == before.records@[i]);
            }
        }
    }
}

/// Making the record of one more chunk keeps `progress`.
proof fn lemma_progress_create(
    start: ChunkEntities,
    before: ChunkEntities,
    after: ChunkEntities,
    map: TileMap,
    done: Seq<ChunkCoord>,
    changes: Seq<ChunkUpdate>,
    chunk: ChunkCoord,
    record: ChunkRecord,
)
    requires
        progress(start, before, map, done, changes),
        !done.contains(chunk),
        !before.has(chunk),
        coord_map_contents(after.index) == coord_map_contents(before.index).insert(
            chunk.key(),
            before.records@.len() as usize,
        ),
        before.records@.len() <= usize::MAX,
        after.records@ == before.records@.push(record),
        refreshed(None, record, chunk, map),
        record.data.belongs_to(map),
    ensures
        progress(
            start,
            after,
            map,
            done.push(chunk),
            changes.push(
                ChunkUpdate { chunk, record: before.records@.len() as usize, created: true },
            ),
        ),
{
    let id = before.records@.len() as int;
    let done2 = done.push(chunk);
    let changes2 = changes.push(ChunkUpdate { chunk, record: id as usize, created: true });
    assert forall|c: ChunkCoord| done2.contains(c) <==> (done.contains(c) || c == chunk) by {
        if done.contains(c) {
            let j = choose|j: int| 0 <= j < done.len() && done[j] == c;
            assert(done2[j] == c);
        }
        if c == chunk {
            assert(done2[done.len() as int] == c);
        }
    }
    assert forall|c: ChunkCoord| c.key() == chunk.key() implies c == chunk by {}
    assert forall|c: ChunkCoord| after.has(c) <==> (before.has(c) || c == chunk) by {}
    assert forall|c: ChunkCoord| before.has(c) implies after.id(c) == before.id(c) && after.record(
        c,
    ) == before.record(c) by {}
    assert(!start.has(chunk));
    assert(after.record(chunk) == record);
    assert forall|c: ChunkCoord| #[trigger] done2.contains(c) implies after.has(c) && refreshed(
        start.record_of(c),
        after.record(c),
        c,
        map,
    ) by {
        if c != chunk {
            assert(done.contains(c));
            assert(before.has(c));
        }
    }
    assert forall|j: int| 0 <= j < done2.len() implies #[trigger] changes2[j] == (ChunkUpdate {
        chunk: done2[j],
        record: after.id(done2[j]),
        created: !start.has(done2[j]),
    }) by {
        if j < done.len() {
            assert(changes2[j] == changes[j]);
            assert(done.contains(done[j]));
            assert(before.has(done[j]));
        }
    }
    assert forall|i: int| 0 <= i < after.records@.len() implies (#[trigger] after.records@[i]).data.belongs_to(
        map,
    ) by {
        if i != id {
            assert(after.records@[i] == before.records@[i]);
        }
    }
    assert(after.wf()) by {
        assert forall|i: int| 0 <= i < after.records@.len() implies after.has(
            (#[trigger] after.records@[i]).data.chunk_coord,
        ) && after.id(after.records@[i].data.chunk_coord) == i by {
            if i != id {
                assert(after.records@[i] == before.records@[i]);
                assert(before.has(before.records@[i].data.chunk_coord));
            }
        }
    }
}

/// Brings the records up to date with the map: every marked chunk gets its record copied anew
/// from the map, or a new record where it had none, and no chunk stays marked. Records of
/// chunks that were not marked are not touched. Returns what was done, one entry per chunk
/// that was marked.
pub fn generate_or_update_chunks(tile_map: &mut TileMap, chunks: &mut ChunkEntities) -> (changes:
    Vec<ChunkUpdate>)
    requires
        old(tile_map).wf(),
        old(chunks).wf(),
        old(chunks).fits(*old(tile_map)),
    ensures
        reconciled(*old(tile_map), *old(chunks), *final(tile_map), *final(chunks), changes@),
{
    let mut changes: Vec<ChunkUpdate> = Vec::new();
    if !tile_map.has_dirty_chunks() {
        assert(tile_map.layers() == old(tile_map).layers());
        return changes;
    }
    assert(tile_map.chunk_size.x * tile_map.tile_size.x <= u64::MAX && tile_map.chunk_size.y
        * tile_map.tile_size.y <= u64::MAX) by (nonlinear_arith)
        requires
            tile_map.chunk_size.x <= u32::MAX,
            tile_map.tile_size.x <= u32::MAX,
            tile_map.chunk_size.y <= u32::MAX,
            tile_map.tile_size.y <= u32::MAX,
    ;
    let extent = U64Vec2 {
        x: tile_map.chunk_size.x as u64 * tile_map.tile_size.x as u64,
        y: tile_map.chunk_size.y as u64 * tile_map.tile_size.y as u64,
    };
    let list = tile_map.take_dirty_chunks();
    let mut i: usize = 0;
    while i < list.len()
        invariant
            i <= list.len(),
            list@.no_duplicates(),
            tile_map.wf(),
            tile_map.same_grid(*old(tile_map)),
            tile_map.dirty() == Set::<ChunkCoord>::empty(),
            extent == footprint(*tile_map),
            forall|c: ChunkCoord| list@.contains(c) ==> tile_map.is_chunk(c),
            progress(*old(chunks), *chunks, *tile_map, list@.take(i as int), changes@),
        decreases list.len() - i,
    {
        let chunk = list[i];
        let ghost done = list@.take(i as int);
        let ghost before = *chunks;
        let ghost reported = changes@;
        proof {
            assert(list@.contains(chunk));
            if done.contains(chunk) {
                let j = choose|j: int| 0 <= j < done.len() && done[j] == chunk;
                assert(list@[j] == chunk);
            }
            assert(list@.take(i + 1) == done.push(chunk));
        }
        match chunks.get(chunk) {
            Some(id) => {
                let record = &mut chunks.records[id];
                record.extent = extent;
                record.data.sync(tile_map);
                changes.push(ChunkUpdate { chunk, record: id, created: false });
                proof {
                    lemma_progress_update(
                        *old(chunks),
                        before,
                        *chunks,
                        *tile_map,
                        done,
                        reported,
                        chunk,
                    );
                }
            },
            None => {
                let data = ChunkData::new(chunk, tile_map, tile_map.tile_sheet);
                proof {
                    lemma_placement_fits(chunk, *tile_map);
                }
                let translation = U64Vec3 {
                    x: chunk.0.x as u64 * extent.x,
                    y: chunk.0.y as u64 * extent.y,
                    z: chunk.0.z as u64,
                };
                let id = chunks.records.len();
                let record = ChunkRecord { data, translation, extent };
                let ghost made = record;
                chunks.records.push(record);
                coord_map_insert(&mut chunks.index, chunk.to_key(), id);
                changes.push(ChunkUpdate { chunk, record: id, created: true });
                proof {
                    lemma_progress_create(
                        *old(chunks),
                        before,
                        *chunks,
                        *tile_map,
                        done,
                        reported,
                        chunk,
                        made,
                    );
                }
            },
        }
        i += 1;
    }
    proof {
        assert(list@.take(i as int) == list@);
        assert forall|c: ChunkCoord| #[trigger]
            old(tile_map).dirty().contains(c) implies chunks.has(c) && refreshed(
            old(chunks).record_of(c),
            chunks.record(c),
            c,
            *tile_map,
        ) by {
            assert(list@.contains(c));
        }
        assert forall|c: ChunkCoord| #[trigger]
            chunks.has(c) <==> old(chunks).has(c) || old(tile_map).dirty().contains(c) by {
            if old(tile_map).dirty().contains(c) {
                assert(list@.contains(c));
            }
            if chunks.has(c) && !old(chunks).has(c) {
                assert(list@.contains(c));
            }
        }
        assert forall|c: ChunkCoord|
            !(#[trigger] old(tile_map).dirty().contains(c)) implies chunks.record_of(c) == old(chunks).record_of(c) by {
            assert(!list@.contains(c));
            if chunks.has(c) {
                assert(old(chunks).has(c));
            }
        }
        assert forall|c: ChunkCoord|
            old(tile_map).dirty().contains(c) <==> exists|j: int|
                0 <= j < changes@.len() && (#[trigger] changes@[j]).chunk == c by {
            if old(tile_map).dirty().contains(c) {
                assert(list@.contains(c));
                let j = choose|j: int| 0 <= j < list@.len() && list@[j] == c;
                assert(changes@[j].chunk == c);
            }
            if exists|j: int| 0 <= j < changes@.len() && (#[trigger] changes@[j]).chunk == c {
                let j = choose|j: int| 0 <= j < changes@.len() && (#[trigger] changes@[j]).chunk == c;
                assert(list@[j] == c);
                assert(list@.contains(c));
            }
        }
        assert forall|j: int, k: int| 0 <= j < k < changes@.len() implies (#[trigger] changes@[j]).chunk
            != (#[trigger] changes@[k]).chunk by {
            assert(list@[j] != list@[k]);
        }
    }
    changes
}

/// The pixel offset of a chunk of the map fits in 64 bits.
pub proof fn lemma_placement_fits(chunk: ChunkCoord, map: TileMap)
    requires
        map.is_chunk(chunk),
    ensures
        chunk.0.x * (map.chunk_size.x * map.tile_size.x) <= u64::MAX,
        chunk.0.y * (map.chunk_size.y * map.tile_size.y) <= u64::MAX,
        map.chunk_size.x * map.tile_size.x <= u64::MAX,
        map.chunk_size.y * map.tile_size.y <= u64::MAX,
{
    lemma_scaled_offset(
        chunk.0.x as int,
        map.chunk_size.x as int,
        map.tile_size.x as int,
        map.size.x as int,
    );
    lemma_scaled_offset(
        chunk.0.y as int,
        map.chunk_size.y as int,
        map.tile_size.y as int,
        map.size.y as int,
    );
}

/// `c * (s * t)` stays below `2^64` where `c * s` is below a 32-bit `w` and `t` has 32 bits.
pub proof fn lemma_scaled_offset(c: int, s: int, t: int, w: int)
    requires
        0 <= c,
        0 <= s <= u32::MAX,
        0 <= t <= u32::MAX,
        c * s < w <= u32::MAX,
    ensures
        0 <= c * (s * t) <= u64::MAX,
        0 <= s * t <= u64::MAX,
{
    assert(0 <= c * (s * t) <= 0xffff_ffff * 0xffff_ffff && 0 <= s * t <= 0xffff_ffff
        * 0xffff_ffff) by (nonlinear_arith)
        requires
            0 <= c,
            0 <= s <= 0xffff_ffff,
            0 <= t <= 0xffff_ffff,
            c * s < 0xffff_ffff,
    {
        assert(c * (s * t) == (c * s) * t);
        assert((c * s) * t <= 0xffff_ffff * t);
    }
}

} // verus!
