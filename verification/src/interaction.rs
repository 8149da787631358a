//! Picking: from a pointer's hits on chunks to the tile under the pointer, and from one
//! frame's tile to the next frame's events.

use crate::chunk::{cell_at, ChunkData};
use crate::math::{UVec2, UVec3};
use crate::tile_map::{lemma_cell_index, Tile};
use vstd::prelude::*;

verus! {

/// What happened to the tile under the pointer. Each event names the tile map's entity and
/// the tile's place in the map.
#[derive(Clone, Copy, Debug, PartialEq, Eq, Structural)]
pub enum TileMapInteractionEvent {
    /// The pointer came onto the tile.
    JustEntered(u64, UVec3),
    /// The pointer stays on the tile.
    Hovering(u64, UVec3),
    /// The pointer left the tile.
    JustExited(u64, UVec3),
    /// The button went down on the tile.
    Clicked(u64, UVec3),
}

/// One hit of the pointer's ray on a chunk.
pub struct ChunkHit<'a> {
    pub chunk: &'a ChunkData,
    /// The entity of the tile map that the chunk belongs to.
    pub tile_map_entity: u64,
    /// The hit point in cells: its offset in the chunk's plane divided by the tile size,
    /// rounded down.
    pub cell: UVec2,
}

impl ChunkData {
    /// Whether every cell of the chunk has a place in the map that fits in 32 bits.
    pub open spec fn addressable(&self) -> bool {
        &&& self.chunk_size.x >= 1
        &&& self.chunk_size.y >= 1
        &&& self.chunk_coord.0.x * self.chunk_size.x + self.chunk_size.x - 1 <= u32::MAX
        &&& self.chunk_coord.0.y * self.chunk_size.y + self.chunk_size.y - 1 <= u32::MAX
    }

    /// Whether every cell of the chunk has a place in the map that fits in 32 bits.
    pub fn is_addressable(&self) -> (b: bool)
        ensures
            b == self.addressable(),
    {
        if self.chunk_size.x < 1 || self.chunk_size.y < 1 {
            return false;
        }
        assert(self.chunk_coord.0.x * self.chunk_size.x <= 0xffff_ffff * 0xffff_ffff
            && self.chunk_coord.0.y * self.chunk_size.y <= 0xffff_ffff * 0xffff_ffff)
            by (nonlinear_arith)
            requires
                self.chunk_coord.0.x <= 0xffff_ffff,
                self.chunk_size.x <= 0xffff_ffff,
                self.chunk_coord.0.y <= 0xffff_ffff,
                self.chunk_size.y <= 0xffff_ffff,
        ;
        let last_x: u64 = self.chunk_coord.0.x as u64 * self.chunk_size.x as u64
            + self.chunk_size.x as u64 - 1;
        let last_y: u64 = self.chunk_coord.0.y as u64 * self.chunk_size.y as u64
            + self.chunk_size.y as u64 - 1;
        last_x <= u32::MAX as u64 && last_y <= u32::MAX as u64
    }

    /// The cell of the chunk that a hit falls on: the hit's cell, wrapped into the chunk.
    pub open spec fn hit_local(&self, cell: UVec2) -> UVec2 {
        UVec2 { x: cell.x % self.chunk_size.x, y: cell.y % self.chunk_size.y }
    }

    /// The tile that a hit falls on.
    pub open spec fn hit_tile(&self, cell: UVec2) -> Tile {
        cell_at(
            self.tiles@,
            self.chunk_size.x as int,
            self.hit_local(cell).x as int,
            self.hit_local(cell).y as int,
        )
    }

    /// The place in the map of the tile that a hit falls on.
    pub open spec fn hit_coord(&self, cell: UVec2) -> UVec3 {
        UVec3 {
            x: (self.hit_local(cell).x + self.chunk_size.x * self.chunk_coord.0.x) as u32,
            y: (self.hit_local(cell).y + self.chunk_size.y * self.chunk_coord.0.y) as u32,
            z: self.chunk_coord.0.z,
        }
    }

    /// The place in the map of the tile that a hit falls on, or `None` where that cell is
    /// empty.
    pub fn pick(&self, cell: UVec2) -> (coord: Option<UVec3>)
        requires
            self.wf(),
            self.addressable(),
        ensures
            coord == (if self.hit_tile(cell).kind is None {
                None
            } else {
                Some(self.hit_coord(cell))
            }),
    {
        let lx: u32 = cell.x % self.chunk_size.x;
        let ly: u32 = cell.y % self.chunk_size.y;
        proof {
            lemma_cell_index(
                lx as int,
                ly as int,
                self.chunk_size.x as int,
                self.chunk_size.y as int,
            );
            assert(self.chunk_size.x * self.chunk_coord.0.x == self.chunk_coord.0.x
                * self.chunk_size.x) by (nonlinear_arith);
            assert(self.chunk_size.y * self.chunk_coord.0.y == self.chunk_coord.0.y
                * self.chunk_size.y) by (nonlinear_arith);
            assert(0 <= self.chunk_coord.0.x * self.chunk_size.x && 0 <= self.chunk_coord.0.y
                * self.chunk_size.y) by (nonlinear_arith);
        }
        let index = (ly * self.chunk_size.x + lx) as usize;
        if self.tiles[index].is_empty() {
            None
        } else {
            Some(
                UVec3 {
                    x: lx + self.chunk_size.x * self.chunk_coord.0.x,
                    y: ly + self.chunk_size.y * self.chunk_coord.0.y,
                    z: self.chunk_coord.0.z,
                },
            )
        }
    }
}

/// The tile under the pointer: that of the first hit, in the order given, that falls on a
/// cell which is not empty.
pub open spec fn first_pick(hits: Seq<ChunkHit>) -> Option<(u64, UVec3)>
    decreases hits.len(),
{
    if hits.len() == 0 {
        None
    } else if hits[0].chunk.hit_tile(hits[0].cell).kind is None {
        first_pick(hits.skip(1))
    } else {
        Some((hits[0].tile_map_entity, hits[0].chunk.hit_coord(hits[0].cell)))
    }
}

/// The tile under the pointer, from the hits of the pointer's ray, nearest first.
pub fn pick_tile(hits: &Vec<ChunkHit<'_>>) -> (picked: Option<(u64, UVec3)>)
    requires
        forall|i: int|
            0 <= i < hits@.len() ==> (#[trigger] hits@[i]).chunk.wf() && hits@[i].chunk.addressable(),
    ensures
        picked == first_pick(hits@),
{
    let mut i: usize = 0;
    assert(hits@.skip(0) =~= hits@);
    while i < hits.len()
        invariant
            i <= hits.len(),
            forall|k: int|
                0 <= k < hits@.len() ==> (#[trigger] hits@[k]).chunk.wf()
                    && hits@[k].chunk.addressable(),
            first_pick(hits@) == first_pick(hits@.skip(i as int)),
        decreases hits.len() - i,
    {
        let hit = &hits[i];
        proof {
            assert(hits@.skip(i as int)[0] == hits@[i as int]);
            assert(hits@.skip(i as int).skip(1) =~= hits@.skip(i + 1));
        }
        match hit.chunk.pick(hit.cell) {
            Some(coord) => {
                return Some((hit.tile_map_entity, coord));
            },
            None => {},
        }
        i += 1;
    }
    assert(hits@.skip(i as int).len() == 0);
    None
}

/// The events of one frame: `last` is the tile that was under the pointer in the frame
/// before, `new` the tile that is under it now, `pressed` whether the button went down.
///
/// A tile that stays gives `Hovering`; a change gives `JustExited` for the old tile and then
/// `JustEntered` for the new one, each where there is such a tile. A press gives `Clicked`
/// for the tile that is under the pointer now, after the other events.
pub open spec fn interaction_events(
    last: Option<(u64, UVec3)>,
    new: Option<(u64, UVec3)>,
    pressed: bool,
) -> Seq<TileMapInteractionEvent> {
    let moved = match (new, last) {
        (Some(n), Some(l)) => if n == l {
            seq![TileMapInteractionEvent::Hovering(n.0, n.1)]
        } else {
            seq![
                TileMapInteractionEvent::JustExited(l.0, l.1),
                TileMapInteractionEvent::JustEntered(n.0, n.1),
            ]
        },
        (Some(n), None) => seq![TileMapInteractionEvent::JustEntered(n.0, n.1)],
        (None, Some(l)) => seq![TileMapInteractionEvent::JustExited(l.0, l.1)],
        (None, None) => Seq::empty(),
    };
    match new {
        Some(n) => if pressed {
            moved.push(TileMapInteractionEvent::Clicked(n.0, n.1))
        } else {
            moved
        },
        None => moved,
    }
}

/// Compares this frame's tile under the pointer with the last frame's, remembers this
/// frame's, and returns the events to send, in order.
pub fn queue_interaction_events(
    last_selected: &mut Option<(u64, UVec3)>,
    new_selected: Option<(u64, UVec3)>,
    just_pressed: bool,
) -> (events: Vec<TileMapInteractionEvent>)
    ensures
        *final(last_selected) == new_selected,
        events@ == interaction_events(*old(last_selected), new_selected, just_pressed),
{
    let mut events: Vec<TileMapInteractionEvent> = Vec::new();
    match new_selected {
        Some((new_tile_map, new_coord)) => {
            match *last_selected {
                Some((last_tile_map, last_coord)) => {
                    if new_tile_map == last_tile_map && new_coord == last_coord {
                        events.push(TileMapInteractionEvent::Hovering(new_tile_map, new_coord));
                    } else {
                        events.push(TileMapInteractionEvent::JustExited(last_tile_map, last_coord));
                        events.push(TileMapInteractionEvent::JustEntered(new_tile_map, new_coord));
                    }
                },
                None => {
                    events.push(TileMapInteractionEvent::JustEntered(new_tile_map, new_coord));
                },
            }
        },
        None => {
            match *last_selected {
                Some((last_tile_map, last_coord)) => {
                    events.push(TileMapInteractionEvent::JustExited(last_tile_map, last_coord));
                },
                None => {},
            }
        },
    }
    *last_selected = new_selected;
    match new_selected {
        Some((tile_map, coord)) => {
            if just_pressed {
                events.push(TileMapInteractionEvent::Clicked(tile_map, coord));
            }
        },
        None => {},
    }
    assert(events@ =~= interaction_events(*old(last_selected), new_selected, just_pressed));
    events
}

} // verus!
