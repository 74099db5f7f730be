//! Visibility tracking. The field-of-view computation itself is an
//! external capability: callers hand in a grid of currently visible
//! tiles, and this module caches what follows from it — most importantly
//! the monotone `explored` flags.

use vstd::prelude::*;
use crate::tile::Tile;
use crate::tile::TileMap;
use crate::tile::in_bounds;
use crate::MAP_WIDTH;
use crate::MAP_HEIGHT;

verus! {

/// The result of one field-of-view computation: which tiles are visible
/// from the player's position, as a full-map grid indexed `[x][y]`.
#[derive(Debug, PartialEq)]
pub struct VisGrid {
    pub vis: Vec<Vec<bool>>,
}

impl VisGrid {
    /// The grid has exactly the map's dimensions.
    pub open spec fn wf(self) -> bool {
        &&& self.vis@.len() == MAP_WIDTH
        &&& forall|x: int|
            0 <= x < self.vis@.len() ==> (#[trigger] self.vis@[x])@.len() == MAP_HEIGHT
    }

    /// Whether `(x, y)` is visible.
    pub open spec fn at(self, x: int, y: int) -> bool {
        self.vis@[x]@[y]
    }

    /// Wrap a raw visibility grid, accepting it only with the map's
    /// exact dimensions.
    pub fn from_grid(vis: Vec<Vec<bool>>) -> (r: Option<VisGrid>)
        ensures
            r matches Some(g) ==> g.wf() && g.vis@ == vis@,
    {
        if vis.len() != MAP_WIDTH as usize {
            return None;
        }
        let mut x: usize = 0;
        while x < vis.len()
            invariant
                vis@.len() == MAP_WIDTH,
                x <= vis@.len(),
                forall|i: int| 0 <= i < x ==> (#[trigger] vis@[i])@.len() == MAP_HEIGHT,
            decreases vis@.len() - x,
        {
            if vis[x].len() != MAP_HEIGHT as usize {
                return None;
            }
            x = x + 1;
        }
        Some(VisGrid { vis })
    }

    pub fn is_visible(&self, x: i32, y: i32) -> (r: bool)
        requires
            self.wf(),
            in_bounds(x as int, y as int),
        ensures
            r == self.at(x as int, y as int),
    {
        self.vis[x as usize][y as usize]
    }
}

/// Whether the field of view has to be recomputed this frame: only when
/// the player's position changed since the previous turn.
pub fn needs_fov_recompute(previous: (i32, i32), current: (i32, i32)) -> (r: bool)
    ensures
        r == !(previous.0 == current.0 && previous.1 == current.1),
{
    previous.0 != current.0 || previous.1 != current.1
}

/// How a tile is classified for drawing.
#[derive(Clone, Copy, Debug, PartialEq, Eq, Structural)]
pub enum TileShade {
    DarkWall,
    DarkGround,
    LightWall,
    LightGround,
}

/// The color classification of a tile: light inside the field of view,
/// dark outside it; wall or ground by what the tile blocks from sight.
pub fn tile_shade(visible: bool, wall: bool) -> (r: TileShade)
    ensures
        r == (if visible {
            if wall {
                TileShade::LightWall
            } else {
                TileShade::LightGround
            }
        } else {
            if wall {
                TileShade::DarkWall
            } else {
                TileShade::DarkGround
            }
        }),
{
    match (visible, wall) {
        (false, true) => TileShade::DarkWall,
        (false, false) => TileShade::DarkGround,
        (true, true) => TileShade::LightWall,
        (true, false) => TileShade::LightGround,
    }
}

/// Mark every currently visible tile explored. Exploration is monotone:
/// a tile explored before stays explored, whatever the new view is.
pub fn update_explored(map: &mut TileMap, vis: &VisGrid)
    requires
        old(map).wf(),
        vis.wf(),
    ensures
        final(map).wf(),
        forall|x: int, y: int|
            in_bounds(x, y) ==> #[trigger] final(map).at(x, y) == (Tile {
                explored: old(map).at(x, y).explored || vis.at(x, y),
                ..old(map).at(x, y)
            }),
{
    let mut x: i32 = 0;
    while x < MAP_WIDTH
        invariant
            0 <= x <= MAP_WIDTH,
            map.wf(),
            vis.wf(),
            forall|i: int, j: int|
                in_bounds(i, j) && i < x ==> #[trigger] map.at(i, j) == (Tile {
                    explored: old(map).at(i, j).explored || vis.at(i, j),
                    ..old(map).at(i, j)
                }),
            forall|i: int, j: int|
                in_bounds(i, j) && i >= x ==> #[trigger] map.at(i, j) == old(map).at(i, j),
        decreases MAP_WIDTH - x,
    {
        let mut y: i32 = 0;
        while y < MAP_HEIGHT
            invariant
                0 <= x < MAP_WIDTH,
                0 <= y <= MAP_HEIGHT,
                map.wf(),
                vis.wf(),
                forall|i: int, j: int|
                    in_bounds(i, j) && i < x ==> #[trigger] map.at(i, j) == (Tile {
                        explored: old(map).at(i, j).explored || vis.at(i, j),
                        ..old(map).at(i, j)
                    }),
                forall|j: int|
                    0 <= j < y ==> #[trigger] map.at(x as int, j) == (Tile {
                        explored: old(map).at(x as int, j).explored || vis.at(x as int, j),
                        ..old(map).at(x as int, j)
                    }),
                forall|i: int, j: int|
                    in_bounds(i, j) && (i > x || (i == x && j >= y)) ==> #[trigger] map.at(i, j)
                        == old(map).at(i, j),
            decreases MAP_HEIGHT - y,
        {
            let t = map.get(x, y);
            let ghost before = *map;
            if vis.is_visible(x, y) && !t.explored {
                map.set(x, y, Tile { explored: true, ..t });
            }
            proof {
                assert forall|i: int, j: int|
                    in_bounds(i, j) && !(i == x && j == y) implies map.at(i, j) == before.at(
                    i,
                    j,
                ) by {}
                assert(map.at(x as int, y as int) == (Tile {
                    explored: before.at(x as int, y as int).explored || vis.at(x as int, y as int),
                    ..before.at(x as int, y as int)
                }));
                assert forall|j: int| 0 <= j <= y implies map.at(x as int, j) == (Tile {
                    explored: old(map).at(x as int, j).explored || vis.at(x as int, j),
                    ..old(map).at(x as int, j)
                }) by {
                    if j < y {
                        assert(map.at(x as int, j) == before.at(x as int, j));
                    } else {
                        assert(before.at(x as int, y as int) == old(map).at(x as int, y as int));
                    }
                }
            }
            y = y + 1;
        }
        x = x + 1;
    }
}

} // verus!
