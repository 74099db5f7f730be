//! Map tiles and the fixed-size tile grid of one dungeon level.

use vstd::prelude::*;
use crate::MAP_WIDTH;
use crate::MAP_HEIGHT;

verus! {

/// One tile of the map. Walls block movement and sight; empty tiles block
/// neither. `explored` is monotone: once set it is never cleared while the
/// level lives.
#[derive(Clone, Copy, Debug, PartialEq, Eq, Structural)]
pub struct Tile {
    pub blocked: bool,
    pub explored: bool,
    pub block_sight: bool,
}

impl Tile {
    /// The tile an unexplored empty (walkable, see-through) tile is.
    pub open spec fn spec_empty() -> Tile {
        Tile { blocked: false, explored: false, block_sight: false }
    }

    /// The tile an unexplored wall is.
    pub open spec fn spec_wall() -> Tile {
        Tile { blocked: true, explored: false, block_sight: true }
    }

    pub fn empty() -> (t: Tile)
        ensures
            t == Tile::spec_empty(),
    {
        Tile { blocked: false, explored: false, block_sight: false }
    }

    pub fn wall() -> (t: Tile)
        ensures
            t == Tile::spec_wall(),
    {
        Tile { blocked: true, explored: false, block_sight: true }
    }
}

/// Whether `(x, y)` lies on the map.
pub open spec fn in_bounds(x: int, y: int) -> bool {
    0 <= x < MAP_WIDTH && 0 <= y < MAP_HEIGHT
}

/// The tile grid of one dungeon level: `MAP_WIDTH` columns of
/// `MAP_HEIGHT` tiles, indexed `[x][y]`.
#[derive(Debug, PartialEq)]
pub struct TileMap {
    pub tiles: Vec<Vec<Tile>>,
}

impl TileMap {
    /// The grid has exactly the fixed dimensions.
    pub open spec fn wf(self) -> bool {
        &&& self.tiles@.len() == MAP_WIDTH
        &&& forall|x: int|
            0 <= x < self.tiles@.len() ==> (#[trigger] self.tiles@[x])@.len() == MAP_HEIGHT
    }

    /// The tile at `(x, y)`.
    pub open spec fn at(self, x: int, y: int) -> Tile {
        self.tiles@[x]@[y]
    }

    /// A whole level of solid wall, the canvas generation carves into.
    pub fn new_walls() -> (m: TileMap)
        ensures
            m.wf(),
            forall|x: int, y: int| in_bounds(x, y) ==> #[trigger] m.at(x, y) == Tile::spec_wall(),
    {
        let mut tiles: Vec<Vec<Tile>> = Vec::new();
        let mut x: usize = 0;
        while x < MAP_WIDTH as usize
            invariant
                x <= MAP_WIDTH,
                tiles@.len() == x,
                forall|i: int|
                    0 <= i < x ==> (#[trigger] tiles@[i])@.len() == MAP_HEIGHT,
                forall|i: int, j: int|
                    0 <= i < x && 0 <= j < MAP_HEIGHT ==> #[trigger] tiles@[i]@[j]
                        == Tile::spec_wall(),
            decreases MAP_WIDTH - x,
        {
            let mut column: Vec<Tile> = Vec::new();
            let mut y: usize = 0;
            while y < MAP_HEIGHT as usize
                invariant
                    y <= MAP_HEIGHT,
                    column@.len() == y,
                    forall|j: int| 0 <= j < y ==> #[trigger] column@[j] == Tile::spec_wall(),
                decreases MAP_HEIGHT - y,
            {
                column.push(Tile::wall());
                y = y + 1;
            }
            tiles.push(column);
            x = x + 1;
        }
        TileMap { tiles }
    }

    pub fn get(&self, x: i32, y: i32) -> (t: Tile)
        requires
            self.wf(),
            in_bounds(x as int, y as int),
        ensures
            t == self.at(x as int, y as int),
    {
        self.tiles[x as usize][y as usize]
    }

    /// Replace the tile at `(x, y)`; every other tile is unchanged.
    pub fn set(&mut self, x: i32, y: i32, t: Tile)
        requires
            old(self).wf(),
            in_bounds(x as int, y as int),
        ensures
            final(self).wf(),
            final(self).at(x as int, y as int) == t,
            forall|i: int, j: int|
                in_bounds(i, j) && !(i == x && j == y) ==> final(self).at(i, j)
                    == #[trigger] old(self).at(i, j),
    {
        let column: &mut Vec<Tile> = &mut self.tiles[x as usize];
        column[y as usize] = t;
    }
}

} // verus!
