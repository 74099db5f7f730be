//! The per-session game state and the invariants the whole simulation
//! maintains over it and over the object list.

use vstd::prelude::*;
use crate::tile::TileMap;
use crate::tile::in_bounds;
use crate::messages::Messages;
use crate::object::Object;
use crate::object::obj_wf;
use crate::INVENTORY_CAP;
use crate::MAP_WIDTH;
use crate::MAP_HEIGHT;
use crate::OBJECT_CAP;
use crate::STAT_LIMIT;

verus! {

/// Everything of a session that is not the object list: the level's
/// tiles, the message log, the carried items and the current depth.
#[derive(Debug, PartialEq)]
pub struct Game {
    pub map: TileMap,
    pub messages: Messages,
    pub inventory: Vec<Object>,
    pub dungeon_level: u32,
}

/// Every tile on the border of the map is a wall. Generation never
/// carves the border, so anything standing on a walkable tile is
/// strictly inside it.
pub open spec fn map_walled(map: TileMap) -> bool {
    forall|x: int, y: int|
        in_bounds(x, y) && (x == 0 || x == MAP_WIDTH - 1 || y == 0 || y == MAP_HEIGHT - 1)
            ==> (#[trigger] map.at(x, y)).blocked
}

/// Store-level invariant of the object list:
/// - the player is entry 0, always fighter-bearing, with the player's
///   death transition and no monster behaviour;
/// - monsters that still fight are alive and die the monster way;
/// - while the player lives, every monster's banked experience is within
///   `STAT_LIMIT` (a monster's bank only changes by killing the player).
pub open spec fn objects_wf(objs: Seq<Object>) -> bool {
    &&& 1 <= objs.len() <= OBJECT_CAP
    &&& forall|i: int| 0 <= i < objs.len() ==> obj_wf(#[trigger] objs[i])
    &&& objs[0].fighter is Some
    &&& objs[0].fighter.unwrap().on_death is Player
    &&& objs[0].ai is None
    &&& forall|i: int|
        1 <= i < objs.len() ==> ((#[trigger] objs[i]).fighter is Some ==> objs[i].alive
            && objs[i].fighter.unwrap().on_death is Monster)
    &&& (objs[0].alive ==> forall|i: int|
        1 <= i < objs.len() ==> ((#[trigger] objs[i]).fighter is Some
            ==> objs[i].fighter.unwrap().xp <= STAT_LIMIT))
}

/// Every object stands on a walkable tile of the map.
pub open spec fn objects_on_map(objs: Seq<Object>, map: TileMap) -> bool {
    forall|i: int|
        0 <= i < objs.len() ==> {
            &&& in_bounds((#[trigger] objs[i]).x as int, objs[i].y as int)
            &&& !map.at(objs[i].x as int, objs[i].y as int).blocked
        }
}

/// The whole-session invariant.
pub open spec fn game_wf(game: Game, objs: Seq<Object>) -> bool {
    &&& game.map.wf()
    &&& map_walled(game.map)
    &&& objects_wf(objs)
    &&& objects_on_map(objs, game.map)
    &&& game.inventory@.len() <= INVENTORY_CAP
    &&& forall|i: int| 0 <= i < game.inventory@.len() ==> obj_wf(#[trigger] game.inventory@[i])
}

/// A walkable tile of a border-walled map is strictly inside the border,
/// so every single step from it stays on the map.
pub proof fn lemma_walkable_is_interior(map: TileMap, x: int, y: int)
    requires
        map_walled(map),
        in_bounds(x, y),
        !map.at(x, y).blocked,
    ensures
        1 <= x < MAP_WIDTH - 1,
        1 <= y < MAP_HEIGHT - 1,
{
    assert(map.at(x, y).blocked || (1 <= x < MAP_WIDTH - 1 && 1 <= y < MAP_HEIGHT - 1));
}

} // verus!
