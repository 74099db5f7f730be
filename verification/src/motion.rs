//! Movement across the level: blocking queries, single steps, chasing
//! steps, and the player's move-or-attack turn.

use vstd::prelude::*;
use crate::tile::TileMap;
use crate::tile::in_bounds;
use crate::messages::Messages;
use crate::object::Object;
use crate::object::obj_wf;
use crate::object::attack_rel;
use crate::game::Game;
use crate::game::game_wf;
use crate::game::lemma_walkable_is_interior;
use crate::PLAYER;
use crate::XP_LIMIT;

verus! {

/// Whether `(x, y)` cannot be stepped on: a blocked tile, or any
/// blocking object standing there.
pub open spec fn spec_is_blocked(x: int, y: int, map: TileMap, objs: Seq<Object>) -> bool {
    ||| map.at(x, y).blocked
    ||| exists|i: int|
        0 <= i < objs.len() && (#[trigger] objs[i]).blocks && objs[i].x == x && objs[i].y == y
}

/// First object with a fighter standing at `(x, y)`, scanning from `i`.
pub open spec fn first_fighter_at_from(objs: Seq<Object>, x: int, y: int, i: int) -> Option<int>
    decreases objs.len() - i,
{
    if i < 0 || i >= objs.len() {
        None
    } else if objs[i].fighter is Some && objs[i].x == x && objs[i].y == y {
        Some(i)
    } else {
        first_fighter_at_from(objs, x, y, i + 1)
    }
}

/// First object with a fighter standing at `(x, y)`, if any.
pub open spec fn first_fighter_at(objs: Seq<Object>, x: int, y: int) -> Option<int> {
    first_fighter_at_from(objs, x, y, 0)
}

/// The unit step that chases `(dx, dy)`: each axis moves by one tile
/// exactly when its share of the displacement, normalized to the
/// displacement's length, rounds away from zero.
pub open spec fn step_toward(dx: int, dy: int) -> (int, int) {
    (
        if 4 * (dx * dx) >= dx * dx + dy * dy {
            if dx > 0 {
                1int
            } else if dx < 0 {
                -1int
            } else {
                0int
            }
        } else {
            0int
        },
        if 4 * (dy * dy) >= dx * dx + dy * dy {
            if dy > 0 {
                1int
            } else if dy < 0 {
                -1int
            } else {
                0int
            }
        } else {
            0int
        },
    )
}

/// Whether `(x, y)` is blocked, by the map or by a blocking object.
pub fn is_blocked(x: i32, y: i32, map: &TileMap, objects: &Vec<Object>) -> (r: bool)
    requires
        map.wf(),
        in_bounds(x as int, y as int),
    ensures
        r == spec_is_blocked(x as int, y as int, *map, objects@),
{
    if map.get(x, y).blocked {
        return true;
    }
    let n = objects.len();
    let mut i: usize = 0;
    while i < n
        invariant
            n == objects@.len(),
            i <= n,
            forall|j: int|
                0 <= j < i ==> !((#[trigger] objects@[j]).blocks && objects@[j].x == x
                    && objects@[j].y == y),
        decreases n - i,
    {
        let o = &objects[i];
        if o.blocks && o.x == x && o.y == y {
            return true;
        }
        i = i + 1;
    }
    false
}

/// Move the object by the given amount if the destination is free.
pub fn move_by(id: usize, dx: i32, dy: i32, map: &TileMap, objects: &mut Vec<Object>)
    requires
        map.wf(),
        id < old(objects)@.len(),
        in_bounds(old(objects)@[id as int].x + dx, old(objects)@[id as int].y + dy),
    ensures
        ({
            let nx = old(objects)@[id as int].x + dx;
            let ny = old(objects)@[id as int].y + dy;
            if !spec_is_blocked(nx, ny, *map, old(objects)@) {
                final(objects)@ == old(objects)@.update(
                    id as int,
                    Object { x: nx as i32, y: ny as i32, ..old(objects)@[id as int] },
                )
            } else {
                final(objects)@ == old(objects)@
            }
        }),
{
    let (x, y) = objects[id].pos();
    let nx = x + dx;
    let ny = y + dy;
    if !is_blocked(nx, ny, map, objects) {
        let o = &mut objects[id];
        o.set_pos(nx, ny);
    }
}

/// One step of a monster chasing a target tile: the displacement is
/// normalized to a unit step per axis, rounding away from zero, and the
/// step is taken only onto a free tile.
pub fn move_towards(id: usize, target_x: i32, target_y: i32, map: &TileMap, objects: &mut Vec<
    Object,
>)
    requires
        map.wf(),
        id < old(objects)@.len(),
        in_bounds(old(objects)@[id as int].x as int, old(objects)@[id as int].y as int),
        in_bounds(target_x as int, target_y as int),
        1 <= old(objects)@[id as int].x < crate::MAP_WIDTH - 1,
        1 <= old(objects)@[id as int].y < crate::MAP_HEIGHT - 1,
    ensures
        ({
            let (sx, sy) = step_toward(
                target_x - old(objects)@[id as int].x,
                target_y - old(objects)@[id as int].y,
            );
            let nx = old(objects)@[id as int].x + sx;
            let ny = old(objects)@[id as int].y + sy;
            if !spec_is_blocked(nx, ny, *map, old(objects)@) {
                final(objects)@ == old(objects)@.update(
                    id as int,
                    Object { x: nx as i32, y: ny as i32, ..old(objects)@[id as int] },
                )
            } else {
                final(objects)@ == old(objects)@
            }
        }),
{
    let dx = target_x - objects[id].x;
    let dy = target_y - objects[id].y;
    let dxl = dx as i64;
    let dyl = dy as i64;
    proof {
        assert(-100 <= dxl <= 100 && -100 <= dyl <= 100);
        assert(0 <= dxl * dxl <= 10000) by (nonlinear_arith)
            requires
                -100 <= dxl <= 100,
        ;
        assert(0 <= dyl * dyl <= 10000) by (nonlinear_arith)
            requires
                -100 <= dyl <= 100,
        ;
    }
    let dx2 = dxl * dxl;
    let dy2 = dyl * dyl;
    let sx: i32 = if 4 * dx2 >= dx2 + dy2 {
        if dx > 0 {
            1
        } else if dx < 0 {
            -1
        } else {
            0
        }
    } else {
        0
    };
    let sy: i32 = if 4 * dy2 >= dx2 + dy2 {
        if dy > 0 {
            1
        } else if dy < 0 {
            -1
        } else {
            0
        }
    } else {
        0
    };
    proof {
        let sdx = target_x - objects@[id as int].x;
        let sdy = target_y - objects@[id as int].y;
        assert(dxl == sdx && dyl == sdy);
        assert(dxl * dxl == sdx * sdx && dyl * dyl == sdy * sdy);
        assert(sx == step_toward(sdx, sdy).0 && sy == step_toward(sdx, sdy).1);
    }
    move_by(id, sx, sy, map, objects);
}

/// One melee attack between two distinct entries of the object list.
/// The rest of the list is untouched.
pub fn attack_by_ids(
    objects: &mut Vec<Object>,
    attacker: usize,
    defender: usize,
    messages: &mut Messages,
)
    requires
        attacker != defender,
        attacker < old(objects)@.len(),
        defender < old(objects)@.len(),
        obj_wf(old(objects)@[attacker as int]),
        obj_wf(old(objects)@[defender as int]),
        old(objects)@[defender as int].fighter is Some ==> old(objects)@[defender as int].alive,
        (old(objects)@[attacker as int].fighter is Some && old(objects)@[defender as int].fighter
            is Some) ==> old(objects)@[attacker as int].fighter.unwrap().xp + old(
            objects,
        )@[defender as int].fighter.unwrap().xp <= i32::MAX,
    ensures
        final(objects)@.len() == old(objects)@.len(),
        attack_rel(
            old(objects)@[attacker as int],
            old(objects)@[defender as int],
            final(objects)@[attacker as int],
            final(objects)@[defender as int],
            *old(messages),
            *final(messages),
        ),
        forall|i: int|
            0 <= i < old(objects)@.len() && i != attacker && i != defender
                ==> final(objects)@[i] == #[trigger] old(objects)@[i],
        obj_wf(final(objects)@[attacker as int]),
        obj_wf(final(objects)@[defender as int]),
{
    let ghost orig = objects@;
    let mut target = objects.remove(defender);
    let shifted: usize = if attacker > defender {
        attacker - 1
    } else {
        attacker
    };
    let mut striker = objects.remove(shifted);
    striker.attack(&mut target, messages);
    objects.insert(shifted, striker);
    objects.insert(defender, target);
    proof {
        assert forall|i: int|
            0 <= i < orig.len() && i != attacker && i != defender implies objects@[i]
            == #[trigger] orig[i] by {}
        assert(objects@[attacker as int] == striker);
        assert(objects@[defender as int] == target);
        assert(objects@.len() == orig.len());
    }
}

/// First object with a fighter standing at `(x, y)`, if any.
pub fn find_fighter_at(objects: &Vec<Object>, x: i32, y: i32) -> (r: Option<usize>)
    ensures
        first_fighter_at(objects@, x as int, y as int) == (match r {
            Some(u) => Some(u as int),
            None => None::<int>,
        }),
        r matches Some(u) ==> u < objects@.len() && objects@[u as int].fighter is Some
            && objects@[u as int].x == x && objects@[u as int].y == y,
{
    let n = objects.len();
    let mut i: usize = 0;
    while i < n
        invariant
            n == objects@.len(),
            0 <= i <= n,
            first_fighter_at(objects@, x as int, y as int) == first_fighter_at_from(
                objects@,
                x as int,
                y as int,
                i as int,
            ),
        decreases n - i,
    {
        let o = &objects[i];
        if o.fighter.is_some() && o.x == x && o.y == y {
            return Some(i);
        }
        i = i + 1;
    }
    None
}

/// The player's turn when a direction is chosen: attack the first
/// fighter on the destination tile, else step onto it if it is free.
pub fn player_move_or_attack(dx: i32, dy: i32, game: &mut Game, objects: &mut Vec<Object>)
    requires
        game_wf(*old(game), old(objects)@),
        -1 <= dx <= 1,
        -1 <= dy <= 1,
        !(dx == 0 && dy == 0),
        old(objects)@[PLAYER as int].alive,
        old(objects)@[PLAYER as int].fighter.unwrap().xp <= XP_LIMIT,
    ensures
        final(game).map == old(game).map,
        final(game).inventory == old(game).inventory,
        final(game).dungeon_level == old(game).dungeon_level,
        final(objects)@.len() == old(objects)@.len(),
        ({
            let px = old(objects)@[PLAYER as int].x as int;
            let py = old(objects)@[PLAYER as int].y as int;
            let tx = px + dx;
            let ty = py + dy;
            match first_fighter_at(old(objects)@, tx, ty) {
                Some(t) => {
                    &&& attack_rel(
                        old(objects)@[PLAYER as int],
                        old(objects)@[t],
                        final(objects)@[PLAYER as int],
                        final(objects)@[t],
                        old(game).messages,
                        final(game).messages,
                    )
                    &&& forall|i: int|
                        0 <= i < old(objects)@.len() && i != PLAYER && i != t
                            ==> final(objects)@[i] == #[trigger] old(objects)@[i]
                },
                None => {
                    &&& final(game).messages == old(game).messages
                    &&& (if !spec_is_blocked(tx, ty, old(game).map, old(objects)@) {
                        final(objects)@ == old(objects)@.update(
                            PLAYER as int,
                            Object { x: tx as i32, y: ty as i32, ..old(objects)@[PLAYER as int] },
                        )
                    } else {
                        final(objects)@ == old(objects)@
                    })
                },
            }
        }),
{
    proof {
        lemma_walkable_is_interior(
            game.map,
            objects@[PLAYER as int].x as int,
            objects@[PLAYER as int].y as int,
        );
    }
    let x = objects[PLAYER].x + dx;
    let y = objects[PLAYER].y + dy;

    let target_id = find_fighter_at(objects, x, y);

    match target_id {
        Some(t) => {
            attack_by_ids(objects, PLAYER, t, &mut game.messages);
        },
        None => {
            move_by(PLAYER, dx, dy, &game.map, objects);
        },
    }
}


/// Squared Euclidean distance between two tiles.
pub open spec fn spec_dist_sq(ax: int, ay: int, bx: int, by: int) -> int {
    (bx - ax) * (bx - ax) + (by - ay) * (by - ay)
}

/// Squared Euclidean distance between two on-map positions.
pub fn dist_sq(ax: i32, ay: i32, bx: i32, by: i32) -> (r: i64)
    requires
        in_bounds(ax as int, ay as int),
        in_bounds(bx as int, by as int),
    ensures
        r == spec_dist_sq(ax as int, ay as int, bx as int, by as int),
        0 <= r <= 20000,
{
    let dx = (bx - ax) as i64;
    let dy = (by - ay) as i64;
    proof {
        assert(-100 <= dx <= 100 && -100 <= dy <= 100);
        assert(0 <= dx * dx <= 10000) by (nonlinear_arith)
            requires
                -100 <= dx <= 100,
        ;
        assert(0 <= dy * dy <= 10000) by (nonlinear_arith)
            requires
                -100 <= dy <= 100,
        ;
    }
    dx * dx + dy * dy
}

} // verus!
