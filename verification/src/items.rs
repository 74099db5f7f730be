//! Items: picking up and dropping, targeting checks, and the use-effects
//! of the four item kinds.

use vstd::prelude::*;
use crate::tile::in_bounds;
use crate::messages::ColorCode;
use crate::messages::Messages;
use crate::messages::i32_string;
use crate::messages::spec_dec_i32;
use crate::object::Ai;
use crate::object::Fighter;
use crate::object::DeathCallback;
use crate::object::Item;
use crate::object::Object;
use crate::object::obj_wf;
use crate::object::kills;
use crate::object::spec_damaged;
use crate::object::logged;
use crate::object::logged2;
use crate::object::monster_death_msg;
use crate::game::Game;
use crate::game::game_wf;
use crate::fov::VisGrid;
use crate::motion::spec_dist_sq;
use crate::motion::dist_sq;
use crate::INVENTORY_CAP;
use crate::OBJECT_CAP;
use crate::PLAYER;
use crate::XP_LIMIT;

verus! {

/// Whether using an item consumed it or was abandoned.
#[derive(Clone, Copy, Debug, PartialEq, Eq, Structural)]
pub enum UseResult {
    UsedUp,
    Cancelled,
}

/// The scan for the closest eligible monster: fighter-bearing, behaving,
/// visible, and strictly closer than everything accepted so far.
pub open spec fn closest_scan(
    objs: Seq<Object>,
    fov: VisGrid,
    px: int,
    py: int,
    i: int,
    best: Option<int>,
    best_d2: int,
) -> Option<int>
    decreases objs.len() - i,
{
    if i < 0 || i >= objs.len() {
        best
    } else {
        let o = objs[i];
        if i != PLAYER && o.fighter is Some && o.ai is Some && fov.at(o.x as int, o.y as int)
            && spec_dist_sq(px, py, o.x as int, o.y as int) < best_d2 {
            closest_scan(
                objs,
                fov,
                px,
                py,
                i + 1,
                Some(i),
                spec_dist_sq(px, py, o.x as int, o.y as int),
            )
        } else {
            closest_scan(objs, fov, px, py, i + 1, best, best_d2)
        }
    }
}

/// The closest visible fighter-bearing monster within `range` of the
/// player, ties going to the earlier entry.
pub open spec fn closest_monster_spec(
    objs: Seq<Object>,
    fov: VisGrid,
    range: int,
) -> Option<int> {
    closest_scan(
        objs,
        fov,
        objs[PLAYER as int].x as int,
        objs[PLAYER as int].y as int,
        0,
        None,
        (range + 1) * (range + 1),
    )
}

/// Find the closest monster eligible for a lightning strike.
pub fn closest_monster(fov: &VisGrid, objects: &Vec<Object>, max_range: i32) -> (r: Option<usize>)
    requires
        fov.wf(),
        objects@.len() >= 1,
        0 <= max_range <= 100,
        forall|i: int|
            0 <= i < objects@.len() ==> in_bounds(
                (#[trigger] objects@[i]).x as int,
                objects@[i].y as int,
            ),
    ensures
        closest_monster_spec(objects@, *fov, max_range as int) == (match r {
            Some(u) => Some(u as int),
            None => None::<int>,
        }),
        r matches Some(u) ==> u < objects@.len(),
{
    let px = objects[PLAYER].x;
    let py = objects[PLAYER].y;
    let mut best: Option<usize> = None;
    let mr1 = (max_range + 1) as i64;
    proof {
        assert(0 <= mr1 * mr1 <= 20000) by (nonlinear_arith)
            requires
                1 <= mr1 <= 101,
        ;
    }
    let mut best_d2: i64 = mr1 * mr1;
    let n = objects.len();
    let mut i: usize = 0;
    while i < n
        invariant
            fov.wf(),
            n == objects@.len(),
            n >= 1,
            i <= n,
            px == objects@[PLAYER as int].x,
            py == objects@[PLAYER as int].y,
            0 <= best_d2 <= 20001 * 20001,
            forall|k: int|
                0 <= k < objects@.len() ==> in_bounds(
                    (#[trigger] objects@[k]).x as int,
                    objects@[k].y as int,
                ),
            best matches Some(u) ==> u < objects@.len(),
            closest_monster_spec(objects@, *fov, max_range as int) == closest_scan(
                objects@,
                *fov,
                px as int,
                py as int,
                i as int,
                match best {
                    Some(u) => Some(u as int),
                    None => None::<int>,
                },
                best_d2 as int,
            ),
        decreases n - i,
    {
        let o = &objects[i];
        if i != PLAYER && o.fighter.is_some() && o.ai.is_some() && fov.is_visible(o.x, o.y) {
            let d2 = dist_sq(px, py, o.x, o.y);
            if d2 < best_d2 {
                best = Some(i);
                best_d2 = d2;
            }
        }
        i = i + 1;
    }
    best
}

/// Whether a selected tile is a lawful target: on the map, inside the
/// player's current field of view, and within the given range of the
/// player if one is required.
pub open spec fn tile_target_ok(
    x: int,
    y: int,
    fov: VisGrid,
    objs: Seq<Object>,
    max_range: Option<i32>,
) -> bool {
    &&& in_bounds(x, y)
    &&& fov.at(x, y)
    &&& (max_range matches Some(r) ==> spec_dist_sq(
        objs[PLAYER as int].x as int,
        objs[PLAYER as int].y as int,
        x,
        y,
    ) <= r * r)
}

/// Check a selected tile against the targeting rules.
pub fn target_tile_valid(
    x: i32,
    y: i32,
    fov: &VisGrid,
    objects: &Vec<Object>,
    max_range: Option<i32>,
) -> (r: bool)
    requires
        fov.wf(),
        objects@.len() >= 1,
        in_bounds(objects@[PLAYER as int].x as int, objects@[PLAYER as int].y as int),
        max_range matches Some(rg) ==> 0 <= rg <= 100,
    ensures
        r == tile_target_ok(x as int, y as int, *fov, objects@, max_range),
{
    if !(0 <= x && x < crate::MAP_WIDTH && 0 <= y && y < crate::MAP_HEIGHT) {
        return false;
    }
    if !fov.is_visible(x, y) {
        return false;
    }
    match max_range {
        None => true,
        Some(range) => {
            let d2 = dist_sq(objects[PLAYER].x, objects[PLAYER].y, x, y);
            let rl = range as i64;
            proof {
                assert(0 <= rl * rl <= 10000) by (nonlinear_arith)
                    requires
                        0 <= rl <= 100,
                ;
            }
            let r2 = rl * rl;
            d2 <= r2
        },
    }
}

/// First monster (never the player) with a fighter standing at `(x, y)`,
/// scanning from `i`.
pub open spec fn first_monster_at_from(objs: Seq<Object>, x: int, y: int, i: int) -> Option<int>
    decreases objs.len() - i,
{
    if i < 0 || i >= objs.len() {
        None
    } else if i != PLAYER && objs[i].fighter is Some && objs[i].x == x && objs[i].y == y {
        Some(i)
    } else {
        first_monster_at_from(objs, x, y, i + 1)
    }
}

/// First monster with a fighter standing at the selected tile, if any.
pub fn monster_at(objects: &Vec<Object>, x: i32, y: i32) -> (r: Option<usize>)
    ensures
        first_monster_at_from(objects@, x as int, y as int, 0) == (match r {
            Some(u) => Some(u as int),
            None => None::<int>,
        }),
        r matches Some(u) ==> 0 < u < objects@.len() || (u < objects@.len() && u != PLAYER),
{
    let n = objects.len();
    let mut i: usize = 0;
    while i < n
        invariant
            n == objects@.len(),
            i <= n,
            first_monster_at_from(objects@, x as int, y as int, 0) == first_monster_at_from(
                objects@,
                x as int,
                y as int,
                i as int,
            ),
        decreases n - i,
    {
        let o = &objects[i];
        if i != PLAYER && o.fighter.is_some() && o.x == x && o.y == y {
            return Some(i);
        }
        i = i + 1;
    }
    None
}

/// Move the item at `object_id` from the map into the inventory, unless
/// the inventory is at its cap. The last list entry takes the freed slot.
pub fn pick_item_up(object_id: usize, game: &mut Game, objects: &mut Vec<Object>)
    requires
        game_wf(*old(game), old(objects)@),
        0 < object_id < old(objects)@.len(),
        old(objects)@[object_id as int].fighter is None,
        old(objects)@[object_id as int].ai is None,
    ensures
        game_wf(*final(game), final(objects)@),
        final(game).map == old(game).map,
        final(game).dungeon_level == old(game).dungeon_level,
        if old(game).inventory@.len() >= INVENTORY_CAP {
            &&& final(objects)@ == old(objects)@
            &&& final(game).inventory == old(game).inventory
            &&& logged(
                old(game).messages,
                final(game).messages,
                "Your inventory is full, cannot pick up "@ + old(
                    objects,
                )@[object_id as int].name@ + "."@,
                ColorCode::Red,
            )
        } else {
            &&& final(objects)@ == old(objects)@.update(
                object_id as int,
                old(objects)@.last(),
            ).drop_last()
            &&& final(game).inventory@ == old(game).inventory@.push(
                old(objects)@[object_id as int],
            )
            &&& logged(
                old(game).messages,
                final(game).messages,
                "You picked up a "@ + old(objects)@[object_id as int].name@ + "!"@,
                ColorCode::Green,
            )
        },
{
    if game.inventory.len() >= INVENTORY_CAP {
        let text = "Your inventory is full, cannot pick up "
            .to_owned()
            .concat(objects[object_id].name.as_str())
            .concat(".");
        proof {
            assert(text@ =~= "Your inventory is full, cannot pick up "@ + objects@[object_id as int].name@
                + "."@);
        }
        game.messages.add(text, ColorCode::Red);
    } else {
        let item = objects.swap_remove(object_id);
        let text = "You picked up a ".to_owned().concat(item.name.as_str()).concat("!");
        proof {
            assert(text@ =~= "You picked up a "@ + old(objects)@[object_id as int].name@ + "!"@);
        }
        game.messages.add(text, ColorCode::Green);
        game.inventory.push(item);
        proof {
            assert forall|i: int|
                0 <= i < objects@.len() implies obj_wf(#[trigger] objects@[i]) && in_bounds(
                objects@[i].x as int,
                objects@[i].y as int,
            ) && !game.map.at(objects@[i].x as int, objects@[i].y as int).blocked by {
                assert(objects@[i] == old(objects)@[i] || objects@[i] == old(objects)@.last());
            }
            assert forall|i: int|
                1 <= i < objects@.len() && (#[trigger] objects@[i]).fighter is Some
                implies objects@[i].alive && objects@[i].fighter.unwrap().on_death is Monster by {
                assert(objects@[i] == old(objects)@[i] || objects@[i] == old(objects)@.last());
            }
            if objects@[PLAYER as int].alive {
                assert forall|i: int|
                    1 <= i < objects@.len() && (#[trigger] objects@[i]).fighter is Some
                    implies objects@[i].fighter.unwrap().xp <= crate::STAT_LIMIT by {
                    assert(objects@[i] == old(objects)@[i] || objects@[i] == old(
                        objects,
                    )@.last());
                }
            }
        }
    }
}

/// Take the item out of the inventory slot and set it down on the
/// player's tile.
pub fn drop_item(inventory_id: usize, game: &mut Game, objects: &mut Vec<Object>)
    requires
        game_wf(*old(game), old(objects)@),
        inventory_id < old(game).inventory@.len(),
        old(game).inventory@[inventory_id as int].fighter is None,
        old(game).inventory@[inventory_id as int].ai is None,
        old(objects)@.len() < OBJECT_CAP,
    ensures
        game_wf(*final(game), final(objects)@),
        final(game).map == old(game).map,
        final(game).dungeon_level == old(game).dungeon_level,
        final(game).inventory@ == old(game).inventory@.remove(inventory_id as int),
        final(objects)@ == old(objects)@.push(
            Object {
                x: old(objects)@[PLAYER as int].x,
                y: old(objects)@[PLAYER as int].y,
                ..old(game).inventory@[inventory_id as int]
            },
        ),
        logged(
            old(game).messages,
            final(game).messages,
            "You dropped a "@ + old(game).inventory@[inventory_id as int].name@ + "."@,
            ColorCode::Yellow,
        ),
{
    let mut item = game.inventory.remove(inventory_id);
    let (px, py) = objects[PLAYER].pos();
    item.set_pos(px, py);
    let text = "You dropped a ".to_owned().concat(item.name.as_str()).concat(".");
    proof {
        assert(text@ =~= "You dropped a "@ + old(game).inventory@[inventory_id as int].name@
            + "."@);
    }
    game.messages.add(text, ColorCode::Yellow);
    objects.push(item);
    proof {
        assert(objects@.last().fighter is None);
        assert forall|i: int|
            0 <= i < objects@.len() implies obj_wf(#[trigger] objects@[i]) && in_bounds(
            objects@[i].x as int,
            objects@[i].y as int,
        ) && !game.map.at(objects@[i].x as int, objects@[i].y as int).blocked by {
            if i < objects@.len() - 1 {
                assert(objects@[i] == old(objects)@[i]);
            }
        }
        assert forall|i: int|
            1 <= i < objects@.len() && (#[trigger] objects@[i]).fighter is Some
            implies objects@[i].alive && objects@[i].fighter.unwrap().on_death is Monster by {
            if i < objects@.len() - 1 {
                assert(objects@[i] == old(objects)@[i]);
            }
        }
        if objects@[PLAYER as int].alive {
            assert forall|i: int|
                1 <= i < objects@.len() && (#[trigger] objects@[i]).fighter is Some
                implies objects@[i].fighter.unwrap().xp <= crate::STAT_LIMIT by {
                if i < objects@.len() - 1 {
                    assert(objects@[i] == old(objects)@[i]);
                }
            }
        }
    }
}


/// What the player selected for an item that needs a target.
#[derive(Clone, Copy, Debug, PartialEq, Eq, Structural)]
pub enum TargetChoice {
    Untargeted,
    MonsterChosen(usize),
    TileChosen(i32, i32),
    Abandoned,
}

/// Whether healing is refused: only at full health.
pub open spec fn heal_cancels(objs0: Seq<Object>) -> bool {
    objs0[PLAYER as int].fighter.unwrap().hp == objs0[PLAYER as int].fighter.unwrap().max_hp
}

/// The object changes of one healing-potion use.
pub open spec fn heal_objs(objs0: Seq<Object>, objs1: Seq<Object>) -> bool {
    if heal_cancels(objs0) {
        objs1 == objs0
    } else {
        ({
            let f = objs0[PLAYER as int].fighter.unwrap();
            objs1 == objs0.update(
                PLAYER as int,
                Object {
                    fighter: Some(
                        Fighter {
                            hp: (if f.hp + crate::HEAL_AMOUNT > f.max_hp {
                                f.max_hp as int
                            } else {
                                f.hp + crate::HEAL_AMOUNT
                            }) as i32,
                            ..f
                        },
                    ),
                    ..objs0[PLAYER as int]
                },
            )
        })
    }
}

/// Heal the player by a fixed amount, capped at the maximum; refused at
/// full health, with the potion retained.
pub fn cast_heal(game: &mut Game, objects: &mut Vec<Object>) -> (res: UseResult)
    requires
        game_wf(*old(game), old(objects)@),
        old(objects)@[PLAYER as int].alive,
    ensures
        game_wf(*final(game), final(objects)@),
        final(game).map == old(game).map,
        final(game).inventory == old(game).inventory,
        final(game).dungeon_level == old(game).dungeon_level,
        heal_objs(old(objects)@, final(objects)@),
        res == (if heal_cancels(old(objects)@) {
            UseResult::Cancelled
        } else {
            UseResult::UsedUp
        }),
        heal_cancels(old(objects)@) ==> logged(
            old(game).messages,
            final(game).messages,
            "You are already at full health."@,
            ColorCode::Red,
        ),
        !heal_cancels(old(objects)@) ==> logged(
            old(game).messages,
            final(game).messages,
            "Your wounds start to feel better!"@,
            ColorCode::LightViolet,
        ),
{
    let full = match objects[PLAYER].fighter {
        Some(f) => f.hp == f.max_hp,
        None => true,
    };
    if full {
        game.messages.add("You are already at full health.".to_owned(), ColorCode::Red);
        return UseResult::Cancelled;
    }
    game.messages.add("Your wounds start to feel better!".to_owned(), ColorCode::LightViolet);
    {
        let o = &mut objects[PLAYER];
        o.heal(crate::HEAL_AMOUNT);
    }
    proof {
        lemma_pair_update_keeps_wf(*old(game), *game, old(objects)@, objects@, PLAYER as int);
    }
    UseResult::UsedUp
}

/// The message a lightning strike logs.
pub open spec fn zap_msg(name: Seq<char>) -> Seq<char> {
    "A lightning bolt strikes the "@ + name + " with a loud thunder! The damage is "@
        + spec_dec_i32(crate::LIGHTNING_DAMAGE as int) + " hit points."@
}

/// The object changes of one lightning-bolt use on target `mid`.
pub open spec fn lightning_objs(objs0: Seq<Object>, objs1: Seq<Object>, mid: int) -> bool {
    let m = objs0[mid];
    let f = m.fighter.unwrap();
    if !kills(f, crate::LIGHTNING_DAMAGE as int) {
        objs1 == objs0.update(mid, spec_damaged(m, f, crate::LIGHTNING_DAMAGE as int))
    } else {
        &&& objs1.len() == objs0.len()
        &&& forall|i: int|
            0 <= i < objs0.len() && i != mid && i != PLAYER ==> objs1[i] == #[trigger] objs0[i]
        &&& objs1[mid].x == m.x
        &&& objs1[mid].y == m.y
        &&& objs1[mid].glyph == '%'
        &&& objs1[mid].color == ColorCode::DarkRed
        &&& objs1[mid].blocks == false
        &&& objs1[mid].alive == false
        &&& objs1[mid].name@ == "remains of "@ + m.name@
        &&& objs1[mid].fighter is None
        &&& objs1[mid].ai is None
        &&& objs1[mid].item == m.item
        &&& objs1[PLAYER as int] == (Object {
            fighter: Some(
                Fighter {
                    xp: (objs0[PLAYER as int].fighter.unwrap().xp + f.xp) as i32,
                    ..objs0[PLAYER as int].fighter.unwrap()
                },
            ),
            ..objs0[PLAYER as int]
        })
    }
}

/// Strike the closest visible monster in range with a fixed-damage bolt.
/// With no eligible monster the scroll is retained.
pub fn cast_lightning(game: &mut Game, objects: &mut Vec<Object>, fov: &VisGrid) -> (res:
    UseResult)
    requires
        game_wf(*old(game), old(objects)@),
        fov.wf(),
        old(objects)@[PLAYER as int].alive,
        old(objects)@[PLAYER as int].fighter.unwrap().xp <= XP_LIMIT,
    ensures
        game_wf(*final(game), final(objects)@),
        final(game).map == old(game).map,
        final(game).inventory == old(game).inventory,
        final(game).dungeon_level == old(game).dungeon_level,
        ({
            let found = closest_monster_spec(old(objects)@, *fov, crate::LIGHTNING_RANGE as int);
            match found {
                None => {
                    &&& res == UseResult::Cancelled
                    &&& final(objects)@ == old(objects)@
                    &&& logged(
                        old(game).messages,
                        final(game).messages,
                        "No enemy is close enough to strike."@,
                        ColorCode::Red,
                    )
                },
                Some(mid) => {
                    let f = old(objects)@[mid].fighter.unwrap();
                    &&& res == UseResult::UsedUp
                    &&& lightning_objs(old(objects)@, final(objects)@, mid)
                    &&& (if !kills(f, crate::LIGHTNING_DAMAGE as int) {
                        logged(
                            old(game).messages,
                            final(game).messages,
                            zap_msg(old(objects)@[mid].name@),
                            ColorCode::LightBlue,
                        )
                    } else {
                        logged2(
                            old(game).messages,
                            final(game).messages,
                            zap_msg(old(objects)@[mid].name@),
                            ColorCode::LightBlue,
                            monster_death_msg(old(objects)@[mid].name@, f.xp as int),
                            ColorCode::Orange,
                        )
                    })
                },
            }
        }),
{
    proof {
        lemma_closest_scan_props(
            objects@,
            *fov,
            objects@[PLAYER as int].x as int,
            objects@[PLAYER as int].y as int,
            0,
            None,
            (crate::LIGHTNING_RANGE + 1) * (crate::LIGHTNING_RANGE + 1),
        );
    }
    let found = closest_monster(fov, objects, crate::LIGHTNING_RANGE);
    match found {
        None => {
            game.messages.add("No enemy is close enough to strike.".to_owned(), ColorCode::Red);
            UseResult::Cancelled
        },
        Some(monster_id) => {
            let text = "A lightning bolt strikes the "
                .to_owned()
                .concat(objects[monster_id].name.as_str())
                .concat(" with a loud thunder! The damage is ")
                .concat(i32_string(crate::LIGHTNING_DAMAGE).as_str())
                .concat(" hit points.");
            proof {
                assert(text@ =~= zap_msg(objects@[monster_id as int].name@));
            }
            game.messages.add(text, ColorCode::LightBlue);
            let ghost mid_log = game.messages;
            let hit = {
                let o = &mut objects[monster_id];
                o.take_damage(crate::LIGHTNING_DAMAGE, &mut game.messages)
            };
            if let Some(xp) = hit {
                let pf = match objects[PLAYER].fighter {
                    Some(f) => f,
                    None => Fighter {
                        max_hp: 1,
                        hp: 1,
                        defense: 0,
                        power: 0,
                        xp: 0,
                        on_death: DeathCallback::Player,
                    },
                };
                let mut updated = pf;
                updated.xp = updated.xp + xp;
                let o = &mut objects[PLAYER];
                o.fighter = Some(updated);
            }
            proof {
                let pre = old(game).messages.messages@;
                assert forall|i: int| 0 <= i < pre.len() implies game.messages.messages@[i]
                    == #[trigger] pre[i] by {
                    assert(game.messages.messages@[i] == mid_log.messages@[i]);
                    assert(mid_log.messages@[i] == pre[i]);
                }
                assert(game.messages.messages@[pre.len() as int] == mid_log.messages@[pre.len() as int]);
                lemma_pair_update_keeps_wf(
                    *old(game),
                    *game,
                    old(objects)@,
                    objects@,
                    monster_id as int,
                );
            }
            UseResult::UsedUp
        },
    }
}

/// Whatever `closest_scan` returns, starting from an eligible candidate
/// or none, is an eligible monster entry.
pub proof fn lemma_closest_scan_props(
    objs: Seq<Object>,
    fov: VisGrid,
    px: int,
    py: int,
    i: int,
    best: Option<int>,
    best_d2: int,
)
    requires
        best matches Some(b) ==> 0 <= b < objs.len() && b != PLAYER && objs[b].fighter is Some
            && objs[b].ai is Some,
    ensures
        closest_scan(objs, fov, px, py, i, best, best_d2) matches Some(j) ==> 0 <= j < objs.len()
            && j != PLAYER && objs[j].fighter is Some && objs[j].ai is Some,
    decreases objs.len() - i,
{
    if 0 <= i < objs.len() {
        let o = objs[i];
        if i != PLAYER && o.fighter is Some && o.ai is Some && fov.at(o.x as int, o.y as int)
            && spec_dist_sq(px, py, o.x as int, o.y as int) < best_d2 {
            lemma_closest_scan_props(
                objs,
                fov,
                px,
                py,
                i + 1,
                Some(i),
                spec_dist_sq(px, py, o.x as int, o.y as int),
            );
        } else {
            lemma_closest_scan_props(objs, fov, px, py, i + 1, best, best_d2);
        }
    }
}

/// A change confined to the player's entry and one other entry, with the
/// shape combat and item effects produce, keeps the session invariant.
pub proof fn lemma_pair_update_keeps_wf(
    game0: Game,
    game1: Game,
    objs0: Seq<Object>,
    objs1: Seq<Object>,
    mid: int,
)
    requires
        game_wf(game0, objs0),
        game1.map == game0.map,
        game1.inventory == game0.inventory,
        objs1.len() == objs0.len(),
        0 <= mid < objs0.len(),
        forall|i: int|
            0 <= i < objs0.len() && i != mid && i != PLAYER ==> objs1[i] == #[trigger] objs0[i],
        obj_wf(objs1[PLAYER as int]),
        obj_wf(objs1[mid]),
        objs1[PLAYER as int].fighter is Some,
        objs1[PLAYER as int].fighter.unwrap().on_death is Player,
        objs1[PLAYER as int].ai is None,
        objs1[PLAYER as int].x == objs0[PLAYER as int].x,
        objs1[PLAYER as int].y == objs0[PLAYER as int].y,
        objs1[mid].x == objs0[mid].x,
        objs1[mid].y == objs0[mid].y,
        objs1[PLAYER as int].alive ==> objs0[PLAYER as int].alive,
        mid != PLAYER ==> (objs1[mid].fighter is Some ==> objs1[mid].alive
            && objs1[mid].fighter.unwrap().on_death is Monster && (objs1[PLAYER as int].alive
            ==> objs1[mid].fighter.unwrap().xp <= crate::STAT_LIMIT)),
    ensures
        game_wf(game1, objs1),
{
    assert forall|i: int| 0 <= i < objs1.len() implies obj_wf(#[trigger] objs1[i]) by {
        if i != mid && i != PLAYER {
            assert(objs1[i] == objs0[i]);
        }
        assert(obj_wf(objs0[i]));
    }
    assert forall|i: int|
        1 <= i < objs1.len() && (#[trigger] objs1[i]).fighter is Some implies objs1[i].alive
        && objs1[i].fighter.unwrap().on_death is Monster by {
        if i != mid && i != PLAYER {
            assert(objs1[i] == objs0[i]);
        }
    }
    if objs1[PLAYER as int].alive {
        assert forall|i: int|
            1 <= i < objs1.len() && (#[trigger] objs1[i]).fighter is Some
            implies objs1[i].fighter.unwrap().xp <= crate::STAT_LIMIT by {
            if i != mid && i != PLAYER {
                assert(objs1[i] == objs0[i]);
            }
            assert(objs0[i].fighter is Some ==> objs0[i].fighter.unwrap().xp
                <= crate::STAT_LIMIT);
        }
    }
    assert forall|i: int|
        0 <= i < objs1.len() implies in_bounds(
        (#[trigger] objs1[i]).x as int,
        objs1[i].y as int,
    ) && !game1.map.at(objs1[i].x as int, objs1[i].y as int).blocked by {
        if i != mid && i != PLAYER {
            assert(objs1[i] == objs0[i]);
        }
        assert(in_bounds(objs0[i].x as int, objs0[i].y as int) && !game0.map.at(
            objs0[i].x as int,
            objs0[i].y as int,
        ).blocked);
    }
}


/// The message a successful confusion logs.
pub open spec fn confuse_msg(name: Seq<char>) -> Seq<char> {
    "The eyes of "@ + name + " look vacant, as he starts to stumble around!"@
}

/// The object changes of one confusion-scroll use on target `mid`: the
/// target's behaviour becomes `Confused`, owning its prior behaviour
/// (a fresh `Basic` only where it had none) for the fixed turn count.
pub open spec fn confuse_objs(objs0: Seq<Object>, objs1: Seq<Object>, mid: int) -> bool {
    &&& objs1.len() == objs0.len()
    &&& forall|i: int| 0 <= i < objs0.len() && i != mid ==> objs1[i] == #[trigger] objs0[i]
    &&& objs1[mid] == (Object { ai: objs1[mid].ai, ..objs0[mid] })
    &&& objs1[mid].ai matches Some(a) && a matches Ai::Confused { previous_ai, num_turns } && {
        &&& num_turns == crate::CONFUSE_NUM_TURNS
        &&& *previous_ai == (match objs0[mid].ai {
            Some(b) => b,
            None => Ai::Basic,
        })
    }
}

/// Replace the selected monster's behaviour with a confusion that owns
/// its prior behaviour; with no selection the scroll is retained.
pub fn cast_confuse(game: &mut Game, objects: &mut Vec<Object>, target: Option<usize>) -> (res:
    UseResult)
    requires
        game_wf(*old(game), old(objects)@),
        target matches Some(t) ==> 0 < t < old(objects)@.len(),
    ensures
        game_wf(*final(game), final(objects)@),
        final(game).map == old(game).map,
        final(game).inventory == old(game).inventory,
        final(game).dungeon_level == old(game).dungeon_level,
        match target {
            None => {
                &&& res == UseResult::Cancelled
                &&& final(objects)@ == old(objects)@
                &&& logged(
                    old(game).messages,
                    final(game).messages,
                    "Saving it for later, eh?  Good choice!"@,
                    ColorCode::White,
                )
            },
            Some(mid) => {
                &&& res == UseResult::UsedUp
                &&& confuse_objs(old(objects)@, final(objects)@, mid as int)
                &&& logged(
                    old(game).messages,
                    final(game).messages,
                    confuse_msg(old(objects)@[mid as int].name@),
                    ColorCode::LightGreen,
                )
            },
        },
{
    match target {
        None => {
            game.messages.add(
                "Saving it for later, eh?  Good choice!".to_owned(),
                ColorCode::White,
            );
            UseResult::Cancelled
        },
        Some(monster_id) => {
            let old_ai = {
                let o = &mut objects[monster_id];
                o.ai.take()
            };
            let previous = match old_ai {
                Some(a) => a,
                None => Ai::Basic,
            };
            {
                let o = &mut objects[monster_id];
                o.ai = Some(
                    Ai::Confused {
                        previous_ai: Box::new(previous),
                        num_turns: crate::CONFUSE_NUM_TURNS,
                    },
                );
            }
            let text = "The eyes of "
                .to_owned()
                .concat(objects[monster_id].name.as_str())
                .concat(" look vacant, as he starts to stumble around!");
            proof {
                assert(text@ =~= confuse_msg(old(objects)@[monster_id as int].name@));
            }
            game.messages.add(text, ColorCode::LightGreen);
            proof {
                assert(objects@[monster_id as int] == (Object {
                    ai: objects@[monster_id as int].ai,
                    ..old(objects)@[monster_id as int]
                }));
                lemma_pair_update_keeps_wf(
                    *old(game),
                    *game,
                    old(objects)@,
                    objects@,
                    monster_id as int,
                );
            }
            UseResult::UsedUp
        },
    }
}

/// The message the explosion itself logs.
pub open spec fn fireball_msg() -> Seq<char> {
    "The fireball explodes, burning everything within "@ + spec_dec_i32(
        crate::FIREBALL_RADIUS as int,
    ) + " tiles!"@
}

/// Whether the fireball at `(x, y)` reaches the entity: it has a fighter
/// and stands within the blast radius, bounds inclusive.
pub open spec fn in_blast(o: Object, x: int, y: int) -> bool {
    o.fighter is Some && spec_dist_sq(o.x as int, o.y as int, x, y) <= crate::FIREBALL_RADIUS
        * crate::FIREBALL_RADIUS
}

/// What one blast hit does to one entity (no messages, no experience).
pub open spec fn burned_rel(before: Object, after: Object) -> bool {
    before.fighter matches Some(f) ==> {
        if !kills(f, crate::FIREBALL_DAMAGE as int) {
            after == spec_damaged(before, f, crate::FIREBALL_DAMAGE as int)
        } else {
            &&& (f.on_death is Player ==> after == (Object {
                glyph: '%',
                color: ColorCode::DarkRed,
                alive: false,
                ..spec_damaged(before, f, crate::FIREBALL_DAMAGE as int)
            }))
            &&& (f.on_death is Monster ==> {
                &&& after.x == before.x
                &&& after.y == before.y
                &&& after.glyph == '%'
                &&& after.color == ColorCode::DarkRed
                &&& after.blocks == false
                &&& after.alive == false
                &&& after.name@ == "remains of "@ + before.name@
                &&& after.always_visible == before.always_visible
                &&& after.fighter is None
                &&& after.ai is None
                &&& after.item == before.item
                &&& after.level == before.level
            })
        }
    }
}

/// The experience the blast at `(x, y)` yields the player: the banked
/// experience of every monster it kills, and never the player's own.
pub open spec fn fireball_xp(objs: Seq<Object>, x: int, y: int, i: int) -> int
    decreases objs.len() - i,
{
    if i < 0 || i >= objs.len() {
        0
    } else {
        (if i != PLAYER && in_blast(objs[i], x, y) && kills(
            objs[i].fighter.unwrap(),
            crate::FIREBALL_DAMAGE as int,
        ) {
            objs[i].fighter.unwrap().xp as int
        } else {
            0
        }) + fireball_xp(objs, x, y, i + 1)
    }
}

/// The log only grew: everything logged before is still there.
pub open spec fn log_extended(before: Messages, after: Messages) -> bool {
    &&& after.messages@.len() >= before.messages@.len()
    &&& forall|i: int|
        0 <= i < before.messages@.len() ==> after.messages@[i] == #[trigger] before.messages@[i]
}

/// Burn every fighter within the blast radius of the selected tile for
/// fixed damage; experience from the kills goes to the player, except
/// from the player's own death. With no tile selected the scroll is
/// retained and nothing happens.
pub fn cast_fireball(
    game: &mut Game,
    objects: &mut Vec<Object>,
    target: Option<(i32, i32)>,
) -> (res: UseResult)
    requires
        game_wf(*old(game), old(objects)@),
        old(objects)@[PLAYER as int].alive,
        old(objects)@[PLAYER as int].fighter.unwrap().xp <= XP_LIMIT,
        target matches Some(t) ==> in_bounds(t.0 as int, t.1 as int),
    ensures
        game_wf(*final(game), final(objects)@),
        final(game).map == old(game).map,
        final(game).inventory == old(game).inventory,
        final(game).dungeon_level == old(game).dungeon_level,
        match target {
            None => {
                &&& res == UseResult::Cancelled
                &&& final(objects)@ == old(objects)@
                &&& final(game).messages == old(game).messages
            },
            Some((x, y)) => {
                let objs0 = old(objects)@;
                let p = objs0[PLAYER as int];
                let pf = p.fighter.unwrap();
                let hit = in_blast(p, x as int, y as int);
                let newhp = if hit {
                    pf.hp - crate::FIREBALL_DAMAGE
                } else {
                    pf.hp as int
                };
                let total = fireball_xp(objs0, x as int, y as int, 0);
                &&& res == UseResult::UsedUp
                &&& final(objects)@.len() == objs0.len()
                &&& forall|i: int|
                    1 <= i < objs0.len() ==> (if in_blast(#[trigger] objs0[i], x as int, y as int) {
                        burned_rel(objs0[i], final(objects)@[i])
                    } else {
                        final(objects)@[i] == objs0[i]
                    })
                &&& final(objects)@[PLAYER as int].fighter == Some(
                    Fighter { hp: newhp as i32, xp: (pf.xp + total) as i32, ..pf },
                )
                &&& final(objects)@[PLAYER as int].x == p.x
                &&& final(objects)@[PLAYER as int].y == p.y
                &&& final(objects)@[PLAYER as int].ai == p.ai
                &&& final(objects)@[PLAYER as int].name@ == p.name@
                &&& (hit && newhp <= 0 ==> final(objects)@[PLAYER as int].alive == false
                    && final(objects)@[PLAYER as int].glyph == '%')
                &&& (!(hit && newhp <= 0) ==> final(objects)@[PLAYER as int].alive == p.alive
                    && final(objects)@[PLAYER as int].glyph == p.glyph)
                &&& log_extended(old(game).messages, final(game).messages)
                &&& final(game).messages.messages@.len() > old(game).messages.messages@.len()
                &&& final(game).messages.messages@[old(game).messages.messages@.len() as int].0@
                    == fireball_msg()
                &&& final(game).messages.messages@[old(game).messages.messages@.len() as int].1
                    == ColorCode::Orange
            },
        },
{
    let (x, y) = match target {
        Some(pos) => pos,
        None => {
            return UseResult::Cancelled;
        },
    };
    let text = "The fireball explodes, burning everything within "
        .to_owned()
        .concat(i32_string(crate::FIREBALL_RADIUS).as_str())
        .concat(" tiles!");
    proof {
        assert(text@ =~= fireball_msg());
    }
    game.messages.add(text, ColorCode::Orange);

    let mut xp_to_gain: i64 = 0;
    let n = objects.len();
    let mut id: usize = 0;
    while id < n
        invariant
            game_wf(*game, objects@),
            game_wf(*old(game), old(objects)@),
            old(objects)@[PLAYER as int].alive,
            old(objects)@[PLAYER as int].fighter.unwrap().xp <= XP_LIMIT,
            in_bounds(x as int, y as int),
            n == objects@.len(),
            n == old(objects)@.len(),
            1 <= n,
            id <= n,
            game.map == old(game).map,
            game.inventory == old(game).inventory,
            game.dungeon_level == old(game).dungeon_level,
            log_extended(old(game).messages, game.messages),
            game.messages.messages@.len() > old(game).messages.messages@.len(),
            game.messages.messages@[old(game).messages.messages@.len() as int].0@
                == fireball_msg(),
            game.messages.messages@[old(game).messages.messages@.len() as int].1
                == ColorCode::Orange,
            forall|i: int| id <= i < n ==> objects@[i] == #[trigger] old(objects)@[i],
            forall|i: int|
                1 <= i < id ==> (if in_blast(#[trigger] old(objects)@[i], x as int, y as int) {
                    burned_rel(old(objects)@[i], objects@[i])
                } else {
                    objects@[i] == old(objects)@[i]
                }),
            id > 0 ==> ({
                let p = old(objects)@[PLAYER as int];
                let pf = p.fighter.unwrap();
                let hit = in_blast(p, x as int, y as int);
                let newhp = if hit {
                    pf.hp - crate::FIREBALL_DAMAGE
                } else {
                    pf.hp as int
                };
                &&& objects@[PLAYER as int].fighter == Some(Fighter { hp: newhp as i32, ..pf })
                &&& objects@[PLAYER as int].x == p.x
                &&& objects@[PLAYER as int].y == p.y
                &&& objects@[PLAYER as int].ai == p.ai
                &&& objects@[PLAYER as int].name@ == p.name@
                &&& (hit && newhp <= 0 ==> objects@[PLAYER as int].alive == false
                    && objects@[PLAYER as int].glyph == '%')
                &&& (!(hit && newhp <= 0) ==> objects@[PLAYER as int].alive == p.alive
                    && objects@[PLAYER as int].glyph == p.glyph)
            }),
            0 <= xp_to_gain,
            xp_to_gain <= 1000000 * (id as i64),
            xp_to_gain + fireball_xp(
                old(objects)@,
                x as int,
                y as int,
                if id < 1 {
                    1int
                } else {
                    id as int
                },
            ) == fireball_xp(old(objects)@, x as int, y as int, 0),
        decreases n - id,
    {
        proof {
            if id >= 1 {
                assert(fireball_xp(old(objects)@, x as int, y as int, id as int) == (if id
                    != PLAYER && in_blast(old(objects)@[id as int], x as int, y as int) && kills(
                    old(objects)@[id as int].fighter.unwrap(),
                    crate::FIREBALL_DAMAGE as int,
                ) {
                    old(objects)@[id as int].fighter.unwrap().xp as int
                } else {
                    0
                }) + fireball_xp(old(objects)@, x as int, y as int, id as int + 1));
            } else {
                assert(fireball_xp(old(objects)@, x as int, y as int, 0) == fireball_xp(
                    old(objects)@,
                    x as int,
                    y as int,
                    1,
                ));
            }
        }
        let affected = {
            let o = &objects[id];
            o.fighter.is_some() && dist_sq(o.x, o.y, x, y) <= (crate::FIREBALL_RADIUS
                * crate::FIREBALL_RADIUS) as i64
        };
        let ghost before_iter = objects@;
        let ghost log_start = game.messages;
        if affected {
            let burn_text = "The "
                .to_owned()
                .concat(objects[id].name.as_str())
                .concat(" gets burned for ")
                .concat(i32_string(crate::FIREBALL_DAMAGE).as_str())
                .concat(" hit points.");
            game.messages.add(burn_text, ColorCode::Orange);
            let ghost log_mid = game.messages;
            let killed = {
                let o = &mut objects[id];
                o.take_damage(crate::FIREBALL_DAMAGE, &mut game.messages)
            };
            if let Some(xp) = killed {
                if id != PLAYER {
                    xp_to_gain = xp_to_gain + xp as i64;
                }
            }
            proof {
                let base = old(game).messages.messages@;
                assert forall|i: int| 0 <= i < base.len() implies game.messages.messages@[i]
                    == #[trigger] base[i] by {
                    assert(game.messages.messages@[i] == log_mid.messages@[i]);
                    assert(log_mid.messages@[i] == log_start.messages@[i]);
                    assert(log_start.messages@[i] == base[i]);
                }
                assert(log_mid.messages@[base.len() as int] == log_start.messages@[base.len() as int]);
                assert(game.messages.messages@[base.len() as int] == log_mid.messages@[base.len() as int]);
                lemma_pair_update_keeps_wf(*game, *game, before_iter, objects@, id as int);
            }
        }
        id = id + 1;
    }

    proof {
        assert(fireball_xp(
            old(objects)@,
            x as int,
            y as int,
            if (n as int) < 1 {
                1int
            } else {
                n as int
            },
        ) == 0);
    }
    let gained = xp_to_gain as i32;
    let pf = match objects[PLAYER].fighter {
        Some(f) => f,
        None => Fighter {
            max_hp: 1,
            hp: 1,
            defense: 0,
            power: 0,
            xp: 0,
            on_death: DeathCallback::Player,
        },
    };
    let mut updated = pf;
    updated.xp = updated.xp + gained;
    let ghost pre_award = objects@;
    {
        let o = &mut objects[PLAYER];
        o.fighter = Some(updated);
    }
    proof {
        lemma_pair_update_keeps_wf(*game, *game, pre_award, objects@, PLAYER as int);
    }
    UseResult::UsedUp
}


/// What selection an item needs before it can be used: nothing, a
/// monster within a range, or a tile anywhere in view.
#[derive(Clone, Copy, Debug, PartialEq, Eq, Structural)]
pub enum TargetingKind {
    NoTargeting,
    MonsterWithin(i32),
    AnyTile,
}

/// The selection an item's use-effect asks for. Confusion wants a monster
/// within its range; a fireball wants a tile; the rest act on their own.
pub fn targeting_for(item: Item) -> (r: TargetingKind)
    ensures
        r == (match item {
            Item::Confuse => TargetingKind::MonsterWithin(crate::CONFUSE_RANGE),
            Item::Fireball => TargetingKind::AnyTile,
            _ => TargetingKind::NoTargeting,
        }),
{
    match item {
        Item::Confuse => TargetingKind::MonsterWithin(crate::CONFUSE_RANGE),
        Item::Fireball => TargetingKind::AnyTile,
        _ => TargetingKind::NoTargeting,
    }
}

/// Use the item in the given inventory slot, with the player's selection
/// already made. The slot is emptied exactly when the effect reports the
/// item used up; an abandoned or refused use retains it and logs
/// `Cancelled`.
pub fn use_item(
    inventory_id: usize,
    choice: TargetChoice,
    game: &mut Game,
    objects: &mut Vec<Object>,
    fov: &VisGrid,
)
    requires
        game_wf(*old(game), old(objects)@),
        fov.wf(),
        inventory_id < old(game).inventory@.len(),
        old(objects)@[PLAYER as int].alive,
        old(objects)@[PLAYER as int].fighter.unwrap().xp <= XP_LIMIT,
        choice matches TargetChoice::MonsterChosen(t) ==> 0 < t < old(objects)@.len(),
        choice matches TargetChoice::TileChosen(x, y) ==> in_bounds(x as int, y as int),
    ensures
        game_wf(*final(game), final(objects)@),
        final(game).map == old(game).map,
        final(game).dungeon_level == old(game).dungeon_level,
        ({
            let objs0 = old(objects)@;
            let inv0 = old(game).inventory@;
            let m0 = old(game).messages;
            let m1 = final(game).messages;
            match inv0[inventory_id as int].item {
                None => {
                    &&& final(objects)@ == objs0
                    &&& final(game).inventory == old(game).inventory
                    &&& logged(
                        m0,
                        m1,
                        "The "@ + inv0[inventory_id as int].name@ + " cannot be used."@,
                        ColorCode::White,
                    )
                },
                Some(Item::Heal) => {
                    &&& heal_objs(objs0, final(objects)@)
                    &&& (if heal_cancels(objs0) {
                        final(game).inventory == old(game).inventory && logged2(
                            m0,
                            m1,
                            "You are already at full health."@,
                            ColorCode::Red,
                            "Cancelled"@,
                            ColorCode::White,
                        )
                    } else {
                        final(game).inventory@ == inv0.remove(inventory_id as int) && logged(
                            m0,
                            m1,
                            "Your wounds start to feel better!"@,
                            ColorCode::LightViolet,
                        )
                    })
                },
                Some(Item::Lightning) => {
                    match closest_monster_spec(objs0, *fov, crate::LIGHTNING_RANGE as int) {
                        None => {
                            &&& final(objects)@ == objs0
                            &&& final(game).inventory == old(game).inventory
                            &&& logged2(
                                m0,
                                m1,
                                "No enemy is close enough to strike."@,
                                ColorCode::Red,
                                "Cancelled"@,
                                ColorCode::White,
                            )
                        },
                        Some(mid) => {
                            &&& lightning_objs(objs0, final(objects)@, mid)
                            &&& final(game).inventory@ == inv0.remove(inventory_id as int)
                        },
                    }
                },
                Some(Item::Confuse) => {
                    match choice {
                        TargetChoice::MonsterChosen(t) => {
                            &&& confuse_objs(objs0, final(objects)@, t as int)
                            &&& final(game).inventory@ == inv0.remove(inventory_id as int)
                            &&& logged(
                                m0,
                                m1,
                                confuse_msg(objs0[t as int].name@),
                                ColorCode::LightGreen,
                            )
                        },
                        _ => {
                            &&& final(objects)@ == objs0
                            &&& final(game).inventory == old(game).inventory
                            &&& logged2(
                                m0,
                                m1,
                                "Saving it for later, eh?  Good choice!"@,
                                ColorCode::White,
                                "Cancelled"@,
                                ColorCode::White,
                            )
                        },
                    }
                },
                Some(Item::Fireball) => {
                    match choice {
                        TargetChoice::TileChosen(x, y) => {
                            let p = objs0[PLAYER as int];
                            let pf = p.fighter.unwrap();
                            let hit = in_blast(p, x as int, y as int);
                            let newhp = if hit {
                                pf.hp - crate::FIREBALL_DAMAGE
                            } else {
                                pf.hp as int
                            };
                            let total = fireball_xp(objs0, x as int, y as int, 0);
                            &&& final(game).inventory@ == inv0.remove(inventory_id as int)
                            &&& final(objects)@.len() == objs0.len()
                            &&& forall|i: int|
                                1 <= i < objs0.len() ==> (if in_blast(
                                    #[trigger] objs0[i],
                                    x as int,
                                    y as int,
                                ) {
                                    burned_rel(objs0[i], final(objects)@[i])
                                } else {
                                    final(objects)@[i] == objs0[i]
                                })
                            &&& final(objects)@[PLAYER as int].fighter == Some(
                                Fighter { hp: newhp as i32, xp: (pf.xp + total) as i32, ..pf },
                            )
                            &&& log_extended(m0, m1)
                        },
                        _ => {
                            &&& final(objects)@ == objs0
                            &&& final(game).inventory == old(game).inventory
                            &&& logged(m0, m1, "Cancelled"@, ColorCode::White)
                        },
                    }
                },
            }
        }),
{
    let kind: Option<Item> = game.inventory[inventory_id].item;
    match kind {
        None => {
            let text = "The "
                .to_owned()
                .concat(game.inventory[inventory_id].name.as_str())
                .concat(" cannot be used.");
            proof {
                assert(text@ =~= "The "@ + old(game).inventory@[inventory_id as int].name@
                    + " cannot be used."@);
            }
            game.messages.add(text, ColorCode::White);
        },
        Some(k) => {
            let result = match k {
                Item::Heal => cast_heal(game, objects),
                Item::Lightning => cast_lightning(game, objects, fov),
                Item::Confuse => {
                    let sel = match choice {
                        TargetChoice::MonsterChosen(t) => Some(t),
                        _ => None,
                    };
                    cast_confuse(game, objects, sel)
                },
                Item::Fireball => {
                    let sel = match choice {
                        TargetChoice::TileChosen(x, y) => Some((x, y)),
                        _ => None,
                    };
                    cast_fireball(game, objects, sel)
                },
            };
            let ghost log_mid = game.messages;
            let ghost inv_mid = game.inventory@;
            match result {
                UseResult::UsedUp => {
                    game.inventory.remove(inventory_id);
                    proof {
                        assert forall|i: int|
                            0 <= i < game.inventory@.len() implies obj_wf(
                            #[trigger] game.inventory@[i],
                        ) by {
                            assert(game.inventory@[i] == inv_mid[i] || game.inventory@[i]
                                == inv_mid[i + 1]);
                        }
                    }
                },
                UseResult::Cancelled => {
                    game.messages.add("Cancelled".to_owned(), ColorCode::White);
                    proof {
                        let base = old(game).messages.messages@;
                        assert forall|i: int| 0 <= i < base.len() implies game.messages.messages@[i]
                            == #[trigger] base[i] by {
                            assert(game.messages.messages@[i] == log_mid.messages@[i]);
                            assert(log_mid.messages@[i] == base[i]);
                        }
                        if base.len() < log_mid.messages@.len() {
                            assert(game.messages.messages@[base.len() as int]
                                == log_mid.messages@[base.len() as int]);
                        }
                    }
                },
            }
        },
    }
}

} // verus!
