//! The per-monster behaviour state machine: one transition per monster
//! per player-completed turn.

use vstd::prelude::*;
use crate::tile::TileMap;
use crate::tile::in_bounds;
use crate::messages::ColorCode;
use crate::messages::Messages;
use crate::object::Ai;
use crate::object::Object;
use crate::object::attack_rel;
use crate::object::obj_wf;
use crate::object::logged;
use crate::game::Game;
use crate::game::game_wf;
use crate::game::lemma_walkable_is_interior;
use crate::fov::VisGrid;
use crate::motion::spec_is_blocked;
use crate::motion::spec_dist_sq;
use crate::motion::step_toward;
use crate::motion::dist_sq;
use crate::motion::move_towards;
use crate::motion::move_by;
use crate::motion::attack_by_ids;
use crate::rng::Rng;
use crate::rng::next_state;
use crate::rng::ranged;
use crate::PLAYER;
use crate::XP_LIMIT;

verus! {

/// The pure state part of one behaviour transition: a basic monster stays
/// basic; a confused one counts a turn down while any turns remain, and
/// otherwise becomes exactly the state it owned before confusion.
pub open spec fn ai_step_state(ai: Ai) -> Ai {
    match ai {
        Ai::Basic => Ai::Basic,
        Ai::Confused { previous_ai, num_turns } => {
            if num_turns >= 0 {
                Ai::Confused { previous_ai, num_turns: (num_turns - 1) as i32 }
            } else {
                *previous_ai
            }
        },
    }
}

/// `k` behaviour transitions in a row.
pub open spec fn ai_step_n(ai: Ai, k: nat) -> Ai
    decreases k,
{
    if k == 0 {
        ai
    } else {
        ai_step_n(ai_step_state(ai), (k - 1) as nat)
    }
}

/// A monster confused for `turns` remaining turns is, after exactly
/// `turns + 2` transitions, in the state it owned before confusion —
/// the prior state object itself, not a fresh default.
pub proof fn lemma_confusion_restores_previous(previous_ai: Box<Ai>, turns: i32)
    requires
        turns >= 0,
    ensures
        ai_step_n(Ai::Confused { previous_ai, num_turns: turns }, (turns + 2) as nat)
            == *previous_ai,
    decreases turns,
{
    let c = Ai::Confused { previous_ai, num_turns: turns };
    if turns == 0 {
        let c1 = Ai::Confused { previous_ai, num_turns: -1i32 };
        assert(ai_step_state(c) == c1);
        assert(ai_step_n(c, 2) == ai_step_n(c1, 1));
        assert(ai_step_n(c1, 1) == ai_step_n(*previous_ai, 0));
    } else {
        lemma_confusion_restores_previous(previous_ai, (turns - 1) as i32);
        assert(ai_step_state(c) == Ai::Confused { previous_ai, num_turns: (turns - 1) as i32 });
        assert(ai_step_n(c, (turns + 2) as nat) == ai_step_n(
            ai_step_state(c),
            (turns + 1) as nat,
        ));
    }
}

/// The message logged when confusion wears off.
pub open spec fn no_longer_confused_msg(name: Seq<char>) -> Seq<char> {
    "The "@ + name + " is no longer confused!"@
}

/// Exactly what a basic monster's turn does. Outside the player's view it
/// does nothing; in view and two or more tiles away it takes one chasing
/// step; adjacent to a living player it attacks.
pub open spec fn basic_turn_rel(
    map: TileMap,
    fov: VisGrid,
    mid: int,
    objs0: Seq<Object>,
    objs1: Seq<Object>,
    m0: Messages,
    m1: Messages,
) -> bool {
    let m = objs0[mid];
    let p = objs0[PLAYER as int];
    if !fov.at(m.x as int, m.y as int) {
        objs1 == objs0 && m1 == m0
    } else if spec_dist_sq(m.x as int, m.y as int, p.x as int, p.y as int) >= 4 {
        let (sx, sy) = step_toward(p.x - m.x, p.y - m.y);
        &&& m1 == m0
        &&& (if !spec_is_blocked(m.x + sx, m.y + sy, map, objs0) {
            objs1 == objs0.update(
                mid,
                Object { x: (m.x + sx) as i32, y: (m.y + sy) as i32, ..m },
            )
        } else {
            objs1 == objs0
        })
    } else if p.fighter matches Some(pf) && pf.hp >= 1 {
        &&& objs1.len() == objs0.len()
        &&& attack_rel(m, p, objs1[mid], objs1[PLAYER as int], m0, m1)
        &&& forall|i: int|
            0 <= i < objs0.len() && i != mid && i != PLAYER ==> objs1[i] == #[trigger] objs0[i]
    } else {
        objs1 == objs0 && m1 == m0
    }
}

/// One turn of a basic monster.
pub fn ai_basic(monster_id: usize, game: &mut Game, objects: &mut Vec<Object>, fov: &VisGrid) -> (r:
    Ai)
    requires
        game_wf(*old(game), old(objects)@),
        fov.wf(),
        1 <= monster_id < old(objects)@.len(),
        old(objects)@[PLAYER as int].fighter.unwrap().xp <= XP_LIMIT,
    ensures
        game_wf(*final(game), final(objects)@),
        final(game).map == old(game).map,
        final(game).inventory == old(game).inventory,
        final(game).dungeon_level == old(game).dungeon_level,
        final(objects)@.len() == old(objects)@.len(),
        basic_turn_rel(
            old(game).map,
            *fov,
            monster_id as int,
            old(objects)@,
            final(objects)@,
            old(game).messages,
            final(game).messages,
        ),
        final(objects)@[PLAYER as int].x == old(objects)@[PLAYER as int].x,
        final(objects)@[PLAYER as int].y == old(objects)@[PLAYER as int].y,
        final(objects)@[PLAYER as int].fighter.unwrap().xp == old(
            objects,
        )@[PLAYER as int].fighter.unwrap().xp,
        r == Ai::Basic,
{
    proof {
        lemma_walkable_is_interior(
            game.map,
            objects@[monster_id as int].x as int,
            objects@[monster_id as int].y as int,
        );
    }
    let (monster_x, monster_y) = objects[monster_id].pos();
    if fov.is_visible(monster_x, monster_y) {
        let (player_x, player_y) = objects[PLAYER].pos();
        if dist_sq(monster_x, monster_y, player_x, player_y) >= 4 {
            move_towards(monster_id, player_x, player_y, &game.map, objects);
            proof {
                let m = old(objects)@[monster_id as int];
                let (sx, sy) = step_toward(player_x - m.x, player_y - m.y);
                lemma_moved_keeps_wf(
                    *game,
                    old(objects)@,
                    objects@,
                    monster_id as int,
                    m.x + sx,
                    m.y + sy,
                );
            }
        } else {
            let player_lives = match objects[PLAYER].fighter {
                Some(f) => f.hp > 0,
                None => false,
            };
            if player_lives {
                attack_by_ids(objects, monster_id, PLAYER, &mut game.messages);
                proof {
                    lemma_attack_keeps_wf(
                        *old(game),
                        *game,
                        old(objects)@,
                        objects@,
                        monster_id as int,
                        PLAYER as int,
                    );
                }
            }
        }
    }
    Ai::Basic
}

/// A single step onto a free tile keeps the session invariant.
pub proof fn lemma_moved_keeps_wf(
    game: Game,
    objs0: Seq<Object>,
    objs1: Seq<Object>,
    id: int,
    nx: int,
    ny: int,
)
    requires
        game_wf(game, objs0),
        0 <= id < objs0.len(),
        objs1 == objs0 || (in_bounds(nx, ny) && !game.map.at(nx, ny).blocked && objs1
            == objs0.update(id, Object { x: nx as i32, y: ny as i32, ..objs0[id] })),
    ensures
        game_wf(game, objs1),
{
    if objs1 != objs0 {
        assert(forall|i: int|
            0 <= i < objs1.len() && i != id ==> objs1[i] == #[trigger] objs0[i]);
        assert(obj_wf(objs1[id]));
    }
}

/// A melee exchange between a monster and the player (either direction)
/// keeps the session invariant.
pub proof fn lemma_attack_keeps_wf(
    game0: Game,
    game1: Game,
    objs0: Seq<Object>,
    objs1: Seq<Object>,
    att: int,
    def: int,
)
    requires
        game_wf(game0, objs0),
        game1.map == game0.map,
        game1.inventory == game0.inventory,
        0 <= att < objs0.len(),
        0 <= def < objs0.len(),
        att != def,
        att == PLAYER || def == PLAYER,
        objs1.len() == objs0.len(),
        attack_rel(objs0[att], objs0[def], objs1[att], objs1[def], game0.messages, game1.messages),
        obj_wf(objs1[att]),
        obj_wf(objs1[def]),
        forall|i: int| 0 <= i < objs0.len() && i != att && i != def ==> objs1[i] == #[trigger] objs0[i],
    ensures
        game_wf(game1, objs1),
{
    assert(objs1[PLAYER as int].fighter is Some);
    assert(objs1[PLAYER as int].fighter.unwrap().on_death is Player);
    assert(objs1[PLAYER as int].ai == objs0[PLAYER as int].ai);
    assert forall|i: int| 0 <= i < objs1.len() implies obj_wf(#[trigger] objs1[i]) by {
        if i != att && i != def {
            assert(objs1[i] == objs0[i]);
            assert(obj_wf(objs0[i]));
        }
    }
    assert forall|i: int|
        1 <= i < objs1.len() && (#[trigger] objs1[i]).fighter is Some implies objs1[i].alive
        && objs1[i].fighter.unwrap().on_death is Monster by {
        if i != att && i != def {
            assert(objs1[i] == objs0[i]);
        }
    }
    if objs1[PLAYER as int].alive {
        assert(objs0[PLAYER as int].alive);
        assert forall|i: int|
            1 <= i < objs1.len() && (#[trigger] objs1[i]).fighter is Some
            implies objs1[i].fighter.unwrap().xp <= crate::STAT_LIMIT by {
            assert(objs0[i].fighter is Some ==> objs0[i].fighter.unwrap().xp
                <= crate::STAT_LIMIT);
            if i == att {
                assert(objs1[PLAYER as int].alive);
            }
            if i != att && i != def {
                assert(objs1[i] == objs0[i]);
            }
        }
    }
    assert forall|i: int|
        0 <= i < objs1.len() implies in_bounds((#[trigger] objs1[i]).x as int, objs1[i].y as int)
        && !game1.map.at(objs1[i].x as int, objs1[i].y as int).blocked by {
        assert(objs1[i].x == objs0[i].x && objs1[i].y == objs0[i].y);
    }
}

/// Exactly what a confused monster's turn does. While turns remain, the
/// stored state counts one down first, two draws pick the stumble step,
/// and the step is taken only onto a free tile; when they have run out,
/// recovery is announced and the owned prior state is restored, the
/// random chain untouched.
pub open spec fn confused_turn_rel(
    map: TileMap,
    id: int,
    objs0: Seq<Object>,
    objs1: Seq<Object>,
    m0: Messages,
    m1: Messages,
    s0: u64,
    s1: u64,
    previous_ai: Box<Ai>,
    num_turns: i32,
) -> bool {
    let m = objs0[id];
    if num_turns >= 0 {
        let sa = next_state(s0);
        let sb = next_state(sa);
        let dx = ranged(sa, -1, 2);
        let dy = ranged(sb, -1, 2);
        let staged = objs0.update(
            id,
            Object { ai: Some(Ai::Confused { previous_ai, num_turns: (num_turns - 1) as i32 }), ..m },
        );
        &&& s1 == sb
        &&& m1 == m0
        &&& (if !spec_is_blocked(m.x + dx, m.y + dy, map, staged) {
            objs1 == staged.update(
                id,
                Object { x: (m.x + dx) as i32, y: (m.y + dy) as i32, ..staged[id] },
            )
        } else {
            objs1 == staged
        })
    } else {
        &&& s1 == s0
        &&& objs1 == objs0.update(id, Object { ai: Some(*previous_ai), ..m })
        &&& logged(m0, m1, no_longer_confused_msg(m.name@), ColorCode::Red)
    }
}

/// Exactly what one entry's slot of the monster phase does: an entity
/// without behaviour changes nothing; one with behaviour stores
/// `ai_step_state` of its state and acts as the old state directs.
pub open spec fn take_turn_rel(
    map: TileMap,
    fov: VisGrid,
    id: int,
    objs0: Seq<Object>,
    objs1: Seq<Object>,
    m0: Messages,
    m1: Messages,
    s0: u64,
    s1: u64,
) -> bool {
    &&& objs1.len() == objs0.len()
    &&& (objs0[id].ai is None ==> objs1 == objs0 && m1 == m0 && s1 == s0)
    &&& (objs0[id].ai matches Some(a) ==> {
        &&& objs1[id].ai == Some(ai_step_state(a))
        &&& (a is Basic ==> s1 == s0 && basic_turn_rel(map, fov, id, objs0, objs1, m0, m1))
        &&& (a matches Ai::Confused { previous_ai, num_turns } ==> confused_turn_rel(
            map,
            id,
            objs0,
            objs1,
            m0,
            m1,
            s0,
            s1,
            previous_ai,
            num_turns,
        ))
    })
}

/// The monster phase up to slot `k`: the first `k` entries have taken
/// their turns in list order, each handing the next the object list, the
/// log and the random chain it produced.
pub open spec fn phase_rel(
    map: TileMap,
    fov: VisGrid,
    k: int,
    objs0: Seq<Object>,
    objs1: Seq<Object>,
    m0: Messages,
    m1: Messages,
    s0: u64,
    s1: u64,
) -> bool
    decreases k,
{
    if k <= 0 {
        objs1 == objs0 && m1 == m0 && s1 == s0
    } else {
        exists|objsm: Seq<Object>, mm: Messages, sm: u64|
            phase_rel(map, fov, k - 1, objs0, objsm, m0, mm, s0, sm)
                && #[trigger] take_turn_rel(map, fov, k - 1, objsm, objs1, mm, m1, sm, s1)
    }
}

/// One more slot taken in order extends the phase chain by one.
proof fn lemma_phase_extend(
    map: TileMap,
    fov: VisGrid,
    k: int,
    objs0: Seq<Object>,
    objsm: Seq<Object>,
    objs1: Seq<Object>,
    m0: Messages,
    mm: Messages,
    m1: Messages,
    s0: u64,
    sm: u64,
    s1: u64,
)
    requires
        k >= 0,
        phase_rel(map, fov, k, objs0, objsm, m0, mm, s0, sm),
        take_turn_rel(map, fov, k, objsm, objs1, mm, m1, sm, s1),
    ensures
        phase_rel(map, fov, k + 1, objs0, objs1, m0, m1, s0, s1),
{
    assert(phase_rel(map, fov, (k + 1) - 1, objs0, objsm, m0, mm, s0, sm));
    assert(take_turn_rel(map, fov, (k + 1) - 1, objsm, objs1, mm, m1, sm, s1));
}

/// One turn of a confused monster: while turns remain it stumbles one
/// random step (possibly in place) and counts down; when they run out it
/// announces recovery and resumes the behaviour it owned before.
/// The monster's behaviour state in the list is advanced first; the
/// stumble then happens with the new state already stored.
pub fn ai_confused(
    monster_id: usize,
    game: &mut Game,
    objects: &mut Vec<Object>,
    rng: &mut Rng,
    previous_ai: Box<Ai>,
    num_turns: i32,
)
    requires
        game_wf(*old(game), old(objects)@),
        1 <= monster_id < old(objects)@.len(),
    ensures
        game_wf(*final(game), final(objects)@),
        final(game).map == old(game).map,
        final(game).inventory == old(game).inventory,
        final(game).dungeon_level == old(game).dungeon_level,
        final(objects)@.len() == old(objects)@.len(),
        confused_turn_rel(
            old(game).map,
            monster_id as int,
            old(objects)@,
            final(objects)@,
            old(game).messages,
            final(game).messages,
            old(rng).state,
            final(rng).state,
            previous_ai,
            num_turns,
        ),
{
    proof {
        lemma_walkable_is_interior(
            game.map,
            objects@[monster_id as int].x as int,
            objects@[monster_id as int].y as int,
        );
    }
    if num_turns >= 0 {
        {
            let o = &mut objects[monster_id];
            o.ai = Some(Ai::Confused { previous_ai, num_turns: num_turns - 1 });
        }
        let ghost staged = objects@;
        let dx = rng.range_i32(-1, 2);
        let dy = rng.range_i32(-1, 2);
        move_by(monster_id, dx, dy, &game.map, objects);
        proof {
            let m = old(objects)@[monster_id as int];
            let s1 = next_state(old(rng).state);
            let s2 = next_state(s1);
            lemma_moved_keeps_wf_staged(
                *game,
                old(objects)@,
                staged,
                objects@,
                monster_id as int,
                m.x + ranged(s1, -1, 2),
                m.y + ranged(s2, -1, 2),
            );
        }
    } else {
        let text = "The "
            .to_owned()
            .concat(objects[monster_id].name.as_str())
            .concat(" is no longer confused!");
        proof {
            assert(text@ =~= no_longer_confused_msg(objects@[monster_id as int].name@));
        }
        game.messages.add(text, ColorCode::Red);
        let o = &mut objects[monster_id];
        o.ai = Some(*previous_ai);
    }
}

/// Advancing a monster's stored behaviour state and then stepping onto a
/// free tile keeps the session invariant.
proof fn lemma_moved_keeps_wf_staged(
    game: Game,
    objs0: Seq<Object>,
    staged: Seq<Object>,
    objs1: Seq<Object>,
    id: int,
    nx: int,
    ny: int,
)
    requires
        game_wf(game, objs0),
        1 <= id < objs0.len(),
        staged.len() == objs0.len(),
        staged[id].fighter == objs0[id].fighter,
        staged[id].alive == objs0[id].alive,
        staged[id].x == objs0[id].x,
        staged[id].y == objs0[id].y,
        forall|i: int| 0 <= i < objs0.len() && i != id ==> staged[i] == #[trigger] objs0[i],
        objs1 == staged || (in_bounds(nx, ny) && !game.map.at(nx, ny).blocked && objs1
            == staged.update(id, Object { x: nx as i32, y: ny as i32, ..staged[id] })),
    ensures
        game_wf(game, objs1),
{
    assert(game_wf(game, staged)) by {
        assert forall|i: int| 0 <= i < staged.len() implies obj_wf(#[trigger] staged[i]) by {
            if i != id {
                assert(staged[i] == objs0[i]);
            }
            assert(obj_wf(objs0[i]));
        }
        assert(staged[0] == objs0[0]);
        assert forall|i: int|
            1 <= i < staged.len() && (#[trigger] staged[i]).fighter is Some
            implies staged[i].alive && staged[i].fighter.unwrap().on_death is Monster by {
            if i != id {
                assert(staged[i] == objs0[i]);
            }
            assert(objs0[i].fighter is Some ==> objs0[i].alive
                && objs0[i].fighter.unwrap().on_death is Monster);
        }
        if staged[0].alive {
            assert forall|i: int|
                1 <= i < staged.len() && (#[trigger] staged[i]).fighter is Some
                implies staged[i].fighter.unwrap().xp <= crate::STAT_LIMIT by {
                if i != id {
                    assert(staged[i] == objs0[i]);
                }
                assert(objs0[i].fighter is Some ==> objs0[i].fighter.unwrap().xp
                    <= crate::STAT_LIMIT);
            }
        }
        assert forall|i: int|
            0 <= i < staged.len() implies in_bounds(
            (#[trigger] staged[i]).x as int,
            staged[i].y as int,
        ) && !game.map.at(staged[i].x as int, staged[i].y as int).blocked by {
            if i != id {
                assert(staged[i] == objs0[i]);
            }
            assert(in_bounds(objs0[i].x as int, objs0[i].y as int) && !game.map.at(
                objs0[i].x as int,
                objs0[i].y as int,
            ).blocked);
        }
    }
    lemma_moved_keeps_wf(game, staged, objs1, id, nx, ny);
}

/// One behaviour transition of one monster, skipped entirely when the
/// entity has no behaviour component (items, corpses, stairs). The new
/// stored state is exactly `ai_step_state` of the old one.
pub fn ai_take_turn(
    monster_id: usize,
    game: &mut Game,
    objects: &mut Vec<Object>,
    fov: &VisGrid,
    rng: &mut Rng,
)
    requires
        game_wf(*old(game), old(objects)@),
        fov.wf(),
        1 <= monster_id < old(objects)@.len(),
        old(objects)@[PLAYER as int].fighter.unwrap().xp <= XP_LIMIT,
    ensures
        game_wf(*final(game), final(objects)@),
        final(game).map == old(game).map,
        final(game).inventory == old(game).inventory,
        final(game).dungeon_level == old(game).dungeon_level,
        final(objects)@.len() == old(objects)@.len(),
        final(objects)@[PLAYER as int].x == old(objects)@[PLAYER as int].x,
        final(objects)@[PLAYER as int].y == old(objects)@[PLAYER as int].y,
        final(objects)@[PLAYER as int].fighter.unwrap().xp == old(
            objects,
        )@[PLAYER as int].fighter.unwrap().xp,
        take_turn_rel(
            old(game).map,
            *fov,
            monster_id as int,
            old(objects)@,
            final(objects)@,
            old(game).messages,
            final(game).messages,
            old(rng).state,
            final(rng).state,
        ),
{
    let taken: Option<Ai> = {
        let o = &mut objects[monster_id];
        o.ai.take()
    };
    match taken {
        None => {
            proof {
                assert(objects@ =~= old(objects)@);
            }
        },
        Some(Ai::Basic) => {
            {
                let o = &mut objects[monster_id];
                o.ai = Some(Ai::Basic);
            }
            proof {
                assert(objects@[monster_id as int] =~= old(objects)@[monster_id as int]);
                assert(objects@ =~= old(objects)@);
            }
            ai_basic(monster_id, game, objects, fov);
        },
        Some(Ai::Confused { previous_ai, num_turns }) => {
            proof {
                assert(objects@[monster_id as int].fighter == old(
                    objects,
                )@[monster_id as int].fighter);
                assert(game_wf(*game, objects@)) by {
                    assert(forall|i: int|
                        0 <= i < objects@.len() && i != monster_id ==> objects@[i]
                            == #[trigger] old(objects)@[i]);
                }
            }
            ai_confused(monster_id, game, objects, rng, previous_ai, num_turns);
            proof {
                if num_turns >= 0 {
                    let m0 = old(objects)@[monster_id as int];
                    let taken_list = old(objects)@.update(
                        monster_id as int,
                        Object { ai: None, ..m0 },
                    );
                    let staged_inner = taken_list.update(
                        monster_id as int,
                        Object {
                            ai: Some(
                                Ai::Confused { previous_ai, num_turns: (num_turns - 1) as i32 },
                            ),
                            ..taken_list[monster_id as int]
                        },
                    );
                    let staged_outer = old(objects)@.update(
                        monster_id as int,
                        Object {
                            ai: Some(
                                Ai::Confused { previous_ai, num_turns: (num_turns - 1) as i32 },
                            ),
                            ..m0
                        },
                    );
                    assert(staged_inner =~= staged_outer);
                } else {
                    let m0 = old(objects)@[monster_id as int];
                    assert(old(objects)@.update(
                        monster_id as int,
                        Object { ai: None, ..m0 },
                    ).update(monster_id as int, Object { ai: Some(*previous_ai), ..Object { ai: None, ..m0 } })
                        =~= old(objects)@.update(
                        monster_id as int,
                        Object { ai: Some(*previous_ai), ..m0 },
                    ));
                }
            }
        },
    }
}


/// The monster phase of one turn: every entity with a behaviour
/// component acts exactly once, in list order, and the outcome is the
/// fold of the one-entry transition over the slots — `phase_rel` chains
/// `take_turn_rel` through every index, so a phase that skips an acting
/// monster, or acts out of order, is ruled out. The player's position
/// and accumulated experience are untouched by it.
#[verifier::rlimit(100)]
#[verifier::spinoff_prover]
pub fn monsters_take_turns(game: &mut Game, objects: &mut Vec<Object>, fov: &VisGrid, rng: &mut Rng)
    requires
        game_wf(*old(game), old(objects)@),
        fov.wf(),
        old(objects)@[PLAYER as int].fighter.unwrap().xp <= XP_LIMIT,
    ensures
        game_wf(*final(game), final(objects)@),
        final(game).map == old(game).map,
        final(game).inventory == old(game).inventory,
        final(game).dungeon_level == old(game).dungeon_level,
        final(objects)@.len() == old(objects)@.len(),
        final(objects)@[PLAYER as int].x == old(objects)@[PLAYER as int].x,
        final(objects)@[PLAYER as int].y == old(objects)@[PLAYER as int].y,
        final(objects)@[PLAYER as int].fighter.unwrap().xp == old(
            objects,
        )@[PLAYER as int].fighter.unwrap().xp,
        phase_rel(
            old(game).map,
            *fov,
            old(objects)@.len() as int,
            old(objects)@,
            final(objects)@,
            old(game).messages,
            final(game).messages,
            old(rng).state,
            final(rng).state,
        ),
{
    let n = objects.len();
    let mut id: usize = 0;
    while id < n
        invariant
            game_wf(*game, objects@),
            fov.wf(),
            n == objects@.len(),
            id <= n,
            game.map == old(game).map,
            game.inventory == old(game).inventory,
            game.dungeon_level == old(game).dungeon_level,
            objects@[PLAYER as int].x == old(objects)@[PLAYER as int].x,
            objects@[PLAYER as int].y == old(objects)@[PLAYER as int].y,
            objects@[PLAYER as int].fighter.unwrap().xp == old(
                objects,
            )@[PLAYER as int].fighter.unwrap().xp,
            objects@[PLAYER as int].fighter.unwrap().xp <= XP_LIMIT,
            phase_rel(
                old(game).map,
                *fov,
                id as int,
                old(objects)@,
                objects@,
                old(game).messages,
                game.messages,
                old(rng).state,
                rng.state,
            ),
        decreases n - id,
    {
        let ghost objs_pre = objects@;
        let ghost msgs_pre = game.messages;
        let ghost s_pre = rng.state;
        let acts = objects[id].ai.is_some();
        if acts {
            ai_take_turn(id, game, objects, fov, rng);
        }
        proof {
            assert(take_turn_rel(
                old(game).map,
                *fov,
                id as int,
                objs_pre,
                objects@,
                msgs_pre,
                game.messages,
                s_pre,
                rng.state,
            ));
            lemma_phase_extend(
                old(game).map,
                *fov,
                id as int,
                old(objects)@,
                objs_pre,
                objects@,
                old(game).messages,
                msgs_pre,
                game.messages,
                old(rng).state,
                s_pre,
                rng.state,
            );
        }
        id = id + 1;
    }
}

} // verus!
