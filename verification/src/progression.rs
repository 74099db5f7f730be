//! Character progression: experience thresholds and level-ups.

use vstd::prelude::*;
use crate::messages::ColorCode;
use crate::messages::i32_string;
use crate::messages::spec_dec_i32;
use crate::object::Fighter;
use crate::object::Object;
use crate::game::Game;
use crate::game::game_wf;
use crate::items::lemma_pair_update_keeps_wf;
use crate::object::logged;
use crate::LEVEL_UP_BASE;
use crate::LEVEL_UP_FACTOR;
use crate::PLAYER;
use crate::STAT_LIMIT;

verus! {

/// The experience needed to move past `level`.
pub open spec fn spec_level_up_threshold(level: int) -> int {
    LEVEL_UP_BASE + level * LEVEL_UP_FACTOR
}

/// The experience needed to move past `level`.
pub fn level_up_threshold(level: i32) -> (r: i32)
    requires
        1 <= level <= 10000000,
    ensures
        r == spec_level_up_threshold(level as int),
{
    LEVEL_UP_BASE + level * LEVEL_UP_FACTOR
}

/// One progression step: when the experience meets the current
/// threshold, one level is gained and exactly the threshold is spent —
/// surplus experience is kept, never zeroed.
pub open spec fn level_step(xp: int, level: int) -> (int, int) {
    if xp >= spec_level_up_threshold(level) {
        (xp - spec_level_up_threshold(level), level + 1)
    } else {
        (xp, level)
    }
}

/// `k` progression steps in a row.
pub open spec fn level_steps(xp: int, level: int, k: nat) -> (int, int)
    decreases k,
{
    if k == 0 {
        (xp, level)
    } else {
        let (x1, l1) = level_step(xp, level);
        level_steps(x1, l1, (k - 1) as nat)
    }
}

/// The combined cost of the next `k` thresholds starting at `level`.
pub open spec fn thresholds_sum(level: int, k: nat) -> int
    decreases k,
{
    if k == 0 {
        0
    } else {
        spec_level_up_threshold(level) + thresholds_sum(level + 1, (k - 1) as nat)
    }
}

/// Crossing `k` thresholds in one award grants exactly one level per
/// threshold crossed, and the residue is the starting experience minus
/// the thresholds' sum — it is never forced to zero.
pub proof fn lemma_level_ups_accumulate(xp: int, level: int, k: nat)
    requires
        level >= 1,
        xp >= thresholds_sum(level, k),
    ensures
        level_steps(xp, level, k) == (xp - thresholds_sum(level, k), level + k),
    decreases k,
{
    if k > 0 {
        assert(spec_level_up_threshold(level) <= thresholds_sum(level, k)) by {
            lemma_thresholds_sum_nonneg(level + 1, (k - 1) as nat);
        }
        let (x1, l1) = level_step(xp, level);
        lemma_level_ups_accumulate(x1, l1, (k - 1) as nat);
    }
}

/// Thresholds are positive, so their sums only grow.
pub proof fn lemma_thresholds_sum_nonneg(level: int, k: nat)
    requires
        level >= 1,
    ensures
        thresholds_sum(level, k) >= 0,
    decreases k,
{
    if k > 0 {
        lemma_thresholds_sum_nonneg(level + 1, (k - 1) as nat);
    }
}

/// The stat the player raises on a level-up.
#[derive(Clone, Copy, Debug, PartialEq, Eq, Structural)]
pub enum LevelUpChoice {
    Constitution,
    Strength,
    Agility,
}

/// Whether the player has banked enough experience to level up.
pub fn needs_level_up(objects: &Vec<Object>) -> (r: bool)
    requires
        objects@.len() >= 1,
        objects@[PLAYER as int].fighter is Some,
        1 <= objects@[PLAYER as int].level <= 10000000,
    ensures
        r == (objects@[PLAYER as int].fighter.unwrap().xp >= spec_level_up_threshold(
            objects@[PLAYER as int].level as int,
        )),
{
    let level_up_xp = level_up_threshold(objects[PLAYER].level);
    let xp = match objects[PLAYER].fighter {
        Some(f) => f.xp,
        None => 0,
    };
    xp >= level_up_xp
}

/// One resolved level-up: if the threshold is met, the level rises by
/// one, exactly the threshold is subtracted from the banked experience,
/// and the chosen stat rises; otherwise nothing changes. The residue
/// carries toward the next threshold.
pub fn level_up(choice: LevelUpChoice, game: &mut Game, objects: &mut Vec<Object>)
    requires
        game_wf(*old(game), old(objects)@),
        old(objects)@[PLAYER as int].alive,
        1 <= old(objects)@[PLAYER as int].level <= 10000000,
        old(objects)@[PLAYER as int].fighter.unwrap().max_hp + 20 <= STAT_LIMIT,
        old(objects)@[PLAYER as int].fighter.unwrap().power + 1 <= STAT_LIMIT,
        old(objects)@[PLAYER as int].fighter.unwrap().defense + 1 <= STAT_LIMIT,
    ensures
        game_wf(*final(game), final(objects)@),
        final(game).map == old(game).map,
        final(game).inventory == old(game).inventory,
        final(game).dungeon_level == old(game).dungeon_level,
        ({
            let p = old(objects)@[PLAYER as int];
            let f = p.fighter.unwrap();
            if f.xp < spec_level_up_threshold(p.level as int) {
                final(objects)@ == old(objects)@ && final(game).messages == old(game).messages
            } else {
                let spent = spec_level_up_threshold(p.level as int);
                &&& (final(objects)@[PLAYER as int].fighter.unwrap().xp as int,
                final(objects)@[PLAYER as int].level as int) == level_step(
                    f.xp as int,
                    p.level as int,
                )
                &&& final(objects)@ == old(objects)@.update(
                    PLAYER as int,
                    Object {
                        level: (p.level + 1) as i32,
                        fighter: Some(
                            match choice {
                                LevelUpChoice::Constitution => Fighter {
                                    max_hp: (f.max_hp + 20) as i32,
                                    hp: (f.hp + 20) as i32,
                                    xp: (f.xp - spent) as i32,
                                    ..f
                                },
                                LevelUpChoice::Strength => Fighter {
                                    power: (f.power + 1) as i32,
                                    xp: (f.xp - spent) as i32,
                                    ..f
                                },
                                LevelUpChoice::Agility => Fighter {
                                    defense: (f.defense + 1) as i32,
                                    xp: (f.xp - spent) as i32,
                                    ..f
                                },
                            },
                        ),
                        ..p
                    },
                )
                &&& logged(
                    old(game).messages,
                    final(game).messages,
                    level_up_msg(p.level + 1),
                    ColorCode::Yellow,
                )
            }
        }),
{
    let level_up_xp = level_up_threshold(objects[PLAYER].level);
    let f = match objects[PLAYER].fighter {
        Some(f) => f,
        None => {
            return ;
        },
    };
    if f.xp >= level_up_xp {
        let new_level = objects[PLAYER].level + 1;
        let text = "Your battle skills grow stronger! You reached level "
            .to_owned()
            .concat(i32_string(new_level).as_str())
            .concat("!");
        proof {
            assert(text@ =~= level_up_msg(old(objects)@[PLAYER as int].level + 1));
        }
        game.messages.add(text, ColorCode::Yellow);
        let mut updated = f;
        updated.xp = updated.xp - level_up_xp;
        match choice {
            LevelUpChoice::Constitution => {
                updated.max_hp = updated.max_hp + 20;
                updated.hp = updated.hp + 20;
            },
            LevelUpChoice::Strength => {
                updated.power = updated.power + 1;
            },
            LevelUpChoice::Agility => {
                updated.defense = updated.defense + 1;
            },
        }
        {
            let o = &mut objects[PLAYER];
            o.level = new_level;
            o.fighter = Some(updated);
        }
        proof {
            lemma_pair_update_keeps_wf(*old(game), *game, old(objects)@, objects@, PLAYER as int);
        }
    }
}

/// The message a level-up logs.
pub open spec fn level_up_msg(new_level: int) -> Seq<char> {
    "Your battle skills grow stronger! You reached level "@ + spec_dec_i32(new_level) + "!"@
}

} // verus!
