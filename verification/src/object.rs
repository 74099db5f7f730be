//! Entities: the player, monsters, items, stairs — and the combat
//! primitives that change them (damage, death transitions, healing).

use vstd::prelude::*;
use crate::messages::ColorCode;
use crate::messages::Messages;
use crate::messages::i32_string;
use crate::messages::spec_dec_i32;
use crate::STAT_LIMIT;

verus! {

/// What happens when a fighter's hit points run out.
#[derive(Clone, Copy, Debug, PartialEq, Eq, Structural)]
pub enum DeathCallback {
    Player,
    Monster,
}

/// Combat statistics of an entity able to fight.
#[derive(Clone, Copy, Debug, PartialEq, Eq, Structural)]
pub struct Fighter {
    pub max_hp: i32,
    pub hp: i32,
    pub defense: i32,
    pub power: i32,
    pub xp: i32,
    pub on_death: DeathCallback,
}

/// Statistic bounds every fighter in play satisfies. Hit points never
/// exceed the maximum, and every statistic is small enough that one
/// combat step stays inside `i32`.
pub open spec fn fighter_wf(f: Fighter) -> bool {
    &&& 1 <= f.max_hp <= STAT_LIMIT
    &&& -(STAT_LIMIT as int) < f.hp <= f.max_hp
    &&& 0 <= f.defense <= STAT_LIMIT
    &&& 0 <= f.power <= STAT_LIMIT
    &&& 0 <= f.xp
}

/// Per-monster behaviour state. `Confused` owns the state it will restore
/// once its turns run out, so that a non-basic prior behaviour comes back
/// as it was.
#[derive(Debug, PartialEq)]
#[verifier::ext_equal]
pub enum Ai {
    Basic,
    Confused { previous_ai: Box<Ai>, num_turns: i32 },
}

/// What an item does when used.
#[derive(Clone, Copy, Debug, PartialEq, Eq, Structural)]
pub enum Item {
    Heal,
    Lightning,
    Confuse,
    Fireball,
}

/// A generic entity: position, presentation metadata, and the optional
/// fighter / behaviour / item components.
#[derive(Debug, PartialEq)]
#[verifier::ext_equal]
pub struct Object {
    pub x: i32,
    pub y: i32,
    pub glyph: char,
    pub color: ColorCode,
    pub blocks: bool,
    pub alive: bool,
    pub name: String,
    pub always_visible: bool,
    pub fighter: Option<Fighter>,
    pub ai: Option<Ai>,
    pub item: Option<Item>,
    pub level: i32,
}

/// Local well-formedness of one entity: its fighter, if any, is within
/// bounds, and the `alive` flag agrees with its hit points.
pub open spec fn obj_wf(o: Object) -> bool {
    o.fighter matches Some(f) ==> {
        &&& fighter_wf(f)
        &&& (o.alive <==> f.hp >= 1)
    }
}

/// Attack power: the fighter's, or zero without one.
pub open spec fn spec_power(o: Object) -> int {
    match o.fighter {
        Some(f) => f.power as int,
        None => 0,
    }
}

/// Defense: the fighter's, or zero without one.
pub open spec fn spec_defense(o: Object) -> int {
    match o.fighter {
        Some(f) => f.defense as int,
        None => 0,
    }
}

/// The log grew by exactly one entry with this text and color.
pub open spec fn logged(before: Messages, after: Messages, text: Seq<char>, color: ColorCode) -> bool {
    &&& after.messages@.len() == before.messages@.len() + 1
    &&& forall|i: int|
        0 <= i < before.messages@.len() ==> after.messages@[i] == #[trigger] before.messages@[i]
    &&& after.messages@.last().0@ == text
    &&& after.messages@.last().1 == color
}

/// The log grew by exactly two entries, in this order.
pub open spec fn logged2(
    before: Messages,
    after: Messages,
    text1: Seq<char>,
    color1: ColorCode,
    text2: Seq<char>,
    color2: ColorCode,
) -> bool {
    &&& after.messages@.len() == before.messages@.len() + 2
    &&& forall|i: int|
        0 <= i < before.messages@.len() ==> after.messages@[i] == #[trigger] before.messages@[i]
    &&& after.messages@[before.messages@.len() as int].0@ == text1
    &&& after.messages@[before.messages@.len() as int].1 == color1
    &&& after.messages@.last().0@ == text2
    &&& after.messages@.last().1 == color2
}

/// The message a melee hit logs.
pub open spec fn attack_msg(attacker: Seq<char>, defender: Seq<char>, damage: int) -> Seq<char> {
    attacker + " attacks "@ + defender + " for "@ + spec_dec_i32(damage) + " hit points."@
}

/// The message a harmless melee attempt logs.
pub open spec fn no_effect_msg(attacker: Seq<char>, defender: Seq<char>) -> Seq<char> {
    attacker + " attacks "@ + defender + " but it has no effect!"@
}

/// The message a monster's death logs.
pub open spec fn monster_death_msg(name: Seq<char>, xp: int) -> Seq<char> {
    name + " is dead! You gain "@ + spec_dec_i32(xp) + " experience points."@
}

/// `o` after its fighter took `damage` hit points (component update only;
/// no death transition).
pub open spec fn spec_damaged(o: Object, f: Fighter, damage: int) -> Object {
    Object { fighter: Some(Fighter { hp: (f.hp - damage) as i32, ..f }), ..o }
}

/// Whether a hit of `damage` on fighter `f` is a killing blow.
pub open spec fn kills(f: Fighter, damage: int) -> bool {
    (if damage > 0 { f.hp - damage } else { f.hp as int }) <= 0
}

/// Exactly what one application of `damage` does to an entity, its log,
/// and the experience it yields: nothing without a fighter; a hit point
/// update when the blow does not kill; the death transition of the
/// fighter's kind, and the banked experience returned, when it does.
pub open spec fn damage_rel(
    before: Object,
    after: Object,
    mbefore: Messages,
    mafter: Messages,
    damage: int,
    res: Option<i32>,
) -> bool {
    &&& (before.fighter is None ==> after == before && mafter == mbefore && res is None)
    &&& (before.fighter matches Some(f) ==> {
        if !kills(f, damage) {
            &&& after == (if damage > 0 {
                spec_damaged(before, f, damage)
            } else {
                before
            })
            &&& mafter == mbefore
            &&& res is None
        } else {
            &&& res == Some(f.xp)
            &&& (f.on_death is Player ==> {
                &&& after == (Object {
                    glyph: '%',
                    color: ColorCode::DarkRed,
                    alive: false,
                    ..spec_damaged(before, f, if damage > 0 { damage } else { 0 })
                })
                &&& logged(mbefore, mafter, "You died!"@, ColorCode::Red)
            })
            &&& (f.on_death is Monster ==> {
                &&& after.x == before.x
                &&& after.y == before.y
                &&& after.glyph == '%'
                &&& after.color == ColorCode::DarkRed
                &&& after.blocks == false
                &&& after.alive == false
                &&& after.name@ == "remains of "@ + before.name@
                &&& after.always_visible == before.always_visible
                &&& after.fighter is None
                &&& after.ai is None
                &&& after.item == before.item
                &&& after.level == before.level
                &&& logged(
                    mbefore,
                    mafter,
                    monster_death_msg(before.name@, f.xp as int),
                    ColorCode::Orange,
                )
            })
        }
    })
}



/// The damage of a melee attack is attack power minus defense, floored
/// at zero: a non-positive difference leaves the defender untouched.
pub proof fn lemma_attack_damage_formula(
    abefore: Object,
    dbefore: Object,
    aafter: Object,
    dafter: Object,
    mbefore: Messages,
    mafter: Messages,
)
    requires
        attack_rel(abefore, dbefore, aafter, dafter, mbefore, mafter),
        dbefore.fighter is Some,
        !kills(dbefore.fighter.unwrap(), spec_power(abefore) - spec_defense(dbefore)),
    ensures
        dafter.fighter.unwrap().hp == dbefore.fighter.unwrap().hp - (if spec_power(abefore)
            - spec_defense(dbefore) > 0 {
            spec_power(abefore) - spec_defense(dbefore)
        } else {
            0
        }),
{
}

/// An entity yields experience at most once for one death: the killing
/// blow on a monster removes its fighter along with the `alive` flag,
/// and any further blow on the remains changes nothing and yields
/// nothing.
pub proof fn lemma_monster_dies_once(
    before: Object,
    mid: Object,
    after: Object,
    m0: Messages,
    m1: Messages,
    m2: Messages,
    d1: int,
    d2: int,
    res1: Option<i32>,
    res2: Option<i32>,
)
    requires
        before.fighter matches Some(f) && f.on_death is Monster,
        damage_rel(before, mid, m0, m1, d1, res1),
        res1 is Some,
        damage_rel(mid, after, m1, m2, d2, res2),
    ensures
        !mid.alive,
        mid.fighter is None,
        res2 is None,
        after == mid,
        m2 == m1,
{
}

/// Exactly what one melee attack does to the attacker, the defender, and
/// the log: damage is attack power minus defense; non-positive damage has
/// no effect beyond a message; a kill banks the defeated fighter's
/// experience with the attacker, exactly once.
pub open spec fn attack_rel(
    abefore: Object,
    dbefore: Object,
    aafter: Object,
    dafter: Object,
    mbefore: Messages,
    mafter: Messages,
) -> bool {
    let damage = spec_power(abefore) - spec_defense(dbefore);
    if damage <= 0 {
        &&& aafter == abefore
        &&& dafter == dbefore
        &&& logged(mbefore, mafter, no_effect_msg(abefore.name@, dbefore.name@), ColorCode::White)
    } else if dbefore.fighter is None {
        &&& aafter == abefore
        &&& dafter == dbefore
        &&& logged(mbefore, mafter, attack_msg(abefore.name@, dbefore.name@, damage), ColorCode::White)
    } else {
        let f = dbefore.fighter.unwrap();
        if !kills(f, damage) {
            &&& aafter == abefore
            &&& dafter == spec_damaged(dbefore, f, damage)
            &&& logged(
                mbefore,
                mafter,
                attack_msg(abefore.name@, dbefore.name@, damage),
                ColorCode::White,
            )
        } else {
            &&& aafter == (Object {
                fighter: Some(
                    Fighter {
                        xp: (abefore.fighter.unwrap().xp + f.xp) as i32,
                        ..abefore.fighter.unwrap()
                    },
                ),
                ..abefore
            })
            &&& dafter.alive == false
            &&& (f.on_death is Monster ==> dafter.fighter is None && dafter.ai is None
                && dafter.blocks == false && dafter.name@ == "remains of "@ + dbefore.name@
                && logged2(
                mbefore,
                mafter,
                attack_msg(abefore.name@, dbefore.name@, damage),
                ColorCode::White,
                monster_death_msg(dbefore.name@, f.xp as int),
                ColorCode::Orange,
            ))
            &&& (f.on_death is Player ==> dafter == (Object {
                glyph: '%',
                color: ColorCode::DarkRed,
                alive: false,
                ..spec_damaged(dbefore, f, damage)
            }) && logged2(
                mbefore,
                mafter,
                attack_msg(abefore.name@, dbefore.name@, damage),
                ColorCode::White,
                "You died!"@,
                ColorCode::Red,
            ))
            &&& dafter.x == dbefore.x
            &&& dafter.y == dbefore.y
            &&& dafter.item == dbefore.item
        }
    }
}

impl Object {
    pub fn new(x: i32, y: i32, glyph: char, name: &str, color: ColorCode, blocks: bool) -> (r:
        Object)
        ensures
            r.x == x,
            r.y == y,
            r.glyph == glyph,
            r.color == color,
            r.blocks == blocks,
            r.alive == false,
            r.always_visible == false,
            r.name@ == name@,
            r.fighter is None,
            r.ai is None,
            r.item is None,
            r.level == 1,
    {
        Object {
            x,
            y,
            glyph,
            color,
            blocks,
            alive: false,
            always_visible: false,
            name: name.to_owned(),
            fighter: None,
            ai: None,
            item: None,
            level: 1,
        }
    }

    pub fn pos(&self) -> (p: (i32, i32))
        ensures
            p.0 == self.x,
            p.1 == self.y,
    {
        (self.x, self.y)
    }

    pub fn set_pos(&mut self, x: i32, y: i32)
        ensures
            *final(self) == (Object { x, y, ..*old(self) }),
    {
        self.x = x;
        self.y = y;
    }

    /// Apply `damage` to this entity's fighter, if it has one, and run the
    /// death transition on a killing blow. Returns the defeated fighter's
    /// banked experience exactly on the killing blow, else nothing.
    pub fn take_damage(&mut self, damage: i32, messages: &mut Messages) -> (res: Option<i32>)
        requires
            obj_wf(*old(self)),
            0 <= damage <= STAT_LIMIT,
            old(self).fighter is Some ==> old(self).alive,
        ensures
            obj_wf(*final(self)),
            damage_rel(
                *old(self),
                *final(self),
                *old(messages),
                *final(messages),
                damage as int,
                res,
            ),
    {
        match self.fighter {
            None => None,
            Some(f) => {
                if damage > 0 {
                    let mut updated = f;
                    updated.hp = updated.hp - damage;
                    self.fighter = Some(updated);
                }
                let now = match self.fighter {
                    Some(g) => g,
                    None => f,
                };
                if now.hp <= 0 {
                    self.alive = false;
                    match now.on_death {
                        DeathCallback::Player => player_death(self, messages),
                        DeathCallback::Monster => monster_death(self, messages),
                    }
                    Some(f.xp)
                } else {
                    None
                }
            },
        }
    }

    /// Heal by the given amount, never past the maximum.
    pub fn heal(&mut self, amount: i32)
        requires
            obj_wf(*old(self)),
            0 <= amount <= STAT_LIMIT,
            old(self).fighter is Some ==> old(self).alive,
        ensures
            obj_wf(*final(self)),
            old(self).fighter is None ==> *final(self) == *old(self),
            old(self).fighter matches Some(f) ==> *final(self) == (Object {
                fighter: Some(
                    Fighter {
                        hp: (if f.hp + amount > f.max_hp {
                            f.max_hp as int
                        } else {
                            f.hp + amount
                        }) as i32,
                        ..f
                    },
                ),
                ..*old(self)
            }),
    {
        if let Some(f) = self.fighter {
            let mut updated = f;
            updated.hp = updated.hp + amount;
            if updated.hp > updated.max_hp {
                updated.hp = updated.max_hp;
            }
            self.fighter = Some(updated);
        }
    }

    /// One melee attack on `target`: damage is attack power minus defense;
    /// non-positive damage has no effect beyond a message; a kill banks the
    /// defeated fighter's experience with the attacker, exactly once.
    pub fn attack(&mut self, target: &mut Object, messages: &mut Messages)
        requires
            obj_wf(*old(self)),
            obj_wf(*old(target)),
            old(target).fighter is Some ==> old(target).alive,
            (old(self).fighter is Some && old(target).fighter is Some) ==> old(
                self,
            ).fighter.unwrap().xp + old(target).fighter.unwrap().xp <= i32::MAX,
        ensures
            obj_wf(*final(self)),
            obj_wf(*final(target)),
            attack_rel(
                *old(self),
                *old(target),
                *final(self),
                *final(target),
                *old(messages),
                *final(messages),
            ),
    {
        let power = match self.fighter {
            Some(f) => f.power,
            None => 0,
        };
        let defense = match target.fighter {
            Some(f) => f.defense,
            None => 0,
        };
        let damage = power - defense;
        if damage > 0 {
            let text = self
                .name
                .clone()
                .concat(" attacks ")
                .concat(target.name.as_str())
                .concat(" for ")
                .concat(i32_string(damage).as_str())
                .concat(" hit points.");
            proof {
                assert(text@ =~= attack_msg(self.name@, target.name@, damage as int));
            }
            messages.add(text, ColorCode::White);
            let ghost mid = *messages;
            if let Some(xp) = target.take_damage(damage, messages) {
                let f = match self.fighter {
                    Some(f) => f,
                    None => Fighter {
                        max_hp: 1,
                        hp: 1,
                        defense: 0,
                        power: 0,
                        xp: 0,
                        on_death: DeathCallback::Monster,
                    },
                };
                let mut updated = f;
                updated.xp = updated.xp + xp;
                self.fighter = Some(updated);
            }
            proof {
                let pre = old(messages).messages@;
                assert forall|i: int| 0 <= i < pre.len() implies messages.messages@[i]
                    == #[trigger] pre[i] by {
                    assert(messages.messages@[i] == mid.messages@[i]);
                    assert(mid.messages@[i] == pre[i]);
                }
                assert(messages.messages@[pre.len() as int] == mid.messages@[pre.len() as int]);
            }
        } else {
            let text = self
                .name
                .clone()
                .concat(" attacks ")
                .concat(target.name.as_str())
                .concat(" but it has no effect!");
            proof {
                assert(text@ =~= no_effect_msg(self.name@, target.name@));
            }
            messages.add(text, ColorCode::White);
        }
    }
}

/// Death transition of the player: the game ends and the player's glyph
/// becomes a corpse; the fighter component stays.
fn player_death(player: &mut Object, messages: &mut Messages)
    ensures
        *final(player) == (Object { glyph: '%', color: ColorCode::DarkRed, ..*old(player) }),
        logged(*old(messages), *final(messages), "You died!"@, ColorCode::Red),
{
    messages.add("You died!".to_owned(), ColorCode::Red);
    player.glyph = '%';
    player.color = ColorCode::DarkRed;
}

/// Death transition of a monster: it becomes harmless, unblocking remains,
/// and its fighter and behaviour components are gone for good.
fn monster_death(monster: &mut Object, messages: &mut Messages)
    requires
        old(monster).fighter is Some,
    ensures
        final(monster).x == old(monster).x,
        final(monster).y == old(monster).y,
        final(monster).glyph == '%',
        final(monster).color == ColorCode::DarkRed,
        final(monster).blocks == false,
        final(monster).alive == old(monster).alive,
        final(monster).name@ == "remains of "@ + old(monster).name@,
        final(monster).always_visible == old(monster).always_visible,
        final(monster).fighter is None,
        final(monster).ai is None,
        final(monster).item == old(monster).item,
        final(monster).level == old(monster).level,
        logged(
            *old(messages),
            *final(messages),
            monster_death_msg(old(monster).name@, old(monster).fighter.unwrap().xp as int),
            ColorCode::Orange,
        ),
{
    let xp = match monster.fighter {
        Some(f) => f.xp,
        None => 0,
    };
    let text = monster
        .name
        .clone()
        .concat(" is dead! You gain ")
        .concat(i32_string(xp).as_str())
        .concat(" experience points.");
    proof {
        assert(text@ =~= monster_death_msg(monster.name@, xp as int));
    }
    messages.add(text, ColorCode::Orange);
    monster.glyph = '%';
    monster.color = ColorCode::DarkRed;
    monster.blocks = false;
    monster.fighter = None;
    monster.ai = None;
    let remains = "remains of ".to_owned().concat(monster.name.as_str());
    monster.name = remains;
}

} // verus!
