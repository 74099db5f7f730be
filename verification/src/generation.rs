//! Dungeon generation: depth-scaled tables, weighted spawning, room
//! placement by rejection, tunnel carving, and level assembly.

use vstd::prelude::*;
use vstd::arithmetic::div_mod::lemma_fundamental_div_mod;
use crate::rect::Rect;
use crate::tile::Tile;
use crate::tile::TileMap;
use crate::tile::in_bounds;
use crate::messages::ColorCode;
use crate::messages::Messages;
use crate::object::Ai;
use crate::object::DeathCallback;
use crate::object::Fighter;
use crate::object::Item;
use crate::object::Object;
use crate::object::obj_wf;
use crate::game::Game;
use crate::game::game_wf;
use crate::game::map_walled;
use crate::motion::is_blocked;
use crate::rng::Rng;
use crate::MAP_WIDTH;
use crate::MAP_HEIGHT;
use crate::MAX_ROOMS;
use crate::ROOM_MIN_SIZE;
use crate::ROOM_MAX_SIZE;
use crate::OBJECT_CAP;
use crate::PLAYER;

verus! {

/// One step of a depth table: from `level` upward, `value` applies.
#[derive(Clone, Copy, Debug, PartialEq, Eq, Structural)]
pub struct Transition {
    pub level: u32,
    pub value: u32,
}

/// The value of a depth table at `level`: the value of the last entry
/// whose threshold the level has reached, or zero below them all.
pub open spec fn from_table(table: Seq<Transition>, level: int) -> int
    decreases table.len(),
{
    if table.len() == 0 {
        0
    } else if level >= table.last().level {
        table.last().value as int
    } else {
        from_table(table.drop_last(), level)
    }
}

/// Returns a value that depends on the dungeon level. The table gives
/// the value that applies from each threshold upward; below every
/// threshold the value is zero.
pub fn from_dungeon_level(table: &[Transition], level: u32) -> (r: u32)
    ensures
        r as int == from_table(table@, level as int),
        r == 0 || exists|i: int| 0 <= i < table@.len() && r == (#[trigger] table@[i]).value,
{
    proof {
        assert(table@.subrange(0, table@.len() as int) =~= table@);
    }
    let mut i: usize = table.len();
    while i > 0
        invariant
            i <= table@.len(),
            from_table(table@, level as int) == from_table(
                table@.subrange(0, i as int),
                level as int,
            ),
            forall|j: int| i <= j < table@.len() ==> level < (#[trigger] table@[j]).level,
        decreases i,
    {
        i = i - 1;
        if level >= table[i].level {
            proof {
                assert(table@.subrange(0, i + 1).last() == table@[i as int]);
                assert(table@.subrange(0, i + 1).drop_last() =~= table@.subrange(0, i as int));
            }
            return table[i].value;
        }
        proof {
            assert(table@.subrange(0, i + 1).last() == table@[i as int]);
            assert(table@.subrange(0, i + 1).drop_last() =~= table@.subrange(0, i as int));
        }
    }
    proof {
        assert(table@.subrange(0, 0).len() == 0);
    }
    0
}

/// The sum of a weight table.
pub open spec fn wsum(ws: Seq<u32>) -> int
    decreases ws.len(),
{
    if ws.len() == 0 {
        0
    } else {
        ws.first() + wsum(ws.drop_first())
    }
}

/// Which entry a draw of `x` lands on, scanning cumulative weights from
/// entry `i` with `acc` already passed.
pub open spec fn pick_from(ws: Seq<u32>, x: int, i: int, acc: int) -> int
    decreases ws.len() - i,
{
    if i < 0 || i >= ws.len() {
        i
    } else if x < acc + ws[i] {
        i
    } else {
        pick_from(ws, x, i + 1, acc + ws[i])
    }
}

/// Which entry a draw of `x` over the cumulative weight sum selects.
pub open spec fn pick_index(ws: Seq<u32>, x: int) -> int {
    pick_from(ws, x, 0, 0)
}

/// The partial weight sums agree with the total.
proof fn lemma_wsum_split(ws: Seq<u32>, i: int)
    requires
        0 <= i < ws.len(),
    ensures
        wsum(ws.subrange(0, i)) + ws[i] == wsum(ws.subrange(0, i + 1)),
    decreases i,
{
    if i == 0 {
        assert(ws.subrange(0, 1).first() == ws[0]);
        assert(ws.subrange(0, 1).drop_first() =~= ws.subrange(0, 0));
    } else {
        assert(ws.subrange(0, i).first() == ws[0]);
        assert(ws.subrange(0, i).drop_first() =~= ws.subrange(1, i));
        assert(ws.subrange(0, i + 1).first() == ws[0]);
        assert(ws.subrange(0, i + 1).drop_first() =~= ws.subrange(1, i + 1));
        lemma_wsum_split(ws.drop_first(), i - 1);
        assert(ws.drop_first().subrange(0, i - 1) =~= ws.subrange(1, i));
        assert(ws.drop_first().subrange(0, i) =~= ws.subrange(1, i + 1));
        assert(ws.drop_first()[i - 1] == ws[i]);
    }
}

/// Draw an entry of a weight table, each entry with odds proportional
/// to its weight over the cumulative sum. Zero-weight entries are never
/// drawn.
#[verifier::rlimit(100)]
#[verifier::spinoff_prover]
pub fn weighted_pick(rng: &mut Rng, weights: &Vec<u32>) -> (r: usize)
    requires
        1 <= weights@.len() <= 16,
        forall|i: int| 0 <= i < weights@.len() ==> (#[trigger] weights@[i]) <= 1000,
        wsum(weights@) > 0,
    ensures
        final(rng).state == crate::rng::next_state(old(rng).state),
        r < weights@.len(),
        weights@[r as int] > 0,
        r as int == pick_index(weights@, crate::rng::ranged(final(rng).state, 0, wsum(weights@))),
{
    let n = weights.len();
    let mut total: u32 = 0;
    let mut i: usize = 0;
    while i < n
        invariant
            n == weights@.len(),
            n <= 16,
            i <= n,
            forall|k: int| 0 <= k < weights@.len() ==> (#[trigger] weights@[k]) <= 1000,
            total == wsum(weights@.subrange(0, i as int)),
            total <= 1000 * i,
        decreases n - i,
    {
        proof {
            lemma_wsum_split(weights@, i as int);
        }
        total = total + weights[i];
        i = i + 1;
    }
    proof {
        assert(weights@.subrange(0, n as int) =~= weights@);
    }
    let x = rng.range_u32(0, total);

    let mut acc: u32 = 0;
    let mut j: usize = 0;
    while j < n
        invariant
            n == weights@.len(),
            n <= 16,
            j <= n,
            forall|k: int| 0 <= k < weights@.len() ==> (#[trigger] weights@[k]) <= 1000,
            acc == wsum(weights@.subrange(0, j as int)),
            acc <= 1000 * j,
            x >= acc,
            x < wsum(weights@),
            rng.state == crate::rng::next_state(old(rng).state),
            x as int == crate::rng::ranged(rng.state, 0, wsum(weights@)),
            pick_index(weights@, x as int) == pick_from(weights@, x as int, j as int, acc as int),
        decreases n - j,
    {
        proof {
            lemma_wsum_split(weights@, j as int);
        }
        if x < acc + weights[j] {
            return j;
        }
        acc = acc + weights[j];
        j = j + 1;
    }
    proof {
        assert(weights@.subrange(0, n as int) =~= weights@);
        assert(false);
    }
    0
}

/// The depth table for how many monster placements a room attempts.
pub open spec fn monster_count_table() -> Seq<Transition> {
    seq![
        Transition { level: 1, value: 2 },
        Transition { level: 4, value: 3 },
        Transition { level: 6, value: 5 },
    ]
}

/// The depth table for how many item placements a room attempts.
pub open spec fn item_count_table() -> Seq<Transition> {
    seq![Transition { level: 1, value: 1 }, Transition { level: 4, value: 2 }]
}

/// The depth table for a troll's weight in the monster draw.
pub open spec fn troll_weight_table() -> Seq<Transition> {
    seq![
        Transition { level: 3, value: 15 },
        Transition { level: 5, value: 30 },
        Transition { level: 7, value: 60 },
    ]
}

/// Most monster placements a room attempts at this depth.
pub open spec fn spec_max_monsters(level: int) -> int {
    from_table(monster_count_table(), level)
}

/// Most item placements a room attempts at this depth.
pub open spec fn spec_max_items(level: int) -> int {
    from_table(item_count_table(), level)
}

/// The weight row of the monster draw at this depth: orc, then troll.
pub open spec fn monster_weights(level: int) -> Seq<u32> {
    seq![80u32, from_table(troll_weight_table(), level) as u32]
}

/// Whether the monster draw resolved by state `s` lands on the troll.
pub open spec fn spec_draw_troll(level: int, s: u64) -> bool {
    let w = monster_weights(level);
    pick_index(w, crate::rng::ranged(s, 0, wsum(w))) == 1
}

/// The weight row of the item draw at this depth: potion, lightning,
/// fireball, confusion.
pub open spec fn item_weights(level: int) -> Seq<u32> {
    seq![
        35u32,
        from_table(seq![Transition { level: 4, value: 25 }], level) as u32,
        from_table(seq![Transition { level: 6, value: 25 }], level) as u32,
        from_table(seq![Transition { level: 2, value: 10 }], level) as u32,
    ]
}

/// The item kind the draw resolved by state `s` lands on.
pub open spec fn spec_draw_item_kind(level: int, s: u64) -> Item {
    let w = item_weights(level);
    let p = pick_index(w, crate::rng::ranged(s, 0, wsum(w)));
    if p == 0 {
        Item::Heal
    } else if p == 1 {
        Item::Lightning
    } else if p == 2 {
        Item::Fireball
    } else {
        Item::Confuse
    }
}

/// An orc with its fixed combat profile, standing at `(x, y)`, alive.
pub open spec fn is_orc(o: Object, x: int, y: int) -> bool {
    &&& o.x == x
    &&& o.y == y
    &&& o.glyph == 'o'
    &&& o.color == ColorCode::DesaturatedGreen
    &&& o.blocks
    &&& o.alive
    &&& o.name@ == "orc"@
    &&& !o.always_visible
    &&& o.fighter == Some(
        Fighter {
            max_hp: 10,
            hp: 10,
            defense: 0,
            power: 3,
            xp: 35,
            on_death: DeathCallback::Monster,
        },
    )
    &&& o.ai == Some(Ai::Basic)
    &&& o.item is None
    &&& o.level == 1
}

/// A troll with its fixed combat profile, standing at `(x, y)`, alive.
pub open spec fn is_troll(o: Object, x: int, y: int) -> bool {
    &&& o.x == x
    &&& o.y == y
    &&& o.glyph == 'T'
    &&& o.color == ColorCode::DarkerGreen
    &&& o.blocks
    &&& o.alive
    &&& o.name@ == "troll"@
    &&& !o.always_visible
    &&& o.fighter == Some(
        Fighter {
            max_hp: 16,
            hp: 16,
            defense: 1,
            power: 4,
            xp: 100,
            on_death: DeathCallback::Monster,
        },
    )
    &&& o.ai == Some(Ai::Basic)
    &&& o.item is None
    &&& o.level == 1
}

/// A ground item of the given kind at `(x, y)`: non-blocking, inert,
/// always visible once its tile is explored.
pub open spec fn is_ground_item(o: Object, x: int, y: int) -> bool {
    &&& o.x == x
    &&& o.y == y
    &&& !o.blocks
    &&& !o.alive
    &&& o.always_visible
    &&& o.fighter is None
    &&& o.ai is None
    &&& o.level == 1
    &&& match o.item {
        Some(Item::Heal) => o.glyph == '!' && o.color == ColorCode::Violet && o.name@
            == "healing potion"@,
        Some(Item::Lightning) => o.glyph == '#' && o.color == ColorCode::LightYellow && o.name@
            == "scroll of lightning bolt"@,
        Some(Item::Confuse) => o.glyph == '#' && o.color == ColorCode::LightYellow && o.name@
            == "scroll of confusion"@,
        Some(Item::Fireball) => o.glyph == '#' && o.color == ColorCode::LightYellow && o.name@
            == "scroll of fireball"@,
        None => false,
    }
}

/// What every object spawned into `room` satisfies: one of the fixed
/// monster or item shapes, strictly inside the room, on a walkable tile
/// that no earlier spawned blocking object holds — the placement test
/// rejects an occupied tile whether or not the new spawn itself blocks.
/// (The player is placed afterwards, at the first room's center.)
#[verifier::opaque]
pub open spec fn spawned_ok(objs: Seq<Object>, k: int, room: Rect, map: TileMap) -> bool {
    let o = objs[k];
    &&& room.x1 < o.x < room.x2
    &&& room.y1 < o.y < room.y2
    &&& in_bounds(o.x as int, o.y as int)
    &&& !map.at(o.x as int, o.y as int).blocked
    &&& (is_orc(o, o.x as int, o.y as int) || is_troll(o, o.x as int, o.y as int)
        || is_ground_item(o, o.x as int, o.y as int))
    &&& forall|j: int|
        1 <= j < k ==> !((#[trigger] objs[j]).blocks && objs[j].x == o.x && objs[j].y == o.y)
}

/// One monster-placement attempt, pinned to the random chain: two draws
/// pick the tile; a free tile costs one more draw (which of the two
/// monsters) and appends exactly that monster; an occupied tile appends
/// nothing.
pub open spec fn monster_attempt_rel(
    room: Rect,
    map: TileMap,
    level: int,
    objs0: Seq<Object>,
    objs1: Seq<Object>,
    s0: u64,
    s1: u64,
) -> bool {
    let sx = crate::rng::next_state(s0);
    let sy = crate::rng::next_state(sx);
    let x = crate::rng::ranged(sx, room.x1 + 1, room.x2 as int);
    let y = crate::rng::ranged(sy, room.y1 + 1, room.y2 as int);
    if !crate::motion::spec_is_blocked(x, y, map, objs0) {
        let st = crate::rng::next_state(sy);
        &&& s1 == st
        &&& objs1.len() == objs0.len() + 1
        &&& objs1.drop_last() == objs0
        &&& (if spec_draw_troll(level, st) {
            is_troll(objs1.last(), x, y)
        } else {
            is_orc(objs1.last(), x, y)
        })
    } else {
        objs1 == objs0 && s1 == sy
    }
}

/// `n` monster-placement attempts in a row, each continuing the random
/// chain and the object list where the previous one left them.
pub open spec fn monster_attempts_rel(
    room: Rect,
    map: TileMap,
    level: int,
    n: int,
    objs0: Seq<Object>,
    objs1: Seq<Object>,
    s0: u64,
    s1: u64,
) -> bool
    decreases n,
{
    if n <= 0 {
        objs1 == objs0 && s1 == s0
    } else {
        exists|objsm: Seq<Object>, sm: u64|
            monster_attempts_rel(room, map, level, n - 1, objs0, objsm, s0, sm)
                && monster_attempt_rel(room, map, level, objsm, objs1, sm, s1)
    }
}

/// One item-placement attempt, pinned to the random chain exactly as a
/// monster attempt is, the kind draw replacing the monster draw.
pub open spec fn item_attempt_rel(
    room: Rect,
    map: TileMap,
    level: int,
    objs0: Seq<Object>,
    objs1: Seq<Object>,
    s0: u64,
    s1: u64,
) -> bool {
    let sx = crate::rng::next_state(s0);
    let sy = crate::rng::next_state(sx);
    let x = crate::rng::ranged(sx, room.x1 + 1, room.x2 as int);
    let y = crate::rng::ranged(sy, room.y1 + 1, room.y2 as int);
    if !crate::motion::spec_is_blocked(x, y, map, objs0) {
        let st = crate::rng::next_state(sy);
        &&& s1 == st
        &&& objs1.len() == objs0.len() + 1
        &&& objs1.drop_last() == objs0
        &&& is_ground_item(objs1.last(), x, y)
        &&& objs1.last().item == Some(spec_draw_item_kind(level, st))
    } else {
        objs1 == objs0 && s1 == sy
    }
}

/// `n` item-placement attempts in a row.
pub open spec fn item_attempts_rel(
    room: Rect,
    map: TileMap,
    level: int,
    n: int,
    objs0: Seq<Object>,
    objs1: Seq<Object>,
    s0: u64,
    s1: u64,
) -> bool
    decreases n,
{
    if n <= 0 {
        objs1 == objs0 && s1 == s0
    } else {
        exists|objsm: Seq<Object>, sm: u64|
            item_attempts_rel(room, map, level, n - 1, objs0, objsm, s0, sm)
                && item_attempt_rel(room, map, level, objsm, objs1, sm, s1)
    }
}

/// Everything room population does, as a function of the incoming random
/// state: one draw fixes the monster attempt count from the depth table,
/// the attempts run in order, one draw fixes the item attempt count, and
/// those attempts run in order; the final state is the chain's end.
pub open spec fn place_rel(
    room: Rect,
    map: TileMap,
    level: int,
    objs0: Seq<Object>,
    objs1: Seq<Object>,
    s0: u64,
    s1: u64,
) -> bool {
    let s_nm = crate::rng::next_state(s0);
    let nm = crate::rng::ranged(s_nm, 0, spec_max_monsters(level) + 1);
    exists|objsm: Seq<Object>, sm: u64|
        {
            &&& monster_attempts_rel(room, map, level, nm, objs0, objsm, s_nm, sm)
            &&& ({
                let s_ni = crate::rng::next_state(sm);
                let ni = crate::rng::ranged(s_ni, 0, spec_max_items(level) + 1);
                item_attempts_rel(room, map, level, ni, objsm, objs1, s_ni, s1)
            })
        }
}

/// An orc, ready to fight, at `(x, y)`.
fn orc_at(x: i32, y: i32) -> (r: Object)
    ensures
        is_orc(r, x as int, y as int),
{
    let mut object = Object::new(x, y, 'o', "orc", ColorCode::DesaturatedGreen, true);
    object.fighter = Some(
        Fighter { max_hp: 10, hp: 10, defense: 0, power: 3, xp: 35, on_death: DeathCallback::Monster },
    );
    object.ai = Some(Ai::Basic);
    object.alive = true;
    object
}

/// A troll, ready to fight, at `(x, y)`.
fn troll_at(x: i32, y: i32) -> (r: Object)
    ensures
        is_troll(r, x as int, y as int),
{
    let mut object = Object::new(x, y, 'T', "troll", ColorCode::DarkerGreen, true);
    object.fighter = Some(
        Fighter { max_hp: 16, hp: 16, defense: 1, power: 4, xp: 100, on_death: DeathCallback::Monster },
    );
    object.ai = Some(Ai::Basic);
    object.alive = true;
    object
}

/// A ground item of the given kind at `(x, y)`.
fn item_at(x: i32, y: i32, kind: Item) -> (r: Object)
    ensures
        is_ground_item(r, x as int, y as int),
        r.item == Some(kind),
{
    let mut object = match kind {
        Item::Heal => Object::new(x, y, '!', "healing potion", ColorCode::Violet, false),
        Item::Lightning => Object::new(
            x,
            y,
            '#',
            "scroll of lightning bolt",
            ColorCode::LightYellow,
            false,
        ),
        Item::Confuse => Object::new(x, y, '#', "scroll of confusion", ColorCode::LightYellow, false),
        Item::Fireball => Object::new(x, y, '#', "scroll of fireball", ColorCode::LightYellow, false),
    };
    object.item = Some(kind);
    object.always_visible = true;
    object
}

/// Draw whether the next monster is a troll, with odds scaled by depth.
fn draw_troll(level: u32, rng: &mut Rng) -> (r: bool)
    ensures
        final(rng).state == crate::rng::next_state(old(rng).state),
        r == spec_draw_troll(level as int, final(rng).state),
{
    let mut troll_table: Vec<Transition> = Vec::new();
    troll_table.push(Transition { level: 3, value: 15 });
    troll_table.push(Transition { level: 5, value: 30 });
    troll_table.push(Transition { level: 7, value: 60 });
    proof {
        assert(troll_table@ =~= troll_weight_table());
    }
    let troll_chance = from_dungeon_level(troll_table.as_slice(), level);
    proof {
        assert(troll_chance <= 60) by {
            if troll_chance != 0 {
                let i = choose|i: int|
                    0 <= i < troll_table@.len() && troll_chance == (
                    #[trigger] troll_table@[i]).value;
            }
        }
    }
    let mut monster_chances: Vec<u32> = Vec::new();
    monster_chances.push(80);
    monster_chances.push(troll_chance);
    proof {
        assert(monster_chances@.drop_first() =~= seq![troll_chance]);
        assert(wsum(Seq::<u32>::empty()) == 0);
        assert(seq![troll_chance].drop_first() =~= Seq::<u32>::empty());
        assert(wsum(seq![troll_chance]) == troll_chance + wsum(Seq::<u32>::empty()));
        assert(wsum(monster_chances@) == 80 + wsum(seq![troll_chance]));
        assert(monster_chances@ =~= monster_weights(level as int));
    }
    let pick = weighted_pick(rng, &monster_chances);
    pick == 1
}

/// Draw the kind of the next ground item, with odds scaled by depth.
fn draw_item_kind(level: u32, rng: &mut Rng) -> (r: Item)
    ensures
        final(rng).state == crate::rng::next_state(old(rng).state),
        r == spec_draw_item_kind(level as int, final(rng).state),
{
    let mut lightning_table: Vec<Transition> = Vec::new();
    lightning_table.push(Transition { level: 4, value: 25 });
    let mut fireball_table: Vec<Transition> = Vec::new();
    fireball_table.push(Transition { level: 6, value: 25 });
    let mut confuse_table: Vec<Transition> = Vec::new();
    confuse_table.push(Transition { level: 2, value: 10 });
    let w_lightning = from_dungeon_level(lightning_table.as_slice(), level);
    let w_fireball = from_dungeon_level(fireball_table.as_slice(), level);
    let w_confuse = from_dungeon_level(confuse_table.as_slice(), level);
    proof {
        assert(w_lightning <= 25) by {
            if w_lightning != 0 {
                let i = choose|i: int|
                    0 <= i < lightning_table@.len() && w_lightning == (
                    #[trigger] lightning_table@[i]).value;
            }
        }
        assert(w_fireball <= 25) by {
            if w_fireball != 0 {
                let i = choose|i: int|
                    0 <= i < fireball_table@.len() && w_fireball == (
                    #[trigger] fireball_table@[i]).value;
            }
        }
        assert(w_confuse <= 10) by {
            if w_confuse != 0 {
                let i = choose|i: int|
                    0 <= i < confuse_table@.len() && w_confuse == (
                    #[trigger] confuse_table@[i]).value;
            }
        }
    }
    let mut item_chances: Vec<u32> = Vec::new();
    item_chances.push(35);
    item_chances.push(w_lightning);
    item_chances.push(w_fireball);
    item_chances.push(w_confuse);
    proof {
        assert(item_chances@.drop_first() =~= seq![w_lightning, w_fireball, w_confuse]);
        assert(seq![w_lightning, w_fireball, w_confuse].drop_first() =~= seq![w_fireball, w_confuse]);
        assert(seq![w_fireball, w_confuse].drop_first() =~= seq![w_confuse]);
        assert(seq![w_confuse].drop_first() =~= Seq::<u32>::empty());
        assert(wsum(Seq::<u32>::empty()) == 0);
        assert(wsum(seq![w_confuse]) == w_confuse + wsum(Seq::<u32>::empty()));
        assert(wsum(seq![w_fireball, w_confuse]) == w_fireball + wsum(seq![w_confuse]));
        assert(wsum(seq![w_lightning, w_fireball, w_confuse]) == w_lightning + wsum(
            seq![w_fireball, w_confuse],
        ));
        assert(wsum(item_chances@) == 35 + wsum(seq![w_lightning, w_fireball, w_confuse]));
        assert(item_chances@ =~= item_weights(level as int));
    }
    let pick = weighted_pick(rng, &item_chances);
    if pick == 0 {
        Item::Heal
    } else if pick == 1 {
        Item::Lightning
    } else if pick == 2 {
        Item::Fireball
    } else {
        Item::Confuse
    }
}

/// One monster-placement attempt: draw a spot in the room and, if it is
/// free, spawn an orc or troll there, odds scaled by depth.
#[verifier::rlimit(100)]
#[verifier::spinoff_prover]
fn try_spawn_monster(room: Rect, map: &TileMap, objects: &mut Vec<Object>, level: u32, rng: &mut Rng)
    requires
        map.wf(),
        0 <= room.x1,
        0 <= room.y1,
        room.x1 + 2 <= room.x2 < MAP_WIDTH,
        room.y1 + 2 <= room.y2 < MAP_HEIGHT,
        old(objects)@.len() + 1 <= OBJECT_CAP,
    ensures
        old(objects)@.len() <= final(objects)@.len() <= old(objects)@.len() + 1,
        forall|i: int| 0 <= i < old(objects)@.len() ==> final(objects)@[i] == #[trigger] old(
            objects,
        )@[i],
        forall|k: int|
            old(objects)@.len() <= k < final(objects)@.len() ==> spawned_ok(
                final(objects)@,
                k,
                room,
                *map,
            ),
        monster_attempt_rel(
            room,
            *map,
            level as int,
            old(objects)@,
            final(objects)@,
            old(rng).state,
            final(rng).state,
        ),
{
    let x = rng.range_i32(room.x1 + 1, room.x2);
    let y = rng.range_i32(room.y1 + 1, room.y2);

    if !is_blocked(x, y, map, objects) {
        let troll = draw_troll(level, rng);
        let monster = if troll {
            troll_at(x, y)
        } else {
            orc_at(x, y)
        };
        objects.push(monster);
        proof {
            reveal(spawned_ok);
            assert(spawned_ok(objects@, objects@.len() - 1, room, *map));
            assert(objects@.drop_last() =~= old(objects)@);
        }
    }
}

/// One item-placement attempt: draw a spot in the room and, if it is
/// free, lay an item there, the kind drawn from depth-scaled odds.
#[verifier::rlimit(100)]
#[verifier::spinoff_prover]
fn try_spawn_item(room: Rect, map: &TileMap, objects: &mut Vec<Object>, level: u32, rng: &mut Rng)
    requires
        map.wf(),
        0 <= room.x1,
        0 <= room.y1,
        room.x1 + 2 <= room.x2 < MAP_WIDTH,
        room.y1 + 2 <= room.y2 < MAP_HEIGHT,
        old(objects)@.len() + 1 <= OBJECT_CAP,
    ensures
        old(objects)@.len() <= final(objects)@.len() <= old(objects)@.len() + 1,
        forall|i: int| 0 <= i < old(objects)@.len() ==> final(objects)@[i] == #[trigger] old(
            objects,
        )@[i],
        forall|k: int|
            old(objects)@.len() <= k < final(objects)@.len() ==> spawned_ok(
                final(objects)@,
                k,
                room,
                *map,
            ),
        item_attempt_rel(
            room,
            *map,
            level as int,
            old(objects)@,
            final(objects)@,
            old(rng).state,
            final(rng).state,
        ),
{
    let x = rng.range_i32(room.x1 + 1, room.x2);
    let y = rng.range_i32(room.y1 + 1, room.y2);

    if !is_blocked(x, y, map, objects) {
        let kind = draw_item_kind(level, rng);
        let item = item_at(x, y, kind);
        objects.push(item);
        proof {
            reveal(spawned_ok);
            assert(spawned_ok(objects@, objects@.len() - 1, room, *map));
            assert(objects@.drop_last() =~= old(objects)@);
        }
    }
}

/// One of the two fixed monster shapes, standing wherever it stands.
pub open spec fn monster_shaped(o: Object) -> bool {
    is_orc(o, o.x as int, o.y as int) || is_troll(o, o.x as int, o.y as int)
}

/// The fixed ground-item shape, standing wherever it stands.
pub open spec fn item_shaped(o: Object) -> bool {
    is_ground_item(o, o.x as int, o.y as int)
}

/// The new entries split into first `nm` monsters, then items, with each
/// category capped by its depth table: at most table-many monsters and
/// table-many items join a room.
pub open spec fn split_spawned(
    objs0: Seq<Object>,
    objs1: Seq<Object>,
    nm: int,
    level: int,
) -> bool {
    &&& 0 <= nm <= spec_max_monsters(level)
    &&& objs0.len() + nm <= objs1.len()
    &&& objs1.len() - objs0.len() - nm <= spec_max_items(level)
    &&& forall|k: int|
        objs0.len() <= k < objs0.len() + nm ==> monster_shaped(#[trigger] objs1[k])
    &&& forall|k: int| objs0.len() + nm <= k < objs1.len() ==> item_shaped(#[trigger] objs1[k])
}

/// Populate a freshly carved room with monsters and items, counts and
/// kinds drawn from the depth tables. Nothing is ever placed on a
/// blocked tile or a tile already holding a blocking entity. The whole
/// run is pinned to the random chain by `place_rel`: the attempt counts
/// are the drawn values, every attempt's tile is the drawn tile, and the
/// outgoing random state is the chain's end. The spawns split into at
/// most the depth table's monsters followed by at most the depth table's
/// items.
#[verifier::rlimit(100)]
#[verifier::spinoff_prover]
pub fn place_objects(room: Rect, map: &TileMap, objects: &mut Vec<Object>, level: u32, rng: &mut Rng)
    requires
        map.wf(),
        0 <= room.x1,
        0 <= room.y1,
        room.x1 + 2 <= room.x2 < MAP_WIDTH,
        room.y1 + 2 <= room.y2 < MAP_HEIGHT,
        old(objects)@.len() + 7 <= OBJECT_CAP,
    ensures
        old(objects)@.len() <= final(objects)@.len() <= old(objects)@.len() + 7,
        forall|i: int| 0 <= i < old(objects)@.len() ==> final(objects)@[i] == #[trigger] old(
            objects,
        )@[i],
        forall|k: int|
            old(objects)@.len() <= k < final(objects)@.len() ==> spawned_ok(
                final(objects)@,
                k,
                room,
                *map,
            ),
        place_rel(
            room,
            *map,
            level as int,
            old(objects)@,
            final(objects)@,
            old(rng).state,
            final(rng).state,
        ),
        (exists|nm: int|
            #[trigger] split_spawned(old(objects)@, final(objects)@, nm, level as int)),
{
    let mut monster_table: Vec<Transition> = Vec::new();
    monster_table.push(Transition { level: 1, value: 2 });
    monster_table.push(Transition { level: 4, value: 3 });
    monster_table.push(Transition { level: 6, value: 5 });
    proof {
        assert(monster_table@ =~= monster_count_table());
    }
    let max_monsters = from_dungeon_level(monster_table.as_slice(), level);
    proof {
        assert(max_monsters <= 5) by {
            if max_monsters != 0 {
                let i = choose|i: int|
                    0 <= i < monster_table@.len() && max_monsters == (
                    #[trigger] monster_table@[i]).value;
            }
        }
    }
    let num_monsters = rng.range_u32(0, max_monsters + 1);
    let ghost s_nm = rng.state;

    let mut placed: u32 = 0;
    while placed < num_monsters
        invariant
            map.wf(),
            0 <= room.x1,
            0 <= room.y1,
            room.x1 + 2 <= room.x2 < MAP_WIDTH,
            room.y1 + 2 <= room.y2 < MAP_HEIGHT,
            num_monsters <= 5,
            num_monsters <= spec_max_monsters(level as int),
            placed <= num_monsters,
            old(objects)@.len() + 7 <= OBJECT_CAP,
            old(objects)@.len() <= objects@.len() <= old(objects)@.len() + placed,
            forall|i: int| 0 <= i < old(objects)@.len() ==> objects@[i] == #[trigger] old(
                objects,
            )@[i],
            forall|k: int|
                old(objects)@.len() <= k < objects@.len() ==> spawned_ok(
                    objects@,
                    k,
                    room,
                    *map,
                ),
            forall|k: int|
                old(objects)@.len() <= k < objects@.len() ==> monster_shaped(
                    #[trigger] objects@[k],
                ),
            monster_attempts_rel(
                room,
                *map,
                level as int,
                placed as int,
                old(objects)@,
                objects@,
                s_nm,
                rng.state,
            ),
        decreases num_monsters - placed,
    {
        let ghost before = objects@;
        let ghost s_before = rng.state;
        try_spawn_monster(room, map, objects, level, rng);
        proof {
            assert forall|i: int| 0 <= i < old(objects)@.len() implies objects@[i]
                == #[trigger] old(objects)@[i] by {
                assert(objects@[i] == before[i]);
            }
            lemma_spawned_prefix(before, objects@, old(objects)@.len() as int, room, *map);
            assert forall|k: int|
                old(objects)@.len() <= k < objects@.len() implies monster_shaped(
                #[trigger] objects@[k],
            ) by {
                if k < before.len() {
                    assert(objects@[k] == before[k]);
                } else {
                    assert(objects@.last() == objects@[k]);
                }
            }
            assert(monster_attempts_rel(
                room,
                *map,
                level as int,
                placed + 1,
                old(objects)@,
                objects@,
                s_nm,
                rng.state,
            )) by {
                assert(monster_attempts_rel(
                    room,
                    *map,
                    level as int,
                    placed as int,
                    old(objects)@,
                    before,
                    s_nm,
                    s_before,
                ));
                assert(monster_attempt_rel(
                    room,
                    *map,
                    level as int,
                    before,
                    objects@,
                    s_before,
                    rng.state,
                ));
            }
        }
        placed = placed + 1;
    }

    let ghost after_monsters = objects@;
    let ghost s_m = rng.state;

    let mut item_table: Vec<Transition> = Vec::new();
    item_table.push(Transition { level: 1, value: 1 });
    item_table.push(Transition { level: 4, value: 2 });
    proof {
        assert(item_table@ =~= item_count_table());
    }
    let max_items = from_dungeon_level(item_table.as_slice(), level);
    proof {
        assert(max_items <= 2) by {
            if max_items != 0 {
                let i = choose|i: int|
                    0 <= i < item_table@.len() && max_items == (#[trigger] item_table@[i]).value;
            }
        }
    }
    let num_items = rng.range_u32(0, max_items + 1);
    let ghost s_ni = rng.state;

    let mut placed_items: u32 = 0;
    while placed_items < num_items
        invariant
            map.wf(),
            0 <= room.x1,
            0 <= room.y1,
            room.x1 + 2 <= room.x2 < MAP_WIDTH,
            room.y1 + 2 <= room.y2 < MAP_HEIGHT,
            num_items <= 2,
            num_items <= spec_max_items(level as int),
            placed_items <= num_items,
            after_monsters.len() <= objects@.len() <= after_monsters.len() + placed_items,
            old(objects)@.len() <= after_monsters.len() <= old(objects)@.len() + 5,
            old(objects)@.len() + 7 <= OBJECT_CAP,
            forall|i: int| 0 <= i < old(objects)@.len() ==> objects@[i] == #[trigger] old(
                objects,
            )@[i],
            forall|i: int|
                0 <= i < after_monsters.len() ==> objects@[i] == #[trigger] after_monsters[i],
            forall|k: int|
                old(objects)@.len() <= k < objects@.len() ==> spawned_ok(
                    objects@,
                    k,
                    room,
                    *map,
                ),
            forall|k: int|
                after_monsters.len() <= k < objects@.len() ==> item_shaped(
                    #[trigger] objects@[k],
                ),
            item_attempts_rel(
                room,
                *map,
                level as int,
                placed_items as int,
                after_monsters,
                objects@,
                s_ni,
                rng.state,
            ),
        decreases num_items - placed_items,
    {
        let ghost before = objects@;
        let ghost s_before = rng.state;
        try_spawn_item(room, map, objects, level, rng);
        proof {
            assert forall|i: int| 0 <= i < after_monsters.len() implies objects@[i]
                == #[trigger] after_monsters[i] by {
                assert(objects@[i] == before[i]);
            }
            lemma_spawned_prefix(before, objects@, old(objects)@.len() as int, room, *map);
            assert forall|k: int|
                after_monsters.len() <= k < objects@.len() implies item_shaped(
                #[trigger] objects@[k],
            ) by {
                if k < before.len() {
                    assert(objects@[k] == before[k]);
                } else {
                    assert(objects@.last() == objects@[k]);
                }
            }
            assert(item_attempts_rel(
                room,
                *map,
                level as int,
                placed_items + 1,
                after_monsters,
                objects@,
                s_ni,
                rng.state,
            )) by {
                assert(item_attempts_rel(
                    room,
                    *map,
                    level as int,
                    placed_items as int,
                    after_monsters,
                    before,
                    s_ni,
                    s_before,
                ));
                assert(item_attempt_rel(
                    room,
                    *map,
                    level as int,
                    before,
                    objects@,
                    s_before,
                    rng.state,
                ));
            }
        }
        placed_items = placed_items + 1;
    }
    proof {
        assert(place_rel(
            room,
            *map,
            level as int,
            old(objects)@,
            objects@,
            old(rng).state,
            rng.state,
        )) by {
            assert(s_nm == crate::rng::next_state(old(rng).state));
            assert(num_monsters as int == crate::rng::ranged(
                s_nm,
                0,
                spec_max_monsters(level as int) + 1,
            ));
            assert(s_ni == crate::rng::next_state(s_m));
            assert(num_items as int == crate::rng::ranged(
                s_ni,
                0,
                spec_max_items(level as int) + 1,
            ));
            assert(monster_attempts_rel(
                room,
                *map,
                level as int,
                num_monsters as int,
                old(objects)@,
                after_monsters,
                s_nm,
                s_m,
            ));
            assert(item_attempts_rel(
                room,
                *map,
                level as int,
                num_items as int,
                after_monsters,
                objects@,
                s_ni,
                rng.state,
            ));
        }
        let nm = after_monsters.len() - old(objects)@.len();
        assert(split_spawned(old(objects)@, objects@, nm, level as int)) by {
            assert forall|k: int|
                old(objects)@.len() <= k < old(objects)@.len() + nm implies monster_shaped(
                #[trigger] objects@[k],
            ) by {
                assert(objects@[k] == after_monsters[k]);
            }
        }
    }
}

/// Appending to the list keeps every earlier spawn lawful: the predicate
/// only looks at the entry and what stands before it.
proof fn lemma_spawned_prefix(
    before: Seq<Object>,
    after: Seq<Object>,
    base: int,
    room: Rect,
    map: TileMap,
)
    requires
        0 <= base <= before.len() <= after.len(),
        forall|i: int| 0 <= i < before.len() ==> after[i] == #[trigger] before[i],
        forall|k: int| base <= k < before.len() ==> spawned_ok(before, k, room, map),
        forall|k: int| before.len() <= k < after.len() ==> spawned_ok(after, k, room, map),
    ensures
        forall|k: int| base <= k < after.len() ==> spawned_ok(after, k, room, map),
{
    assert forall|k: int| base <= k < after.len() implies spawned_ok(after, k, room, map) by {
        reveal(spawned_ok);
        if k < before.len() {
            assert(spawned_ok(before, k, room, map));
            assert forall|j: int| 0 <= j < k implies after[j] == before[j] by {}
        }
    }
}


/// Whether `(x, y)` is a tile anything can stand on.
pub open spec fn walkable(map: TileMap, x: int, y: int) -> bool {
    in_bounds(x, y) && !map.at(x, y).blocked
}

/// Whether two tiles share an edge.
pub open spec fn adjacent(a: (int, int), b: (int, int)) -> bool {
    ||| (a.0 == b.0 && (a.1 == b.1 + 1 || a.1 == b.1 - 1))
    ||| (a.1 == b.1 && (a.0 == b.0 + 1 || a.0 == b.0 - 1))
}

/// A walk across walkable tiles, each step to an edge-adjacent tile.
pub open spec fn is_path(map: TileMap, p: Seq<(int, int)>) -> bool {
    &&& p.len() >= 1
    &&& forall|i: int| 0 <= i < p.len() ==> walkable(map, (#[trigger] p[i]).0, p[i].1)
    &&& forall|i: int| 0 <= i < p.len() - 1 ==> adjacent(#[trigger] p[i], p[i + 1])
}

/// Whether a walk leads from `(ax, ay)` to `(bx, by)`.
pub open spec fn connected(map: TileMap, ax: int, ay: int, bx: int, by: int) -> bool {
    exists|p: Seq<(int, int)>|
        is_path(map, p) && p.first() == (ax, ay) && p.last() == (bx, by)
}

/// A walkable tile reaches itself.
pub proof fn lemma_connected_self(map: TileMap, x: int, y: int)
    requires
        walkable(map, x, y),
    ensures
        connected(map, x, y, x, y),
{
    let p: Seq<(int, int)> = seq![(x, y)];
    assert(is_path(map, p) && p.first() == (x, y) && p.last() == (x, y));
}

/// Walks compose.
pub proof fn lemma_connected_trans(
    map: TileMap,
    ax: int,
    ay: int,
    bx: int,
    by: int,
    cx: int,
    cy: int,
)
    requires
        connected(map, ax, ay, bx, by),
        connected(map, bx, by, cx, cy),
    ensures
        connected(map, ax, ay, cx, cy),
{
    let p1 = choose|p: Seq<(int, int)>|
        is_path(map, p) && p.first() == (ax, ay) && p.last() == (bx, by);
    let p2 = choose|p: Seq<(int, int)>|
        is_path(map, p) && p.first() == (bx, by) && p.last() == (cx, cy);
    if p2.len() == 1 {
        assert(is_path(map, p1) && p1.first() == (ax, ay) && p1.last() == (cx, cy));
    } else {
        let q = p1 + p2.subrange(1, p2.len() as int);
        assert(q.last() == p2.last());
        assert forall|i: int| 0 <= i < q.len() implies walkable(map, (#[trigger] q[i]).0, q[i].1) by {
            if i < p1.len() {
                assert(q[i] == p1[i]);
            } else {
                assert(q[i] == p2[i - p1.len() + 1]);
            }
        }
        assert forall|i: int| 0 <= i < q.len() - 1 implies adjacent(#[trigger] q[i], q[i + 1]) by {
            if i + 1 < p1.len() {
                assert(q[i] == p1[i] && q[i + 1] == p1[i + 1]);
            } else if i + 1 == p1.len() {
                assert(q[i] == p1[p1.len() - 1] && q[i + 1] == p2[1]);
                assert(p1.last() == p2.first());
                assert(adjacent(p2[0], p2[1]));
            } else {
                assert(q[i] == p2[i - p1.len() + 1] && q[i + 1] == p2[i - p1.len() + 2]);
                assert(adjacent(p2[i - p1.len() + 1], p2[i - p1.len() + 2]));
            }
        }
        assert(is_path(map, q) && q.first() == (ax, ay) && q.last() == (cx, cy));
    }
}

/// Walks reverse.
pub proof fn lemma_connected_sym(map: TileMap, ax: int, ay: int, bx: int, by: int)
    requires
        connected(map, ax, ay, bx, by),
    ensures
        connected(map, bx, by, ax, ay),
{
    let p = choose|p: Seq<(int, int)>|
        is_path(map, p) && p.first() == (ax, ay) && p.last() == (bx, by);
    let q = Seq::new(p.len(), |i: int| p[p.len() - 1 - i]);
    assert forall|i: int| 0 <= i < q.len() - 1 implies adjacent(#[trigger] q[i], q[i + 1]) by {
        assert(adjacent(p[p.len() - 2 - i], p[p.len() - 1 - i]));
    }
    assert(is_path(map, q) && q.first() == (bx, by) && q.last() == (ax, ay));
}

/// Carving only ever opens tiles, so any walk survives later carving.
pub proof fn lemma_connected_mono(map1: TileMap, map2: TileMap, ax: int, ay: int, bx: int, by: int)
    requires
        connected(map1, ax, ay, bx, by),
        forall|x: int, y: int| walkable(map1, x, y) ==> walkable(map2, x, y),
    ensures
        connected(map2, ax, ay, bx, by),
{
    let p = choose|p: Seq<(int, int)>|
        is_path(map1, p) && p.first() == (ax, ay) && p.last() == (bx, by);
    assert forall|i: int| 0 <= i < p.len() implies walkable(map2, (#[trigger] p[i]).0, p[i].1) by {
        assert(walkable(map1, p[i].0, p[i].1));
    }
    assert(is_path(map2, p) && p.first() == (ax, ay) && p.last() == (bx, by));
}

/// A fully walkable horizontal run is connected end to end.
pub proof fn lemma_h_span(map: TileMap, xa: int, xb: int, y: int)
    requires
        xa <= xb,
        forall|x: int| xa <= x <= xb ==> walkable(map, x, y),
    ensures
        connected(map, xa, y, xb, y),
    decreases xb - xa,
{
    if xa == xb {
        lemma_connected_self(map, xa, y);
    } else {
        lemma_h_span(map, xa, xb - 1, y);
        let step: Seq<(int, int)> = seq![(xb - 1, y), (xb, y)];
        assert(is_path(map, step) && step.first() == (xb - 1, y) && step.last() == (xb, y));
        lemma_connected_trans(map, xa, y, xb - 1, y, xb, y);
    }
}

/// A fully walkable vertical run is connected end to end.
pub proof fn lemma_v_span(map: TileMap, ya: int, yb: int, x: int)
    requires
        ya <= yb,
        forall|y: int| ya <= y <= yb ==> walkable(map, x, y),
    ensures
        connected(map, x, ya, x, yb),
    decreases yb - ya,
{
    if ya == yb {
        lemma_connected_self(map, x, ya);
    } else {
        lemma_v_span(map, ya, yb - 1, x);
        let step: Seq<(int, int)> = seq![(x, yb - 1), (x, yb)];
        assert(is_path(map, step) && step.first() == (x, yb - 1) && step.last() == (x, yb));
        lemma_connected_trans(map, x, ya, x, yb - 1, x, yb);
    }
}

/// Make the interior of a room walkable; everything else is untouched.
pub fn create_room(room: Rect, map: &mut TileMap)
    requires
        old(map).wf(),
        0 <= room.x1 <= room.x2 < MAP_WIDTH,
        0 <= room.y1 <= room.y2 < MAP_HEIGHT,
    ensures
        final(map).wf(),
        forall|i: int, j: int|
            in_bounds(i, j) ==> #[trigger] final(map).at(i, j) == (if room.x1 < i < room.x2
                && room.y1 < j < room.y2 {
                Tile::spec_empty()
            } else {
                old(map).at(i, j)
            }),
{
    let mut x = room.x1 + 1;
    while x < room.x2
        invariant
            map.wf(),
            room.x1 + 1 <= x,
            x <= room.x2 || x == room.x1 + 1,
            0 <= room.x1 <= room.x2,
            0 <= room.y1 <= room.y2,
            room.x2 < MAP_WIDTH,
            room.y2 < MAP_HEIGHT,
            forall|i: int, j: int|
                in_bounds(i, j) ==> #[trigger] map.at(i, j) == (if room.x1 < i < x && room.y1 < j
                    < room.y2 {
                    Tile::spec_empty()
                } else {
                    old(map).at(i, j)
                }),
        decreases room.x2 - x,
    {
        let mut y = room.y1 + 1;
        while y < room.y2
            invariant
                map.wf(),
                room.x1 < x < room.x2,
                room.y1 + 1 <= y,
                y <= room.y2 || y == room.y1 + 1,
                0 <= room.x1,
                0 <= room.y1,
                room.x2 < MAP_WIDTH,
                room.y2 < MAP_HEIGHT,
                forall|i: int, j: int|
                    in_bounds(i, j) ==> #[trigger] map.at(i, j) == (if (room.x1 < i < x
                        && room.y1 < j < room.y2) || (i == x && room.y1 < j < y) {
                        Tile::spec_empty()
                    } else {
                        old(map).at(i, j)
                    }),
            decreases room.y2 - y,
        {
            let ghost before = *map;
            map.set(x, y, Tile::empty());
            proof {
                assert forall|i: int, j: int|
                    in_bounds(i, j) && !(i == x && j == y) implies map.at(i, j) == before.at(
                    i,
                    j,
                ) by {}
            }
            y = y + 1;
        }
        x = x + 1;
    }
}

/// Carve a horizontal tunnel covering both ends.
pub fn create_h_tunnel(x1: i32, x2: i32, y: i32, map: &mut TileMap)
    requires
        old(map).wf(),
        0 <= x1 < MAP_WIDTH,
        0 <= x2 < MAP_WIDTH,
        0 <= y < MAP_HEIGHT,
    ensures
        final(map).wf(),
        forall|i: int, j: int|
            in_bounds(i, j) ==> #[trigger] final(map).at(i, j) == (
            if (if x1 <= x2 { x1 as int } else { x2 as int }) <= i <= (if x1 <= x2 { x2 as int } else { x1 as int }) && j == y {
                Tile::spec_empty()
            } else {
                old(map).at(i, j)
            }),
{
    let lo = if x1 < x2 { x1 } else { x2 };
    let hi = if x1 < x2 { x2 } else { x1 };
    let mut x = lo;
    while x <= hi
        invariant
            map.wf(),
            lo <= x <= hi + 1,
            0 <= lo <= hi < MAP_WIDTH,
            0 <= y < MAP_HEIGHT,
            forall|i: int, j: int|
                in_bounds(i, j) ==> #[trigger] map.at(i, j) == (if lo <= i < x && j == y {
                    Tile::spec_empty()
                } else {
                    old(map).at(i, j)
                }),
        decreases hi + 1 - x,
    {
        let ghost before = *map;
        map.set(x, y, Tile::empty());
        proof {
            assert forall|i: int, j: int|
                in_bounds(i, j) && !(i == x && j == y) implies map.at(i, j) == before.at(
                i,
                j,
            ) by {}
        }
        x = x + 1;
    }
}

/// Carve a vertical tunnel covering both ends.
pub fn create_v_tunnel(y1: i32, y2: i32, x: i32, map: &mut TileMap)
    requires
        old(map).wf(),
        0 <= y1 < MAP_HEIGHT,
        0 <= y2 < MAP_HEIGHT,
        0 <= x < MAP_WIDTH,
    ensures
        final(map).wf(),
        forall|i: int, j: int|
            in_bounds(i, j) ==> #[trigger] final(map).at(i, j) == (
            if (if y1 <= y2 { y1 as int } else { y2 as int }) <= j <= (if y1 <= y2 { y2 as int } else { y1 as int }) && i == x {
                Tile::spec_empty()
            } else {
                old(map).at(i, j)
            }),
{
    let lo = if y1 < y2 { y1 } else { y2 };
    let hi = if y1 < y2 { y2 } else { y1 };
    let mut y = lo;
    while y <= hi
        invariant
            map.wf(),
            lo <= y <= hi + 1,
            0 <= lo <= hi < MAP_HEIGHT,
            0 <= x < MAP_WIDTH,
            forall|i: int, j: int|
                in_bounds(i, j) ==> #[trigger] map.at(i, j) == (if lo <= j < y && i == x {
                    Tile::spec_empty()
                } else {
                    old(map).at(i, j)
                }),
        decreases hi + 1 - y,
    {
        let ghost before = *map;
        map.set(x, y, Tile::empty());
        proof {
            assert forall|i: int, j: int|
                in_bounds(i, j) && !(i == x && j == y) implies map.at(i, j) == before.at(
                i,
                j,
            ) by {}
        }
        y = y + 1;
    }
}


/// A lawfully sized and placed room.
pub open spec fn room_ok(room: Rect) -> bool {
    &&& 0 <= room.x1
    &&& 0 <= room.y1
    &&& room.x1 + ROOM_MIN_SIZE <= room.x2 <= room.x1 + ROOM_MAX_SIZE
    &&& room.y1 + ROOM_MIN_SIZE <= room.y2 <= room.y1 + ROOM_MAX_SIZE
    &&& room.x2 < MAP_WIDTH
    &&& room.y2 < MAP_HEIGHT
}

/// The whole interior of the room is walkable.
pub open spec fn interior_carved(map: TileMap, room: Rect) -> bool {
    forall|i: int, j: int|
        room.x1 < i < room.x2 && room.y1 < j < room.y2 ==> !(#[trigger] map.at(i, j)).blocked
}

/// The entry was spawned into one of the accepted rooms.
pub open spec fn spawned_any(objs: Seq<Object>, k: int, rooms: Seq<Rect>, map: TileMap) -> bool {
    exists|r: int| 0 <= r < rooms.len() && spawned_ok(objs, k, #[trigger] rooms[r], map)
}

/// A lawful room's center lies strictly inside its interior, clear of
/// the map border.
pub proof fn lemma_center_inside(room: Rect)
    requires
        room_ok(room),
    ensures
        room.x1 < room.center_x() < room.x2,
        room.y1 < room.center_y() < room.y2,
        1 <= room.center_x() < MAP_WIDTH - 1,
        1 <= room.center_y() < MAP_HEIGHT - 1,
{
    lemma_fundamental_div_mod(room.x1 + room.x2, 2);
    lemma_fundamental_div_mod(room.y1 + room.y2, 2);
}

/// Carving can only open tiles; everything generation has established
/// about the level so far survives it.
proof fn lemma_mono_preserves(
    map1: TileMap,
    map2: TileMap,
    rooms: Seq<Rect>,
    objs: Seq<Object>,
)
    requires
        forall|x: int, y: int|
            in_bounds(x, y) && !(#[trigger] map1.at(x, y)).blocked ==> !map2.at(x, y).blocked,
        forall|i: int| 0 <= i < rooms.len() ==> room_ok(#[trigger] rooms[i]),
        forall|i: int| 0 <= i < rooms.len() ==> interior_carved(map1, #[trigger] rooms[i]),
        forall|i: int|
            0 <= i < rooms.len() ==> connected(
                map1,
                (#[trigger] rooms[i]).center_x(),
                rooms[i].center_y(),
                rooms[0].center_x(),
                rooms[0].center_y(),
            ),
        forall|k: int| 1 <= k < objs.len() ==> spawned_any(objs, k, rooms, map1),
    ensures
        forall|i: int| 0 <= i < rooms.len() ==> interior_carved(map2, #[trigger] rooms[i]),
        forall|i: int|
            0 <= i < rooms.len() ==> connected(
                map2,
                (#[trigger] rooms[i]).center_x(),
                rooms[i].center_y(),
                rooms[0].center_x(),
                rooms[0].center_y(),
            ),
        forall|k: int| 1 <= k < objs.len() ==> spawned_any(objs, k, rooms, map2),
{
    assert forall|i: int| 0 <= i < rooms.len() implies interior_carved(
        map2,
        #[trigger] rooms[i],
    ) by {
        assert(interior_carved(map1, rooms[i]));
        assert forall|x: int, y: int|
            rooms[i].x1 < x < rooms[i].x2 && rooms[i].y1 < y < rooms[i].y2 implies !(
        #[trigger] map2.at(x, y)).blocked by {
            assert(!map1.at(x, y).blocked);
            assert(in_bounds(x, y));
        }
    }
    assert forall|i: int| 0 <= i < rooms.len() implies connected(
        map2,
        (#[trigger] rooms[i]).center_x(),
        rooms[i].center_y(),
        rooms[0].center_x(),
        rooms[0].center_y(),
    ) by {
        assert forall|x: int, y: int| walkable(map1, x, y) implies walkable(map2, x, y) by {}
        lemma_connected_mono(
            map1,
            map2,
            rooms[i].center_x(),
            rooms[i].center_y(),
            rooms[0].center_x(),
            rooms[0].center_y(),
        );
    }
    assert forall|k: int| 1 <= k < objs.len() implies spawned_any(objs, k, rooms, map2) by {
        assert(spawned_any(objs, k, rooms, map1));
        let r = choose|r: int| 0 <= r < rooms.len() && spawned_ok(objs, k, #[trigger] rooms[r], map1);
        assert(spawned_ok(objs, k, rooms[r], map2)) by {
            reveal(spawned_ok);
            assert(spawned_ok(objs, k, rooms[r], map1));
            assert(in_bounds(objs[k].x as int, objs[k].y as int));
            assert(!map1.at(objs[k].x as int, objs[k].y as int).blocked);
        }
    }
}

/// Whether the candidate touches any accepted room.
fn any_intersects(rooms: &Vec<Rect>, new_room: &Rect) -> (r: bool)
    ensures
        r == exists|i: int|
            0 <= i < rooms@.len() && (*new_room).spec_intersects(#[trigger] rooms@[i]),
{
    let n = rooms.len();
    let mut i: usize = 0;
    while i < n
        invariant
            n == rooms@.len(),
            i <= n,
            forall|j: int| 0 <= j < i ==> !(*new_room).spec_intersects(#[trigger] rooms@[j]),
        decreases n - i,
    {
        if new_room.intersects_with(&rooms[i]) {
            return true;
        }
        i = i + 1;
    }
    false
}

/// Everything the room-placement loop maintains: a walled well-formed
/// map; lawful, pairwise disjoint, carved rooms, each center connected
/// to the first room's center; and an object list holding the player
/// (moved to the first room's center once one exists) followed only by
/// lawful spawns.
pub open spec fn gen_inv(map: TileMap, rooms: Seq<Rect>, objs: Seq<Object>, orig0: Object) -> bool {
    &&& map.wf()
    &&& map_walled(map)
    &&& forall|i: int| 0 <= i < rooms.len() ==> room_ok(#[trigger] rooms[i])
    &&& forall|i: int, j: int|
        0 <= i < j < rooms.len() ==> !(#[trigger] rooms[i]).spec_intersects(#[trigger] rooms[j])
    &&& forall|i: int| 0 <= i < rooms.len() ==> interior_carved(map, #[trigger] rooms[i])
    &&& forall|i: int|
        0 <= i < rooms.len() ==> connected(
            map,
            (#[trigger] rooms[i]).center_x(),
            rooms[i].center_y(),
            rooms[0].center_x(),
            rooms[0].center_y(),
        )
    &&& objs.len() >= 1
    &&& objs.len() <= 1 + 7 * rooms.len()
    &&& (rooms.len() == 0 ==> objs == seq![orig0])
    &&& (rooms.len() >= 1 ==> objs[0] == (Object {
        x: rooms[0].center_x() as i32,
        y: rooms[0].center_y() as i32,
        ..orig0
    }))
    &&& forall|k: int| 1 <= k < objs.len() ==> spawned_any(objs, k, rooms, map)
}

/// Spawns recorded against the grown room list survive carving.
proof fn lemma_spawned_rooms_mono(
    objs: Seq<Object>,
    rooms: Seq<Rect>,
    new_room: Rect,
    map0: TileMap,
    map1: TileMap,
)
    requires
        forall|k: int| 1 <= k < objs.len() ==> spawned_any(objs, k, rooms.push(new_room), map0),
        forall|x: int, y: int|
            in_bounds(x, y) && !(#[trigger] map0.at(x, y)).blocked ==> !map1.at(x, y).blocked,
    ensures
        forall|k: int| 1 <= k < objs.len() ==> spawned_any(objs, k, rooms.push(new_room), map1),
{
    let rs = rooms.push(new_room);
    assert forall|k: int| 1 <= k < objs.len() implies spawned_any(objs, k, rs, map1) by {
        assert(spawned_any(objs, k, rs, map0));
        let r = choose|r: int| 0 <= r < rs.len() && spawned_ok(objs, k, #[trigger] rs[r], map0);
        assert(spawned_ok(objs, k, rs[r], map1)) by {
            reveal(spawned_ok);
            assert(spawned_ok(objs, k, rs[r], map0));
            assert(in_bounds(objs[k].x as int, objs[k].y as int));
            assert(!map0.at(objs[k].x as int, objs[k].y as int).blocked);
        }
    }
}

/// Carving that only opens non-border tiles keeps the whole generation
/// invariant, the object list untouched.
proof fn lemma_gen_inv_after_carve(
    map0: TileMap,
    map1: TileMap,
    rooms: Seq<Rect>,
    objs: Seq<Object>,
    orig0: Object,
)
    requires
        gen_inv(map0, rooms, objs, orig0),
        map1.wf(),
        forall|x: int, y: int|
            in_bounds(x, y) && !(#[trigger] map0.at(x, y)).blocked ==> !map1.at(x, y).blocked,
        forall|x: int, y: int|
            in_bounds(x, y) && (x == 0 || x == MAP_WIDTH - 1 || y == 0 || y == MAP_HEIGHT - 1)
                ==> #[trigger] map1.at(x, y) == map0.at(x, y),
    ensures
        gen_inv(map1, rooms, objs, orig0),
{
    assert(map_walled(map1)) by {
        assert forall|i: int, j: int|
            in_bounds(i, j) && (i == 0 || i == MAP_WIDTH - 1 || j == 0 || j == MAP_HEIGHT - 1)
            implies (#[trigger] map1.at(i, j)).blocked by {
            assert(map1.at(i, j) == map0.at(i, j));
            assert(map0.at(i, j).blocked);
        }
    }
    lemma_mono_preserves(map0, map1, rooms, objs);
}

/// Appending an accepted room re-establishes the generation invariant:
/// it is lawful, disjoint from the others, carved, and its center is
/// joined to the chain.
proof fn lemma_gen_inv_push(
    map: TileMap,
    rooms: Seq<Rect>,
    objs: Seq<Object>,
    orig0: Object,
    new_room: Rect,
)
    requires
        map.wf(),
        map_walled(map),
        forall|i: int| 0 <= i < rooms.len() ==> room_ok(#[trigger] rooms[i]),
        forall|i: int, j: int|
            0 <= i < j < rooms.len() ==> !(#[trigger] rooms[i]).spec_intersects(
                #[trigger] rooms[j],
            ),
        forall|i: int| 0 <= i < rooms.len() ==> interior_carved(map, #[trigger] rooms[i]),
        forall|i: int|
            0 <= i < rooms.len() ==> connected(
                map,
                (#[trigger] rooms[i]).center_x(),
                rooms[i].center_y(),
                rooms[0].center_x(),
                rooms[0].center_y(),
            ),
        room_ok(new_room),
        interior_carved(map, new_room),
        forall|i: int| 0 <= i < rooms.len() ==> !new_room.spec_intersects(#[trigger] rooms[i]),
        rooms.len() >= 1 ==> connected(
            map,
            rooms[rooms.len() - 1].center_x(),
            rooms[rooms.len() - 1].center_y(),
            new_room.center_x(),
            new_room.center_y(),
        ),
        objs.len() >= 1,
        objs.len() <= 1 + 7 * (rooms.len() + 1),
        rooms.len() == 0 ==> objs[0] == (Object {
            x: new_room.center_x() as i32,
            y: new_room.center_y() as i32,
            ..orig0
        }),
        rooms.len() >= 1 ==> objs[0] == (Object {
            x: rooms[0].center_x() as i32,
            y: rooms[0].center_y() as i32,
            ..orig0
        }),
        forall|k: int| 1 <= k < objs.len() ==> spawned_any(objs, k, rooms.push(new_room), map),
    ensures
        gen_inv(map, rooms.push(new_room), objs, orig0),
{
    let rs = rooms.push(new_room);
    let last = rs.len() - 1;
    assert(rs[last] == new_room);
    assert forall|i: int| 0 <= i < rs.len() implies room_ok(#[trigger] rs[i]) by {
        if i < last {
            assert(rs[i] == rooms[i]);
        }
    }
    assert forall|i: int, j: int|
        0 <= i < j < rs.len() implies !(#[trigger] rs[i]).spec_intersects(#[trigger] rs[j]) by {
        if j == last {
            assert(rs[i] == rooms[i]);
            assert(!new_room.spec_intersects(rooms[i]));
            crate::rect::lemma_intersects_symmetric(rooms[i], new_room);
        } else {
            assert(rs[i] == rooms[i] && rs[j] == rooms[j]);
        }
    }
    assert forall|i: int| 0 <= i < rs.len() implies interior_carved(map, #[trigger] rs[i]) by {
        if i < last {
            assert(rs[i] == rooms[i]);
        }
    }
    assert forall|i: int| 0 <= i < rs.len() implies connected(
        map,
        (#[trigger] rs[i]).center_x(),
        rs[i].center_y(),
        rs[0].center_x(),
        rs[0].center_y(),
    ) by {
        lemma_center_inside(new_room);
        if last == 0 {
            assert(!map.at(new_room.center_x(), new_room.center_y()).blocked);
            lemma_connected_self(map, new_room.center_x(), new_room.center_y());
        } else {
            assert(rs[0] == rooms[0]);
            if i == last {
                let prev = rooms[rooms.len() - 1];
                lemma_connected_sym(
                    map,
                    prev.center_x(),
                    prev.center_y(),
                    new_room.center_x(),
                    new_room.center_y(),
                );
                lemma_connected_trans(
                    map,
                    new_room.center_x(),
                    new_room.center_y(),
                    prev.center_x(),
                    prev.center_y(),
                    rooms[0].center_x(),
                    rooms[0].center_y(),
                );
            } else {
                assert(rs[i] == rooms[i]);
            }
        }
    }
}

/// A full-wall canvas: what generation starts carving from.
pub open spec fn walled_canvas(m: TileMap) -> bool {
    &&& m.wf()
    &&& forall|x: int, y: int| in_bounds(x, y) ==> #[trigger] m.at(x, y) == Tile::spec_wall()
}

/// The two grids agree tile for tile.
pub open spec fn same_tiles(a: TileMap, b: TileMap) -> bool {
    forall|i: int, j: int| in_bounds(i, j) ==> #[trigger] a.at(i, j) == b.at(i, j)
}

/// The second grid is the first with `room`'s interior opened and
/// nothing else changed.
pub open spec fn carved_rel(m0: TileMap, m1: TileMap, room: Rect) -> bool {
    &&& m1.wf()
    &&& forall|i: int, j: int|
        in_bounds(i, j) ==> #[trigger] m1.at(i, j) == (if room.x1 < i < room.x2 && room.y1 < j
            < room.y2 {
            Tile::spec_empty()
        } else {
            m0.at(i, j)
        })
}

/// The second grid is the first with an L-shaped tunnel opened between
/// `(px, py)` and `(nx, ny)`: with `horiz` the row through `py` first and
/// then the column through `nx`, otherwise the column through `px` first
/// and then the row through `ny`.
pub open spec fn tunnel_rel(
    m0: TileMap,
    m1: TileMap,
    px: int,
    py: int,
    nx: int,
    ny: int,
    horiz: bool,
) -> bool {
    let xlo = if px <= nx { px } else { nx };
    let xhi = if px <= nx { nx } else { px };
    let ylo = if py <= ny { py } else { ny };
    let yhi = if py <= ny { ny } else { py };
    &&& m1.wf()
    &&& forall|i: int, j: int|
        in_bounds(i, j) ==> #[trigger] m1.at(i, j) == (if (horiz && ((j == py && xlo <= i <= xhi)
            || (i == nx && ylo <= j <= yhi))) || (!horiz && ((i == px && ylo <= j <= yhi) || (j
            == ny && xlo <= i <= xhi))) {
            Tile::spec_empty()
        } else {
            m0.at(i, j)
        })
}

/// Everything accepting one sampled room does, as a function of the
/// incoming random state: the room is carved, populated along the random
/// chain, and then either receives the player (the first room) or is
/// joined to the previous room's center by a tunnel whose bend one more
/// draw decides.
pub open spec fn accept_rel(
    level: int,
    new_room: Rect,
    prev: (int, int),
    first: bool,
    map0: TileMap,
    map1: TileMap,
    objs0: Seq<Object>,
    objs1: Seq<Object>,
    s0: u64,
    s1: u64,
) -> bool {
    exists|map_c: TileMap, objs_p: Seq<Object>, s_p: u64|
        {
            &&& carved_rel(map0, map_c, new_room)
            &&& #[trigger] place_rel(new_room, map_c, level, objs0, objs_p, s0, s_p)
            &&& objs_p.len() >= 1
            &&& (if first {
                &&& same_tiles(map1, map_c)
                &&& map1.wf()
                &&& objs1 == objs_p.update(
                    0,
                    Object {
                        x: new_room.center_x() as i32,
                        y: new_room.center_y() as i32,
                        ..objs_p[0]
                    },
                )
                &&& s1 == s_p
            } else {
                let s_c = crate::rng::next_state(s_p);
                &&& s1 == s_c
                &&& objs1 == objs_p
                &&& tunnel_rel(
                    map_c,
                    map1,
                    prev.0,
                    prev.1,
                    new_room.center_x(),
                    new_room.center_y(),
                    crate::rng::state_output(s_c) % 2 == 0,
                )
            })
        }
}

/// One room-placement attempt of level assembly, pinned to the random
/// chain: four draws sample the candidate; one touching an accepted room
/// changes nothing more, and any other is accepted as `accept_rel` says.
pub open spec fn gen_attempt_rel(
    level: int,
    map0: TileMap,
    rooms0: Seq<Rect>,
    objs0: Seq<Object>,
    s0: u64,
    map1: TileMap,
    rooms1: Seq<Rect>,
    objs1: Seq<Object>,
    s1: u64,
) -> bool {
    let sw = crate::rng::next_state(s0);
    let sh = crate::rng::next_state(sw);
    let sx = crate::rng::next_state(sh);
    let sy = crate::rng::next_state(sx);
    let w = crate::rng::ranged(sw, ROOM_MIN_SIZE as int, ROOM_MAX_SIZE + 1);
    let h = crate::rng::ranged(sh, ROOM_MIN_SIZE as int, ROOM_MAX_SIZE + 1);
    let x = crate::rng::ranged(sx, 0, MAP_WIDTH - w);
    let y = crate::rng::ranged(sy, 0, MAP_HEIGHT - h);
    let room = Rect { x1: x as i32, y1: y as i32, x2: (x + w) as i32, y2: (y + h) as i32 };
    if exists|i: int| 0 <= i < rooms0.len() && room.spec_intersects(#[trigger] rooms0[i]) {
        &&& same_tiles(map1, map0)
        &&& map1.wf()
        &&& rooms1 == rooms0
        &&& objs1 == objs0
        &&& s1 == sy
    } else {
        &&& rooms1 == rooms0.push(room)
        &&& accept_rel(
            level,
            room,
            (if rooms0.len() >= 1 {
                ((rooms0.last().center_x(), rooms0.last().center_y()))
            } else {
                ((0int, 0int))
            }),
            rooms0.len() == 0,
            map0,
            map1,
            objs0,
            objs1,
            sy,
            s1,
        )
    }
}

/// `n` room-placement attempts in a row, each continuing where the
/// previous one left the grid, the accepted rooms, the object list and
/// the random chain.
pub open spec fn gen_chain(
    level: int,
    n: int,
    map0: TileMap,
    rooms0: Seq<Rect>,
    objs0: Seq<Object>,
    s0: u64,
    map1: TileMap,
    rooms1: Seq<Rect>,
    objs1: Seq<Object>,
    s1: u64,
) -> bool
    decreases n,
{
    if n <= 0 {
        &&& same_tiles(map1, map0)
        &&& map1.wf()
        &&& rooms1 == rooms0
        &&& objs1 == objs0
        &&& s1 == s0
    } else {
        exists|mm: TileMap, rm: Seq<Rect>, om: Seq<Object>, sm: u64|
            gen_chain(level, n - 1, map0, rooms0, objs0, s0, mm, rm, om, sm)
                && #[trigger] gen_attempt_rel(level, mm, rm, om, sm, map1, rooms1, objs1, s1)
    }
}

/// The level is exactly what the attempt budget's worth of sampling from
/// state `s0` builds over a bare player on any full-wall canvas: tiles,
/// accepted rooms, spawned monsters and items, and the outgoing state
/// `s1` are all functions of the seed, the depth and the player. This is
/// what makes seeded generation reproducible.
pub open spec fn generated_level(
    level: int,
    p0: Object,
    map: TileMap,
    rooms: Seq<Rect>,
    objs: Seq<Object>,
    s0: u64,
    s1: u64,
) -> bool {
    forall|m0: TileMap|
        walled_canvas(m0) ==> #[trigger] gen_chain(
            level,
            MAX_ROOMS as int,
            m0,
            Seq::<Rect>::empty(),
            seq![p0],
            s0,
            map,
            rooms,
            objs,
            s1,
        )
}

/// A drawn number lies in its range.
pub proof fn lemma_ranged_bounds(s: u64, lo: int, hi: int)
    requires
        lo < hi,
        hi - lo <= u64::MAX,
    ensures
        lo <= crate::rng::ranged(s, lo, hi) < hi,
{
}

/// Blocking queries agree across tile-identical grids and
/// observationally equal object lists.
proof fn lemma_blocked_equiv(
    x: int,
    y: int,
    ma: TileMap,
    mb: TileMap,
    oa: Seq<Object>,
    ob: Seq<Object>,
)
    requires
        in_bounds(x, y),
        same_tiles(ma, mb),
        crate::codec::objs_equiv(oa, ob),
    ensures
        crate::motion::spec_is_blocked(x, y, ma, oa) == crate::motion::spec_is_blocked(
            x,
            y,
            mb,
            ob,
        ),
{
    if crate::motion::spec_is_blocked(x, y, ma, oa) && !ma.at(x, y).blocked {
        let i = choose|i: int|
            0 <= i < oa.len() && (#[trigger] oa[i]).blocks && oa[i].x == x && oa[i].y == y;
        assert(crate::codec::obj_matches(oa[i], ob[i]));
        assert(ob[i].blocks && ob[i].x == x && ob[i].y == y);
    }
    if crate::motion::spec_is_blocked(x, y, mb, ob) && !mb.at(x, y).blocked {
        let i = choose|i: int|
            0 <= i < ob.len() && (#[trigger] ob[i]).blocks && ob[i].x == x && ob[i].y == y;
        assert(crate::codec::obj_matches(oa[i], ob[i]));
        assert(oa[i].blocks && oa[i].x == x && oa[i].y == y);
    }
}

/// One monster attempt from the same random state gives the same state
/// back and observationally equal lists.
proof fn lemma_monster_attempt_det(
    room: Rect,
    level: int,
    ma: TileMap,
    mb: TileMap,
    oa0: Seq<Object>,
    ob0: Seq<Object>,
    oa1: Seq<Object>,
    ob1: Seq<Object>,
    s0: u64,
    sa1: u64,
    sb1: u64,
)
    requires
        room_ok(room),
        same_tiles(ma, mb),
        crate::codec::objs_equiv(oa0, ob0),
        monster_attempt_rel(room, ma, level, oa0, oa1, s0, sa1),
        monster_attempt_rel(room, mb, level, ob0, ob1, s0, sb1),
    ensures
        sa1 == sb1,
        crate::codec::objs_equiv(oa1, ob1),
{
    let sx = crate::rng::next_state(s0);
    let sy = crate::rng::next_state(sx);
    let x = crate::rng::ranged(sx, room.x1 + 1, room.x2 as int);
    let y = crate::rng::ranged(sy, room.y1 + 1, room.y2 as int);
    lemma_ranged_bounds(sx, room.x1 + 1, room.x2 as int);
    lemma_ranged_bounds(sy, room.y1 + 1, room.y2 as int);
    lemma_blocked_equiv(x, y, ma, mb, oa0, ob0);
    if !crate::motion::spec_is_blocked(x, y, ma, oa0) {
        assert forall|i: int| 0 <= i < oa1.len() implies crate::codec::obj_matches(
            #[trigger] oa1[i],
            ob1[i],
        ) by {
            if i < oa0.len() {
                assert(oa1[i] == oa1.drop_last()[i] && ob1[i] == ob1.drop_last()[i]);
                assert(oa1[i] == oa0[i] && ob1[i] == ob0[i]);
            } else {
                assert(oa1[i] == oa1.last() && ob1[i] == ob1.last());
            }
        }
    }
}

/// One item attempt from the same random state gives the same state
/// back and observationally equal lists.
proof fn lemma_item_attempt_det(
    room: Rect,
    level: int,
    ma: TileMap,
    mb: TileMap,
    oa0: Seq<Object>,
    ob0: Seq<Object>,
    oa1: Seq<Object>,
    ob1: Seq<Object>,
    s0: u64,
    sa1: u64,
    sb1: u64,
)
    requires
        room_ok(room),
        same_tiles(ma, mb),
        crate::codec::objs_equiv(oa0, ob0),
        item_attempt_rel(room, ma, level, oa0, oa1, s0, sa1),
        item_attempt_rel(room, mb, level, ob0, ob1, s0, sb1),
    ensures
        sa1 == sb1,
        crate::codec::objs_equiv(oa1, ob1),
{
    let sx = crate::rng::next_state(s0);
    let sy = crate::rng::next_state(sx);
    let x = crate::rng::ranged(sx, room.x1 + 1, room.x2 as int);
    let y = crate::rng::ranged(sy, room.y1 + 1, room.y2 as int);
    lemma_ranged_bounds(sx, room.x1 + 1, room.x2 as int);
    lemma_ranged_bounds(sy, room.y1 + 1, room.y2 as int);
    lemma_blocked_equiv(x, y, ma, mb, oa0, ob0);
    if !crate::motion::spec_is_blocked(x, y, ma, oa0) {
        assert forall|i: int| 0 <= i < oa1.len() implies crate::codec::obj_matches(
            #[trigger] oa1[i],
            ob1[i],
        ) by {
            if i < oa0.len() {
                assert(oa1[i] == oa1.drop_last()[i] && ob1[i] == ob1.drop_last()[i]);
                assert(oa1[i] == oa0[i] && ob1[i] == ob0[i]);
            } else {
                assert(oa1[i] == oa1.last() && ob1[i] == ob1.last());
            }
        }
    }
}

/// A run of monster attempts from the same random state is determined.
proof fn lemma_monster_attempts_det(
    room: Rect,
    level: int,
    n: int,
    ma: TileMap,
    mb: TileMap,
    oa0: Seq<Object>,
    ob0: Seq<Object>,
    oa1: Seq<Object>,
    ob1: Seq<Object>,
    s0: u64,
    sa1: u64,
    sb1: u64,
)
    requires
        room_ok(room),
        same_tiles(ma, mb),
        crate::codec::objs_equiv(oa0, ob0),
        monster_attempts_rel(room, ma, level, n, oa0, oa1, s0, sa1),
        monster_attempts_rel(room, mb, level, n, ob0, ob1, s0, sb1),
    ensures
        sa1 == sb1,
        crate::codec::objs_equiv(oa1, ob1),
    decreases n,
{
    if n > 0 {
        let (oma, sma): (Seq<Object>, u64) = choose|om: Seq<Object>, sm: u64|
            monster_attempts_rel(room, ma, level, n - 1, oa0, om, s0, sm) && monster_attempt_rel(
                room,
                ma,
                level,
                om,
                oa1,
                sm,
                sa1,
            );
        let (omb, smb): (Seq<Object>, u64) = choose|om: Seq<Object>, sm: u64|
            monster_attempts_rel(room, mb, level, n - 1, ob0, om, s0, sm) && monster_attempt_rel(
                room,
                mb,
                level,
                om,
                ob1,
                sm,
                sb1,
            );
        lemma_monster_attempts_det(
            room,
            level,
            n - 1,
            ma,
            mb,
            oa0,
            ob0,
            oma,
            omb,
            s0,
            sma,
            smb,
        );
        lemma_monster_attempt_det(room, level, ma, mb, oma, omb, oa1, ob1, sma, sa1, sb1);
    }
}

/// A run of item attempts from the same random state is determined.
proof fn lemma_item_attempts_det(
    room: Rect,
    level: int,
    n: int,
    ma: TileMap,
    mb: TileMap,
    oa0: Seq<Object>,
    ob0: Seq<Object>,
    oa1: Seq<Object>,
    ob1: Seq<Object>,
    s0: u64,
    sa1: u64,
    sb1: u64,
)
    requires
        room_ok(room),
        same_tiles(ma, mb),
        crate::codec::objs_equiv(oa0, ob0),
        item_attempts_rel(room, ma, level, n, oa0, oa1, s0, sa1),
        item_attempts_rel(room, mb, level, n, ob0, ob1, s0, sb1),
    ensures
        sa1 == sb1,
        crate::codec::objs_equiv(oa1, ob1),
    decreases n,
{
    if n > 0 {
        let (oma, sma): (Seq<Object>, u64) = choose|om: Seq<Object>, sm: u64|
            item_attempts_rel(room, ma, level, n - 1, oa0, om, s0, sm) && item_attempt_rel(
                room,
                ma,
                level,
                om,
                oa1,
                sm,
                sa1,
            );
        let (omb, smb): (Seq<Object>, u64) = choose|om: Seq<Object>, sm: u64|
            item_attempts_rel(room, mb, level, n - 1, ob0, om, s0, sm) && item_attempt_rel(
                room,
                mb,
                level,
                om,
                ob1,
                sm,
                sb1,
            );
        lemma_item_attempts_det(room, level, n - 1, ma, mb, oa0, ob0, oma, omb, s0, sma, smb);
        lemma_item_attempt_det(room, level, ma, mb, oma, omb, oa1, ob1, sma, sa1, sb1);
    }
}

/// A whole room population from the same random state is determined.
proof fn lemma_place_det(
    room: Rect,
    level: int,
    ma: TileMap,
    mb: TileMap,
    oa0: Seq<Object>,
    ob0: Seq<Object>,
    oa1: Seq<Object>,
    ob1: Seq<Object>,
    s0: u64,
    sa1: u64,
    sb1: u64,
)
    requires
        room_ok(room),
        same_tiles(ma, mb),
        crate::codec::objs_equiv(oa0, ob0),
        place_rel(room, ma, level, oa0, oa1, s0, sa1),
        place_rel(room, mb, level, ob0, ob1, s0, sb1),
    ensures
        sa1 == sb1,
        crate::codec::objs_equiv(oa1, ob1),
{
    let s_nm = crate::rng::next_state(s0);
    let nm = crate::rng::ranged(s_nm, 0, spec_max_monsters(level) + 1);
    let (oma, sma): (Seq<Object>, u64) = choose|om: Seq<Object>, sm: u64|
        monster_attempts_rel(room, ma, level, nm, oa0, om, s_nm, sm) && ({
            let s_ni = crate::rng::next_state(sm);
            let ni = crate::rng::ranged(s_ni, 0, spec_max_items(level) + 1);
            item_attempts_rel(room, ma, level, ni, om, oa1, s_ni, sa1)
        });
    let (omb, smb): (Seq<Object>, u64) = choose|om: Seq<Object>, sm: u64|
        monster_attempts_rel(room, mb, level, nm, ob0, om, s_nm, sm) && ({
            let s_ni = crate::rng::next_state(sm);
            let ni = crate::rng::ranged(s_ni, 0, spec_max_items(level) + 1);
            item_attempts_rel(room, mb, level, ni, om, ob1, s_ni, sb1)
        });
    lemma_monster_attempts_det(room, level, nm, ma, mb, oa0, ob0, oma, omb, s_nm, sma, smb);
    let s_ni = crate::rng::next_state(sma);
    let ni = crate::rng::ranged(s_ni, 0, spec_max_items(level) + 1);
    lemma_item_attempts_det(room, level, ni, ma, mb, oma, omb, oa1, ob1, s_ni, sa1, sb1);
}

/// Accepting the same room from the same random state is determined.
proof fn lemma_accept_det(
    level: int,
    room: Rect,
    prev: (int, int),
    first: bool,
    ma0: TileMap,
    mb0: TileMap,
    ma1: TileMap,
    mb1: TileMap,
    oa0: Seq<Object>,
    ob0: Seq<Object>,
    oa1: Seq<Object>,
    ob1: Seq<Object>,
    s0: u64,
    sa1: u64,
    sb1: u64,
)
    requires
        room_ok(room),
        same_tiles(ma0, mb0),
        crate::codec::objs_equiv(oa0, ob0),
        accept_rel(level, room, prev, first, ma0, ma1, oa0, oa1, s0, sa1),
        accept_rel(level, room, prev, first, mb0, mb1, ob0, ob1, s0, sb1),
    ensures
        sa1 == sb1,
        same_tiles(ma1, mb1),
        crate::codec::objs_equiv(oa1, ob1),
{
    let (mca, opa, spa): (TileMap, Seq<Object>, u64) = choose|
        map_c: TileMap,
        objs_p: Seq<Object>,
        s_p: u64,
    |
        carved_rel(ma0, map_c, room) && #[trigger] place_rel(
            room,
            map_c,
            level,
            oa0,
            objs_p,
            s0,
            s_p,
        ) && objs_p.len() >= 1 && (if first {
            &&& same_tiles(ma1, map_c)
            &&& ma1.wf()
            &&& oa1 == objs_p.update(
                0,
                Object { x: room.center_x() as i32, y: room.center_y() as i32, ..objs_p[0] },
            )
            &&& sa1 == s_p
        } else {
            let s_c = crate::rng::next_state(s_p);
            &&& sa1 == s_c
            &&& oa1 == objs_p
            &&& tunnel_rel(
                map_c,
                ma1,
                prev.0,
                prev.1,
                room.center_x(),
                room.center_y(),
                crate::rng::state_output(s_c) % 2 == 0,
            )
        });
    let (mcb, opb, spb): (TileMap, Seq<Object>, u64) = choose|
        map_c: TileMap,
        objs_p: Seq<Object>,
        s_p: u64,
    |
        carved_rel(mb0, map_c, room) && #[trigger] place_rel(
            room,
            map_c,
            level,
            ob0,
            objs_p,
            s0,
            s_p,
        ) && objs_p.len() >= 1 && (if first {
            &&& same_tiles(mb1, map_c)
            &&& mb1.wf()
            &&& ob1 == objs_p.update(
                0,
                Object { x: room.center_x() as i32, y: room.center_y() as i32, ..objs_p[0] },
            )
            &&& sb1 == s_p
        } else {
            let s_c = crate::rng::next_state(s_p);
            &&& sb1 == s_c
            &&& ob1 == objs_p
            &&& tunnel_rel(
                map_c,
                mb1,
                prev.0,
                prev.1,
                room.center_x(),
                room.center_y(),
                crate::rng::state_output(s_c) % 2 == 0,
            )
        });
    assert(same_tiles(mca, mcb)) by {
        assert forall|i: int, j: int| in_bounds(i, j) implies #[trigger] mca.at(i, j) == mcb.at(
            i,
            j,
        ) by {
            assert(ma0.at(i, j) == mb0.at(i, j));
        }
    }
    lemma_place_det(room, level, mca, mcb, oa0, ob0, opa, opb, s0, spa, spb);
    if first {
        assert forall|i: int, j: int| in_bounds(i, j) implies #[trigger] ma1.at(i, j) == mb1.at(
            i,
            j,
        ) by {
            assert(ma1.at(i, j) == mca.at(i, j) && mb1.at(i, j) == mcb.at(i, j));
        }
        assert forall|i: int| 0 <= i < oa1.len() implies crate::codec::obj_matches(
            #[trigger] oa1[i],
            ob1[i],
        ) by {
            if i == 0 {
                assert(crate::codec::obj_matches(opa[0], opb[0]));
            } else {
                assert(oa1[i] == opa[i] && ob1[i] == opb[i]);
                assert(crate::codec::obj_matches(opa[i], opb[i]));
            }
        }
    } else {
        assert forall|i: int, j: int| in_bounds(i, j) implies #[trigger] ma1.at(i, j) == mb1.at(
            i,
            j,
        ) by {
            assert(mca.at(i, j) == mcb.at(i, j));
        }
    }
}

/// One sampling attempt from the same random state is determined.
proof fn lemma_gen_attempt_det(
    level: int,
    ma0: TileMap,
    mb0: TileMap,
    rooms0: Seq<Rect>,
    oa0: Seq<Object>,
    ob0: Seq<Object>,
    ma1: TileMap,
    mb1: TileMap,
    roomsa1: Seq<Rect>,
    roomsb1: Seq<Rect>,
    oa1: Seq<Object>,
    ob1: Seq<Object>,
    s0: u64,
    sa1: u64,
    sb1: u64,
)
    requires
        same_tiles(ma0, mb0),
        crate::codec::objs_equiv(oa0, ob0),
        gen_attempt_rel(level, ma0, rooms0, oa0, s0, ma1, roomsa1, oa1, sa1),
        gen_attempt_rel(level, mb0, rooms0, ob0, s0, mb1, roomsb1, ob1, sb1),
    ensures
        roomsa1 == roomsb1,
        sa1 == sb1,
        same_tiles(ma1, mb1),
        crate::codec::objs_equiv(oa1, ob1),
{
    let sw = crate::rng::next_state(s0);
    let sh = crate::rng::next_state(sw);
    let sx = crate::rng::next_state(sh);
    let sy = crate::rng::next_state(sx);
    let w = crate::rng::ranged(sw, ROOM_MIN_SIZE as int, ROOM_MAX_SIZE + 1);
    let h = crate::rng::ranged(sh, ROOM_MIN_SIZE as int, ROOM_MAX_SIZE + 1);
    let x = crate::rng::ranged(sx, 0, MAP_WIDTH - w);
    let y = crate::rng::ranged(sy, 0, MAP_HEIGHT - h);
    lemma_ranged_bounds(sw, ROOM_MIN_SIZE as int, ROOM_MAX_SIZE + 1);
    lemma_ranged_bounds(sh, ROOM_MIN_SIZE as int, ROOM_MAX_SIZE + 1);
    lemma_ranged_bounds(sx, 0, MAP_WIDTH - w);
    lemma_ranged_bounds(sy, 0, MAP_HEIGHT - h);
    let room = Rect { x1: x as i32, y1: y as i32, x2: (x + w) as i32, y2: (y + h) as i32 };
    assert(room_ok(room));
    if exists|i: int| 0 <= i < rooms0.len() && room.spec_intersects(#[trigger] rooms0[i]) {
    } else {
        lemma_accept_det(
            level,
            room,
            (if rooms0.len() >= 1 {
                ((rooms0.last().center_x(), rooms0.last().center_y()))
            } else {
                ((0int, 0int))
            }),
            rooms0.len() == 0,
            ma0,
            mb0,
            ma1,
            mb1,
            oa0,
            ob0,
            oa1,
            ob1,
            sy,
            sa1,
            sb1,
        );
    }
}

/// The whole attempt chain from the same random state is determined.
pub proof fn lemma_gen_chain_deterministic(
    level: int,
    n: int,
    ma0: TileMap,
    mb0: TileMap,
    rooms0: Seq<Rect>,
    oa0: Seq<Object>,
    ob0: Seq<Object>,
    ma1: TileMap,
    mb1: TileMap,
    roomsa1: Seq<Rect>,
    roomsb1: Seq<Rect>,
    oa1: Seq<Object>,
    ob1: Seq<Object>,
    s0: u64,
    sa1: u64,
    sb1: u64,
)
    requires
        same_tiles(ma0, mb0),
        crate::codec::objs_equiv(oa0, ob0),
        gen_chain(level, n, ma0, rooms0, oa0, s0, ma1, roomsa1, oa1, sa1),
        gen_chain(level, n, mb0, rooms0, ob0, s0, mb1, roomsb1, ob1, sb1),
    ensures
        roomsa1 == roomsb1,
        sa1 == sb1,
        same_tiles(ma1, mb1),
        crate::codec::objs_equiv(oa1, ob1),
    decreases n,
{
    if n <= 0 {
        assert forall|i: int, j: int| in_bounds(i, j) implies #[trigger] ma1.at(i, j) == mb1.at(
            i,
            j,
        ) by {
            assert(ma1.at(i, j) == ma0.at(i, j) && mb1.at(i, j) == mb0.at(i, j));
        }
    } else {
        let (mma, rma, oma, sma): (TileMap, Seq<Rect>, Seq<Object>, u64) = choose|
            mm: TileMap,
            rm: Seq<Rect>,
            om: Seq<Object>,
            sm: u64,
        |
            gen_chain(level, n - 1, ma0, rooms0, oa0, s0, mm, rm, om, sm)
                && #[trigger] gen_attempt_rel(level, mm, rm, om, sm, ma1, roomsa1, oa1, sa1);
        let (mmb, rmb, omb, smb): (TileMap, Seq<Rect>, Seq<Object>, u64) = choose|
            mm: TileMap,
            rm: Seq<Rect>,
            om: Seq<Object>,
            sm: u64,
        |
            gen_chain(level, n - 1, mb0, rooms0, ob0, s0, mm, rm, om, sm)
                && #[trigger] gen_attempt_rel(level, mm, rm, om, sm, mb1, roomsb1, ob1, sb1);
        lemma_gen_chain_deterministic(
            level,
            n - 1,
            ma0,
            mb0,
            rooms0,
            oa0,
            ob0,
            mma,
            mmb,
            rma,
            rmb,
            oma,
            omb,
            s0,
            sma,
            smb,
        );
        lemma_gen_attempt_det(
            level,
            mma,
            mmb,
            rma,
            oma,
            omb,
            ma1,
            mb1,
            roomsa1,
            roomsb1,
            oa1,
            ob1,
            sma,
            sa1,
            sb1,
        );
    }
}

/// Seeded generation is deterministic: two levels generated from the
/// same seed and depth over observationally equal players have the same
/// accepted rooms, the same outgoing random state, tile-for-tile equal
/// grids, and observationally equal object lists. The canvas argument
/// is any all-wall grid; which one is used cannot matter.
pub proof fn lemma_generated_level_deterministic(
    level: int,
    canvas: TileMap,
    p0a: Object,
    p0b: Object,
    mapa: TileMap,
    mapb: TileMap,
    roomsa: Seq<Rect>,
    roomsb: Seq<Rect>,
    objsa: Seq<Object>,
    objsb: Seq<Object>,
    s0: u64,
    sa: u64,
    sb: u64,
)
    requires
        walled_canvas(canvas),
        crate::codec::obj_matches(p0a, p0b),
        generated_level(level, p0a, mapa, roomsa, objsa, s0, sa),
        generated_level(level, p0b, mapb, roomsb, objsb, s0, sb),
    ensures
        roomsa == roomsb,
        sa == sb,
        same_tiles(mapa, mapb),
        crate::codec::objs_equiv(objsa, objsb),
{
    assert(gen_chain(
        level,
        MAX_ROOMS as int,
        canvas,
        Seq::<Rect>::empty(),
        seq![p0a],
        s0,
        mapa,
        roomsa,
        objsa,
        sa,
    ));
    assert(gen_chain(
        level,
        MAX_ROOMS as int,
        canvas,
        Seq::<Rect>::empty(),
        seq![p0b],
        s0,
        mapb,
        roomsb,
        objsb,
        sb,
    ));
    assert(crate::codec::objs_equiv(seq![p0a], seq![p0b])) by {
        assert(seq![p0a][0] == p0a && seq![p0b][0] == p0b);
    }
    lemma_gen_chain_deterministic(
        level,
        MAX_ROOMS as int,
        canvas,
        canvas,
        Seq::<Rect>::empty(),
        seq![p0a],
        seq![p0b],
        mapa,
        mapb,
        roomsa,
        roomsb,
        objsa,
        objsb,
        s0,
        sa,
        sb,
    );
}

/// Carve the accepted room and populate it. The map only opens tiles,
/// so everything established about earlier rooms and spawns survives,
/// and the new spawns are recorded against the grown room list.
#[verifier::rlimit(100)]
#[verifier::spinoff_prover]
fn carve_and_fill(
    new_room: Rect,
    map: &mut TileMap,
    rooms: &Vec<Rect>,
    objects: &mut Vec<Object>,
    level: u32,
    rng: &mut Rng,
    Ghost(orig0): Ghost<Object>,
)
    requires
        gen_inv(*old(map), rooms@, old(objects)@, orig0),
        room_ok(new_room),
        rooms@.len() < MAX_ROOMS,
    ensures
        final(map).wf(),
        map_walled(*final(map)),
        forall|x: int, y: int|
            in_bounds(x, y) && !(#[trigger] old(map).at(x, y)).blocked ==> !final(map).at(
                x,
                y,
            ).blocked,
        forall|i: int| 0 <= i < rooms@.len() ==> interior_carved(*final(map), #[trigger] rooms@[i]),
        forall|i: int|
            0 <= i < rooms@.len() ==> connected(
                *final(map),
                (#[trigger] rooms@[i]).center_x(),
                rooms@[i].center_y(),
                rooms@[0].center_x(),
                rooms@[0].center_y(),
            ),
        interior_carved(*final(map), new_room),
        old(objects)@.len() <= final(objects)@.len() <= old(objects)@.len() + 7,
        forall|i: int| 0 <= i < old(objects)@.len() ==> final(objects)@[i] == #[trigger] old(
            objects,
        )@[i],
        forall|k: int|
            1 <= k < final(objects)@.len() ==> spawned_any(
                final(objects)@,
                k,
                rooms@.push(new_room),
                *final(map),
            ),
        carved_rel(*old(map), *final(map), new_room),
        place_rel(
            new_room,
            *final(map),
            level as int,
            old(objects)@,
            final(objects)@,
            old(rng).state,
            final(rng).state,
        ),
        (exists|nm: int|
            #[trigger] split_spawned(old(objects)@, final(objects)@, nm, level as int)),
{
    let ghost map0 = *map;
    create_room(new_room, map);
    proof {
        assert forall|i: int, j: int|
            in_bounds(i, j) && !(#[trigger] map0.at(i, j)).blocked implies !map.at(
            i,
            j,
        ).blocked by {}
        assert forall|i: int, j: int|
            in_bounds(i, j) && (i == 0 || i == MAP_WIDTH - 1 || j == 0 || j == MAP_HEIGHT - 1)
            implies #[trigger] map.at(i, j) == map0.at(i, j) by {}
        lemma_gen_inv_after_carve(map0, *map, rooms@, old(objects)@, orig0);
    }
    let ghost objs_before = objects@;
    place_objects(new_room, map, objects, level, rng);
    proof {
        assert forall|k: int| 1 <= k < objs_before.len() implies spawned_any(
            objs_before,
            k,
            rooms@,
            *map,
        ) by {}
        lemma_spawned_prefix_push(objs_before, objects@, rooms@, new_room, *map);
    }
}

/// After populating the new room, every spawn — old or new — is
/// recorded against the grown room list.
proof fn lemma_spawned_prefix_push(
    objs_before: Seq<Object>,
    objs_after: Seq<Object>,
    rooms: Seq<Rect>,
    new_room: Rect,
    map: TileMap,
)
    requires
        objs_before.len() <= objs_after.len(),
        forall|i: int| 0 <= i < objs_before.len() ==> objs_after[i] == #[trigger] objs_before[i],
        forall|k: int| 1 <= k < objs_before.len() ==> spawned_any(objs_before, k, rooms, map),
        forall|k: int|
            objs_before.len() <= k < objs_after.len() ==> spawned_ok(objs_after, k, new_room, map),
    ensures
        forall|k: int| 1 <= k < objs_after.len() ==> spawned_any(
            objs_after,
            k,
            rooms.push(new_room),
            map,
        ),
{
    let rs = rooms.push(new_room);
    assert forall|k: int| 1 <= k < objs_after.len() implies spawned_any(objs_after, k, rs, map) by {
        if k < objs_before.len() {
            assert(spawned_any(objs_before, k, rooms, map));
            let r = choose|r: int|
                0 <= r < rooms.len() && spawned_ok(objs_before, k, #[trigger] rooms[r], map);
            assert(spawned_ok(objs_after, k, rooms[r], map)) by {
                reveal(spawned_ok);
                assert(spawned_ok(objs_before, k, rooms[r], map));
                assert(objs_after[k] == objs_before[k]);
                assert forall|j: int| 0 <= j < k implies objs_after[j] == objs_before[j] by {}
            }
            assert(rs[r] == rooms[r]);
        } else {
            assert(spawned_ok(objs_after, k, new_room, map));
            assert(rs[rooms.len() as int] == new_room);
        }
    }
}

/// Tunnel carving (which only opens interior tiles) preserves the walls,
/// the earlier rooms' facts, and the recorded spawns.
proof fn lemma_tunnel_preserves(
    map_pre: TileMap,
    map_post: TileMap,
    rooms: Seq<Rect>,
    objs: Seq<Object>,
    new_room: Rect,
    prev_room: Rect,
)
    requires
        map_pre.wf(),
        map_post.wf(),
        map_walled(map_pre),
        forall|x: int, y: int|
            in_bounds(x, y) && !(#[trigger] map_pre.at(x, y)).blocked ==> !map_post.at(
                x,
                y,
            ).blocked,
        forall|x: int, y: int|
            in_bounds(x, y) && (x == 0 || x == MAP_WIDTH - 1 || y == 0 || y == MAP_HEIGHT - 1)
                ==> #[trigger] map_post.at(x, y) == map_pre.at(x, y),
        forall|i: int| 0 <= i < rooms.len() ==> room_ok(#[trigger] rooms[i]),
        forall|i: int| 0 <= i < rooms.len() ==> interior_carved(map_pre, #[trigger] rooms[i]),
        forall|i: int|
            0 <= i < rooms.len() ==> connected(
                map_pre,
                (#[trigger] rooms[i]).center_x(),
                rooms[i].center_y(),
                rooms[0].center_x(),
                rooms[0].center_y(),
            ),
        forall|k: int| 1 <= k < objs.len() ==> spawned_any(objs, k, rooms.push(new_room), map_pre),
        room_ok(new_room),
        interior_carved(map_pre, new_room),
        rooms.len() >= 1,
        connected(
            map_pre,
            prev_room.center_x(),
            prev_room.center_y(),
            rooms[0].center_x(),
            rooms[0].center_y(),
        ),
    ensures
        map_walled(map_post),
        forall|i: int| 0 <= i < rooms.len() ==> interior_carved(map_post, #[trigger] rooms[i]),
        forall|i: int|
            0 <= i < rooms.len() ==> connected(
                map_post,
                (#[trigger] rooms[i]).center_x(),
                rooms[i].center_y(),
                rooms[0].center_x(),
                rooms[0].center_y(),
            ),
        forall|k: int| 1 <= k < objs.len() ==> spawned_any(objs, k, rooms.push(new_room), map_post),
        interior_carved(map_post, new_room),
        connected(
            map_post,
            prev_room.center_x(),
            prev_room.center_y(),
            rooms[0].center_x(),
            rooms[0].center_y(),
        ),
{
    assert(map_walled(map_post)) by {
        assert forall|i: int, j: int|
            in_bounds(i, j) && (i == 0 || i == MAP_WIDTH - 1 || j == 0 || j == MAP_HEIGHT - 1)
            implies (#[trigger] map_post.at(i, j)).blocked by {
            assert(map_post.at(i, j) == map_pre.at(i, j));
            assert(map_pre.at(i, j).blocked);
        }
    }
    lemma_mono_preserves(map_pre, map_post, rooms, Seq::<Object>::empty());
    lemma_spawned_rooms_mono(objs, rooms, new_room, map_pre, map_post);
    assert(interior_carved(map_post, new_room)) by {
        assert forall|x: int, y: int|
            new_room.x1 < x < new_room.x2 && new_room.y1 < y < new_room.y2 implies !(
        #[trigger] map_post.at(x, y)).blocked by {
            assert(!map_pre.at(x, y).blocked);
            assert(in_bounds(x, y));
        }
    }
    lemma_connected_mono(
        map_pre,
        map_post,
        prev_room.center_x(),
        prev_room.center_y(),
        rooms[0].center_x(),
        rooms[0].center_y(),
    );
}

/// Accept one non-overlapping room: carve it, populate it, join it to
/// the previous room (or receive the player if it is the first), and
/// append it to the accepted list.
#[verifier::rlimit(100)]
#[verifier::spinoff_prover]
fn accept_room(
    new_room: Rect,
    map: &mut TileMap,
    rooms: &mut Vec<Rect>,
    objects: &mut Vec<Object>,
    level: u32,
    rng: &mut Rng,
    Ghost(orig0): Ghost<Object>,
)
    requires
        gen_inv(*old(map), old(rooms)@, old(objects)@, orig0),
        room_ok(new_room),
        forall|i: int|
            0 <= i < old(rooms)@.len() ==> !new_room.spec_intersects(#[trigger] old(rooms)@[i]),
        old(rooms)@.len() < MAX_ROOMS,
    ensures
        gen_inv(*final(map), final(rooms)@, final(objects)@, orig0),
        final(rooms)@ == old(rooms)@.push(new_room),
        accept_rel(
            level as int,
            new_room,
            (if old(rooms)@.len() >= 1 {
                ((old(rooms)@.last().center_x(), old(rooms)@.last().center_y()))
            } else {
                ((0int, 0int))
            }),
            old(rooms)@.len() == 0,
            *old(map),
            *final(map),
            old(objects)@,
            final(objects)@,
            old(rng).state,
            final(rng).state,
        ),
{
    carve_and_fill(new_room, map, rooms, objects, level, rng, Ghost(orig0));
    let ghost map_c = *map;
    let ghost objs_p = objects@;
    let ghost s_p = rng.state;
    let (new_x, new_y) = new_room.center();
    proof {
        lemma_center_inside(new_room);
    }

    if rooms.len() == 0 {
        let ghost before_move = objects@;
        let o = &mut objects[PLAYER];
        o.set_pos(new_x, new_y);
        proof {
            let rs = rooms@.push(new_room);
            assert forall|k: int| 1 <= k < objects@.len() implies spawned_any(
                objects@,
                k,
                rs,
                *map,
            ) by {
                assert(spawned_any(before_move, k, rs, *map));
                let r = choose|r: int|
                    0 <= r < rs.len() && spawned_ok(before_move, k, #[trigger] rs[r], *map);
                assert(spawned_ok(objects@, k, rs[r], *map)) by {
                    reveal(spawned_ok);
                    assert(spawned_ok(before_move, k, rs[r], *map));
                    assert(objects@[k] == before_move[k]);
                    assert forall|j: int| 1 <= j < k implies objects@[j] == before_move[j] by {}
                }
            }
            assert(objects@ =~= objs_p.update(
                0,
                Object {
                    x: new_room.center_x() as i32,
                    y: new_room.center_y() as i32,
                    ..objs_p[0]
                },
            ));
        }
    } else {
        let prev_room = rooms[rooms.len() - 1];
        let (prev_x, prev_y) = prev_room.center();
        proof {
            lemma_center_inside(prev_room);
        }
        let ghost map_pre = *map;
        if rng.coin() {
            create_h_tunnel(prev_x, new_x, prev_y, map);
            let ghost map_h = *map;
            create_v_tunnel(prev_y, new_y, new_x, map);
            proof {
                lemma_l_tunnel_connects(
                    map_pre,
                    map_h,
                    *map,
                    prev_x as int,
                    prev_y as int,
                    new_x as int,
                    new_y as int,
                    true,
                );
                assert(tunnel_rel(
                    map_pre,
                    *map,
                    prev_x as int,
                    prev_y as int,
                    new_x as int,
                    new_y as int,
                    true,
                ));
            }
        } else {
            create_v_tunnel(prev_y, new_y, prev_x, map);
            let ghost map_h = *map;
            create_h_tunnel(prev_x, new_x, new_y, map);
            proof {
                lemma_l_tunnel_connects(
                    map_pre,
                    map_h,
                    *map,
                    prev_x as int,
                    prev_y as int,
                    new_x as int,
                    new_y as int,
                    false,
                );
                assert(tunnel_rel(
                    map_pre,
                    *map,
                    prev_x as int,
                    prev_y as int,
                    new_x as int,
                    new_y as int,
                    false,
                ));
            }
        }
        proof {
            assert forall|i: int, j: int|
                in_bounds(i, j) && !(#[trigger] map_pre.at(i, j)).blocked implies !map.at(
                i,
                j,
            ).blocked by {}
            assert forall|i: int, j: int|
                in_bounds(i, j) && (i == 0 || i == MAP_WIDTH - 1 || j == 0 || j == MAP_HEIGHT - 1)
                implies #[trigger] map.at(i, j) == map_pre.at(i, j) by {}
            lemma_tunnel_preserves(map_pre, *map, rooms@, objects@, new_room, prev_room);
        }
    }
    let ghost rooms0 = rooms@;
    rooms.push(new_room);
    proof {
        lemma_gen_inv_push(*map, rooms0, objects@, orig0, new_room);
        assert(accept_rel(
            level as int,
            new_room,
            (if old(rooms)@.len() >= 1 {
                ((old(rooms)@.last().center_x(), old(rooms)@.last().center_y()))
            } else {
                ((0int, 0int))
            }),
            old(rooms)@.len() == 0,
            *old(map),
            *map,
            old(objects)@,
            objects@,
            old(rng).state,
            rng.state,
        )) by {
            assert(carved_rel(*old(map), map_c, new_room));
            assert(place_rel(
                new_room,
                map_c,
                level as int,
                old(objects)@,
                objs_p,
                old(rng).state,
                s_p,
            ));
        }
    }
}

/// Build one dungeon level: up to the attempt budget, sample a room,
/// reject it if it touches an accepted one, and otherwise carve it,
/// populate it, and join it to the previous room's center with an
/// L-shaped tunnel whose bend is a coin toss. The first accepted room's
/// center receives the player; the last one's center the stairs.
///
/// The contract carries the generation guarantees: accepted rooms are
/// pairwise non-overlapping, every room's center is connected to the
/// spawn room's center across walkable tiles, the player stands strictly
/// inside the first room, and every placed object stands on a walkable
/// tile.
#[verifier::rlimit(100)]
#[verifier::spinoff_prover]
pub fn make_map(objects: &mut Vec<Object>, level: u32, rng: &mut Rng) -> (res: (TileMap, Vec<
    Rect,
>))
    requires
        old(objects)@.len() >= 1,
        obj_wf(old(objects)@[0]),
        old(objects)@[0].fighter is Some,
        old(objects)@[0].fighter.unwrap().on_death is Player,
        old(objects)@[0].ai is None,
        old(objects)@[0].alive,
    ensures
        res.0.wf(),
        map_walled(res.0),
        1 <= res.1@.len() <= MAX_ROOMS,
        forall|i: int| 0 <= i < res.1@.len() ==> room_ok(#[trigger] res.1@[i]),
        forall|i: int, j: int|
            0 <= i < j < res.1@.len() ==> !(#[trigger] res.1@[i]).spec_intersects(
                #[trigger] res.1@[j],
            ),
        forall|i: int| 0 <= i < res.1@.len() ==> interior_carved(res.0, #[trigger] res.1@[i]),
        forall|i: int|
            0 <= i < res.1@.len() ==> connected(
                res.0,
                (#[trigger] res.1@[i]).center_x(),
                res.1@[i].center_y(),
                res.1@[0].center_x(),
                res.1@[0].center_y(),
            ),
        final(objects)@.len() >= 2,
        final(objects)@.len() <= OBJECT_CAP,
        final(objects)@[0] == (Object {
            x: res.1@[0].center_x() as i32,
            y: res.1@[0].center_y() as i32,
            ..old(objects)@[0]
        }),
        res.1@[0].x1 < final(objects)@[0].x < res.1@[0].x2,
        res.1@[0].y1 < final(objects)@[0].y < res.1@[0].y2,
        ({
            let stairs = final(objects)@.last();
            &&& stairs.name@ == "stairs"@
            &&& stairs.glyph == '<'
            &&& stairs.always_visible
            &&& !stairs.blocks
            &&& !stairs.alive
            &&& stairs.fighter is None
            &&& stairs.ai is None
            &&& stairs.item is None
            &&& stairs.x == res.1@.last().center_x()
            &&& stairs.y == res.1@.last().center_y()
        }),
        crate::game::objects_wf(final(objects)@),
        crate::game::objects_on_map(final(objects)@, res.0),
        generated_level(
            level as int,
            old(objects)@[0],
            res.0,
            res.1@,
            final(objects)@.drop_last(),
            old(rng).state,
            final(rng).state,
        ),
        forall|k: int|
            1 <= k < final(objects)@.len() - 1 ==> spawned_any(final(objects)@, k, res.1@, res.0),
        forall|k: int|
            1 <= k < final(objects)@.len() - 1 ==> monster_shaped(#[trigger] final(objects)@[k])
                || item_shaped(final(objects)@[k]),
{
    let mut map = TileMap::new_walls();
    objects.truncate(1);
    let ghost orig0 = old(objects)@[0];
    proof {
        assert(objects@ =~= seq![orig0]);
    }
    let mut rooms: Vec<Rect> = Vec::new();
    proof {
        assert(rooms@ =~= Seq::<Rect>::empty());
        assert forall|m0: TileMap| walled_canvas(m0) implies #[trigger] gen_chain(
            level as int,
            0,
            m0,
            Seq::<Rect>::empty(),
            seq![orig0],
            old(rng).state,
            map,
            rooms@,
            objects@,
            rng.state,
        ) by {
            assert(same_tiles(map, m0));
        }
    }

    let mut attempts: i32 = 0;
    while attempts < MAX_ROOMS
        invariant
            gen_inv(map, rooms@, objects@, orig0),
            0 <= attempts <= MAX_ROOMS,
            rooms@.len() <= attempts,
            attempts >= 1 ==> rooms@.len() >= 1,
            forall|m0: TileMap|
                walled_canvas(m0) ==> #[trigger] gen_chain(
                    level as int,
                    attempts as int,
                    m0,
                    Seq::<Rect>::empty(),
                    seq![orig0],
                    old(rng).state,
                    map,
                    rooms@,
                    objects@,
                    rng.state,
                ),
        decreases MAX_ROOMS - attempts,
    {
        let ghost s_pre = rng.state;
        let ghost m_pre = map;
        let ghost rooms_pre = rooms@;
        let ghost objs_pre = objects@;
        let w = rng.range_i32(ROOM_MIN_SIZE, ROOM_MAX_SIZE + 1);
        let h = rng.range_i32(ROOM_MIN_SIZE, ROOM_MAX_SIZE + 1);
        let x = rng.range_i32(0, MAP_WIDTH - w);
        let y = rng.range_i32(0, MAP_HEIGHT - h);
        let new_room = Rect::new(x, y, w, h);
        proof {
            assert(room_ok(new_room));
        }

        let failed = any_intersects(&rooms, &new_room);

        if !failed {
            accept_room(new_room, &mut map, &mut rooms, objects, level, rng, Ghost(orig0));
        }
        proof {
            let sw = crate::rng::next_state(s_pre);
            let sh = crate::rng::next_state(sw);
            let sx = crate::rng::next_state(sh);
            let sy = crate::rng::next_state(sx);
            let w_s = crate::rng::ranged(sw, ROOM_MIN_SIZE as int, ROOM_MAX_SIZE + 1);
            let h_s = crate::rng::ranged(sh, ROOM_MIN_SIZE as int, ROOM_MAX_SIZE + 1);
            let x_s = crate::rng::ranged(sx, 0, MAP_WIDTH - w_s);
            let y_s = crate::rng::ranged(sy, 0, MAP_HEIGHT - h_s);
            let room_s = Rect {
                x1: x_s as i32,
                y1: y_s as i32,
                x2: (x_s + w_s) as i32,
                y2: (y_s + h_s) as i32,
            };
            assert(room_s == new_room);
            assert(gen_attempt_rel(
                level as int,
                m_pre,
                rooms_pre,
                objs_pre,
                s_pre,
                map,
                rooms@,
                objects@,
                rng.state,
            ));
            assert forall|m0: TileMap| walled_canvas(m0) implies #[trigger] gen_chain(
                level as int,
                attempts + 1,
                m0,
                Seq::<Rect>::empty(),
                seq![orig0],
                old(rng).state,
                map,
                rooms@,
                objects@,
                rng.state,
            ) by {
                assert(gen_chain(
                    level as int,
                    attempts as int,
                    m0,
                    Seq::<Rect>::empty(),
                    seq![orig0],
                    old(rng).state,
                    m_pre,
                    rooms_pre,
                    objs_pre,
                    s_pre,
                ));
            }
        }
        attempts = attempts + 1;
    }

    let last_room = rooms[rooms.len() - 1];
    let (last_x, last_y) = last_room.center();
    proof {
        lemma_center_inside(last_room);
        assert(interior_carved(map, rooms@[rooms@.len() - 1]));
        assert(!map.at(last_room.center_x(), last_room.center_y()).blocked);
    }
    let mut stairs = Object::new(last_x, last_y, '<', "stairs", ColorCode::White, false);
    stairs.always_visible = true;
    let ghost before_stairs = objects@;
    objects.push(stairs);
    proof {
        lemma_center_inside(rooms@[0]);
        assert(interior_carved(map, rooms@[0]));
        assert(!map.at(rooms@[0].center_x(), rooms@[0].center_y()).blocked);
        assert forall|k: int| 0 <= k < objects@.len() implies obj_wf(#[trigger] objects@[k])
            && in_bounds(objects@[k].x as int, objects@[k].y as int) && !map.at(
            objects@[k].x as int,
            objects@[k].y as int,
        ).blocked by {
            if k == 0 {
            } else if k < before_stairs.len() {
                assert(objects@[k] == before_stairs[k]);
                assert(spawned_any(before_stairs, k, rooms@, map));
                let r = choose|r: int|
                    0 <= r < rooms@.len() && spawned_ok(before_stairs, k, #[trigger] rooms@[r], map);
                reveal(spawned_ok);
                assert(spawned_ok(before_stairs, k, rooms@[r], map));
            }
        }
        assert forall|k: int|
            1 <= k < objects@.len() && (#[trigger] objects@[k]).fighter is Some implies objects@[
        k].alive && objects@[k].fighter.unwrap().on_death is Monster && objects@[
        k].fighter.unwrap().xp <= crate::STAT_LIMIT by {
            if k < before_stairs.len() {
                assert(objects@[k] == before_stairs[k]);
                assert(spawned_any(before_stairs, k, rooms@, map));
                let r = choose|r: int|
                    0 <= r < rooms@.len() && spawned_ok(before_stairs, k, #[trigger] rooms@[r], map);
                reveal(spawned_ok);
                assert(spawned_ok(before_stairs, k, rooms@[r], map));
            }
        }
        assert forall|k: int|
            #![trigger spawned_any(objects@, k, rooms@, map)]
            #![trigger objects@[k]]
            1 <= k < objects@.len() - 1 implies spawned_any(objects@, k, rooms@, map) && (
        monster_shaped(objects@[k]) || item_shaped(objects@[k])) by {
            assert(objects@[k] == before_stairs[k]);
            assert(spawned_any(before_stairs, k, rooms@, map));
            let r = choose|r: int|
                0 <= r < rooms@.len() && spawned_ok(before_stairs, k, #[trigger] rooms@[r], map);
            assert(spawned_ok(objects@, k, rooms@[r], map)) by {
                reveal(spawned_ok);
                assert(spawned_ok(before_stairs, k, rooms@[r], map));
                assert forall|j: int| 1 <= j < k implies objects@[j] == before_stairs[j] by {}
            }
            assert(monster_shaped(objects@[k]) || item_shaped(objects@[k])) by {
                reveal(spawned_ok);
            }
        }
        assert(generated_level(
            level as int,
            orig0,
            map,
            rooms@,
            objects@.drop_last(),
            old(rng).state,
            rng.state,
        )) by {
            assert(objects@.drop_last() =~= before_stairs);
        }
    }
    (map, rooms)
}

/// Carving an L-shaped tunnel between two interior points, in either
/// bend order, connects them across walkable tiles.
proof fn lemma_l_tunnel_connects(
    map_pre: TileMap,
    map_mid: TileMap,
    map_post: TileMap,
    px: int,
    py: int,
    nx: int,
    ny: int,
    horizontal_first: bool,
)
    requires
        map_pre.wf(),
        1 <= px < MAP_WIDTH - 1,
        1 <= nx < MAP_WIDTH - 1,
        1 <= py < MAP_HEIGHT - 1,
        1 <= ny < MAP_HEIGHT - 1,
        horizontal_first ==> {
            // first leg: row py carved from min to max of px, nx
            &&& forall|i: int, j: int|
                in_bounds(i, j) ==> #[trigger] map_mid.at(i, j) == (
                if (if px <= nx { px } else { nx }) <= i <= (if px <= nx { nx } else { px }) && j == py {
                    Tile::spec_empty()
                } else {
                    map_pre.at(i, j)
                })
            // second leg: column nx carved from min to max of py, ny
            &&& forall|i: int, j: int|
                in_bounds(i, j) ==> #[trigger] map_post.at(i, j) == (
                if (if py <= ny { py } else { ny }) <= j <= (if py <= ny { ny } else { py }) && i == nx {
                    Tile::spec_empty()
                } else {
                    map_mid.at(i, j)
                })
        },
        !horizontal_first ==> {
            &&& forall|i: int, j: int|
                in_bounds(i, j) ==> #[trigger] map_mid.at(i, j) == (
                if (if py <= ny { py } else { ny }) <= j <= (if py <= ny { ny } else { py }) && i == px {
                    Tile::spec_empty()
                } else {
                    map_pre.at(i, j)
                })
            &&& forall|i: int, j: int|
                in_bounds(i, j) ==> #[trigger] map_post.at(i, j) == (
                if (if px <= nx { px } else { nx }) <= i <= (if px <= nx { nx } else { px }) && j == ny {
                    Tile::spec_empty()
                } else {
                    map_mid.at(i, j)
                })
        },
    ensures
        connected(map_post, px, py, nx, ny),
{
    let xlo = if px <= nx { px } else { nx };
    let xhi = if px <= nx { nx } else { px };
    let ylo = if py <= ny { py } else { ny };
    let yhi = if py <= ny { ny } else { py };
    if horizontal_first {
        // row py is walkable in map_post between xlo and xhi
        assert forall|i: int| xlo <= i <= xhi implies walkable(map_post, i, py) by {
            assert(map_mid.at(i, py) == Tile::spec_empty());
            assert(!map_post.at(i, py).blocked);
        }
        // column nx is walkable in map_post between ylo and yhi
        assert forall|j: int| ylo <= j <= yhi implies walkable(map_post, nx, j) by {
            assert(map_post.at(nx, j) == Tile::spec_empty());
        }
        lemma_h_span(map_post, xlo, xhi, py);
        lemma_v_span(map_post, ylo, yhi, nx);
        // orient the two spans from (px, py) to (nx, py) to (nx, ny)
        if px <= nx {
        } else {
            lemma_connected_sym(map_post, xlo, py, xhi, py);
        }
        assert(connected(map_post, px, py, nx, py));
        if py <= ny {
        } else {
            lemma_connected_sym(map_post, nx, ylo, nx, yhi);
        }
        assert(connected(map_post, nx, py, nx, ny));
        lemma_connected_trans(map_post, px, py, nx, py, nx, ny);
    } else {
        // column px walkable between ylo and yhi
        assert forall|j: int| ylo <= j <= yhi implies walkable(map_post, px, j) by {
            assert(map_mid.at(px, j) == Tile::spec_empty());
            assert(!map_post.at(px, j).blocked);
        }
        // row ny walkable between xlo and xhi
        assert forall|i: int| xlo <= i <= xhi implies walkable(map_post, i, ny) by {
            assert(map_post.at(i, ny) == Tile::spec_empty());
        }
        lemma_v_span(map_post, ylo, yhi, px);
        lemma_h_span(map_post, xlo, xhi, ny);
        if py <= ny {
        } else {
            lemma_connected_sym(map_post, px, ylo, px, yhi);
        }
        assert(connected(map_post, px, py, px, ny));
        if px <= nx {
        } else {
            lemma_connected_sym(map_post, xlo, ny, xhi, ny);
        }
        assert(connected(map_post, px, ny, nx, ny));
        lemma_connected_trans(map_post, px, py, px, ny, nx, ny);
    }
}


/// The greeting a fresh session logs.
pub open spec fn welcome_msg() -> Seq<char> {
    "Welcome to Qwestr! Prepare to perish in the Tombs of the Fallen Heroes..."@
}

/// The player after the rest taken on the stairs: half the maximum hit
/// points recovered, capped at the maximum, everything else untouched.
pub open spec fn rested_player(o: Object) -> Object {
    match o.fighter {
        Some(f) => Object {
            fighter: Some(
                Fighter {
                    hp: (if f.hp + f.max_hp / 2 > f.max_hp {
                        f.max_hp as int
                    } else {
                        f.hp + f.max_hp / 2
                    }) as i32,
                    ..f
                },
            ),
            ..o
        },
        None => o,
    }
}

/// The newly created player: the fixed starting statistics, standing at
/// the origin until generation seats it in the first room.
pub open spec fn fresh_player(o: Object) -> bool {
    &&& o.x == 0 && o.y == 0
    &&& o.glyph == '@'
    &&& o.color == ColorCode::White
    &&& o.blocks
    &&& o.alive
    &&& o.name@ == "player"@
    &&& !o.always_visible
    &&& o.fighter == Some(
        Fighter { max_hp: 30, hp: 30, defense: 2, power: 5, xp: 0, on_death: DeathCallback::Player },
    )
    &&& o.ai is None
    &&& o.item is None
    &&& o.level == 1
}

/// Start a new game: a fresh player with the fixed starting statistics,
/// a generated first level, an empty inventory and a greeting in the log.
pub fn new_game(rng: &mut Rng) -> (r: (Game, Vec<Object>))
    ensures
        game_wf(r.0, r.1@),
        r.0.dungeon_level == 1,
        r.0.inventory@.len() == 0,
        r.0.messages.messages@.len() == 1,
        r.0.messages.messages@[0].0@ == welcome_msg(),
        r.0.messages.messages@[0].1 == ColorCode::Gold,
        r.1@.len() >= 2,
        r.1@[PLAYER as int].fighter == Some(
            Fighter { max_hp: 30, hp: 30, defense: 2, power: 5, xp: 0, on_death: DeathCallback::Player },
        ),
        r.1@[PLAYER as int].alive,
        r.1@[PLAYER as int].name@ == "player"@,
        r.1@[PLAYER as int].level == 1,
        (exists|p0: Object, rooms: Seq<Rect>|
            fresh_player(p0) && #[trigger] generated_level(
                1,
                p0,
                r.0.map,
                rooms,
                r.1@.drop_last(),
                old(rng).state,
                final(rng).state,
            )),
        forall|k: int|
            1 <= k < r.1@.len() - 1 ==> monster_shaped(#[trigger] r.1@[k]) || item_shaped(r.1@[k]),
{
    let mut player = Object::new(0, 0, '@', "player", ColorCode::White, true);
    player.fighter = Some(
        Fighter { max_hp: 30, hp: 30, defense: 2, power: 5, xp: 0, on_death: DeathCallback::Player },
    );
    player.alive = true;
    let ghost p0 = player;
    proof {
        assert(fresh_player(p0));
    }

    let mut objects: Vec<Object> = Vec::new();
    objects.push(player);

    let (map, _rooms) = make_map(&mut objects, 1, rng);
    proof {
        assert(generated_level(
            1,
            p0,
            map,
            _rooms@,
            objects@.drop_last(),
            old(rng).state,
            rng.state,
        ));
    }

    let mut messages = Messages::new();
    messages.add(
        "Welcome to Qwestr! Prepare to perish in the Tombs of the Fallen Heroes...".to_owned(),
        ColorCode::Gold,
    );

    let game = Game { map, messages, inventory: Vec::new(), dungeon_level: 1 };
    (game, objects)
}

/// Descend one level: rest for half the maximum hit points, step one
/// level deeper, and replace the map and its monsters wholesale. The
/// player and the carried items persist.
#[verifier::rlimit(100)]
#[verifier::spinoff_prover]
pub fn next_level(game: &mut Game, objects: &mut Vec<Object>, rng: &mut Rng)
    requires
        game_wf(*old(game), old(objects)@),
        old(objects)@[PLAYER as int].alive,
        old(game).dungeon_level < u32::MAX,
    ensures
        game_wf(*final(game), final(objects)@),
        final(game).dungeon_level == old(game).dungeon_level + 1,
        final(game).inventory == old(game).inventory,
        final(objects)@.len() >= 2,
        final(objects)@[PLAYER as int].fighter == Some(
            ({
                let f = old(objects)@[PLAYER as int].fighter.unwrap();
                Fighter {
                    hp: (if f.hp + f.max_hp / 2 > f.max_hp {
                        f.max_hp as int
                    } else {
                        f.hp + f.max_hp / 2
                    }) as i32,
                    ..f
                }
            }),
        ),
        final(objects)@[PLAYER as int].alive,
        final(objects)@[PLAYER as int] == (Object {
            x: final(objects)@[PLAYER as int].x,
            y: final(objects)@[PLAYER as int].y,
            fighter: final(objects)@[PLAYER as int].fighter,
            ..old(objects)@[PLAYER as int]
        }),
        (exists|rooms: Seq<Rect>|
            #[trigger] generated_level(
                old(game).dungeon_level + 1,
                rested_player(old(objects)@[PLAYER as int]),
                final(game).map,
                rooms,
                final(objects)@.drop_last(),
                old(rng).state,
                final(rng).state,
            )),
        forall|k: int|
            1 <= k < final(objects)@.len() - 1 ==> monster_shaped(#[trigger] final(objects)@[k])
                || item_shaped(final(objects)@[k]),
{
    game.messages.add(
        "You take a moment to rest, and recover your strength.".to_owned(),
        ColorCode::Violet,
    );

    let heal_hp = match objects[PLAYER].fighter {
        Some(f) => f.max_hp / 2,
        None => 0,
    };
    {
        let o = &mut objects[PLAYER];
        o.heal(heal_hp);
    }

    game.messages.add(
        "After a rare moment of peace, you descend deeper into the heart of the dungeon...".to_owned(),
        ColorCode::Red,
    );

    game.dungeon_level = game.dungeon_level + 1;

    let ghost healed = objects@[PLAYER as int];
    let (map, _rooms) = make_map(objects, game.dungeon_level, rng);
    proof {
        let f = old(objects)@[PLAYER as int].fighter.unwrap();
        assert(healed == (Object {
            fighter: Some(
                Fighter {
                    hp: (if f.hp + f.max_hp / 2 > f.max_hp {
                        f.max_hp as int
                    } else {
                        f.hp + f.max_hp / 2
                    }) as i32,
                    ..f
                },
            ),
            ..old(objects)@[PLAYER as int]
        }));
        assert(generated_level(
            old(game).dungeon_level + 1,
            healed,
            map,
            _rooms@,
            objects@.drop_last(),
            old(rng).state,
            rng.state,
        ));
    }
    game.map = map;
    proof {
        assert(rested_player(old(objects)@[PLAYER as int]) == healed);
        assert(generated_level(
            old(game).dungeon_level + 1,
            rested_player(old(objects)@[PLAYER as int]),
            game.map,
            _rooms@,
            objects@.drop_last(),
            old(rng).state,
            rng.state,
        ));
    }
}


/// Every tile strictly inside a carved room walks to the room's center:
/// first along its column, then along the center's row, all inside the
/// carved interior.
pub proof fn lemma_room_interior_connected(map: TileMap, room: Rect, x: int, y: int)
    requires
        room_ok(room),
        interior_carved(map, room),
        room.x1 < x < room.x2,
        room.y1 < y < room.y2,
    ensures
        connected(map, x, y, room.center_x(), room.center_y()),
{
    lemma_center_inside(room);
    let cx = room.center_x();
    let cy = room.center_y();
    assert forall|j: int| room.y1 < j < room.y2 implies walkable(map, x, j) by {
        assert(!map.at(x, j).blocked);
    }
    assert forall|i: int| room.x1 < i < room.x2 implies walkable(map, i, cy) by {
        assert(!map.at(i, cy).blocked);
    }
    if y <= cy {
        lemma_v_span(map, y, cy, x);
    } else {
        lemma_v_span(map, cy, y, x);
        lemma_connected_sym(map, x, cy, x, y);
    }
    if x <= cx {
        lemma_h_span(map, x, cx, cy);
    } else {
        lemma_h_span(map, cx, x, cy);
        lemma_connected_sym(map, cx, cy, x, cy);
    }
    lemma_connected_trans(map, x, y, x, cy, cx, cy);
}

/// No accepted room is isolated: every tile strictly inside any of them
/// walks to the spawn — the first accepted room's center — across the
/// carved rooms and tunnels.
pub proof fn lemma_rooms_reachable_from_spawn(
    map: TileMap,
    rooms: Seq<Rect>,
    i: int,
    x: int,
    y: int,
)
    requires
        rooms.len() >= 1,
        forall|k: int| 0 <= k < rooms.len() ==> room_ok(#[trigger] rooms[k]),
        forall|k: int| 0 <= k < rooms.len() ==> interior_carved(map, #[trigger] rooms[k]),
        forall|k: int|
            0 <= k < rooms.len() ==> connected(
                map,
                (#[trigger] rooms[k]).center_x(),
                rooms[k].center_y(),
                rooms[0].center_x(),
                rooms[0].center_y(),
            ),
        0 <= i < rooms.len(),
        rooms[i].x1 < x < rooms[i].x2,
        rooms[i].y1 < y < rooms[i].y2,
    ensures
        connected(map, x, y, rooms[0].center_x(), rooms[0].center_y()),
{
    lemma_room_interior_connected(map, rooms[i], x, y);
    lemma_connected_trans(
        map,
        x,
        y,
        rooms[i].center_x(),
        rooms[i].center_y(),
        rooms[0].center_x(),
        rooms[0].center_y(),
    );
}

} // verus!
