//! Behavioural tests of the simulation core: combat, behaviour
//! transitions, item effects, progression, movement and generation.

use qwest_r::ai::ai_take_turn;
use qwest_r::fov::VisGrid;
use qwest_r::fov::tile_shade;
use qwest_r::fov::TileShade;
use qwest_r::fov::update_explored;
use qwest_r::game::Game;
use qwest_r::generation::Transition;
use qwest_r::generation::from_dungeon_level;
use qwest_r::generation::make_map;
use qwest_r::generation::new_game;
use qwest_r::items::cast_confuse;
use qwest_r::items::cast_fireball;
use qwest_r::items::cast_heal;
use qwest_r::items::cast_lightning;
use qwest_r::items::drop_item;
use qwest_r::items::pick_item_up;
use qwest_r::items::use_item;
use qwest_r::items::TargetChoice;
use qwest_r::items::UseResult;
use qwest_r::messages::ColorCode;
use qwest_r::messages::Messages;
use qwest_r::messages::i32_string;
use qwest_r::motion::move_by;
use qwest_r::motion::player_move_or_attack;
use qwest_r::object::Ai;
use qwest_r::object::DeathCallback;
use qwest_r::object::Fighter;
use qwest_r::object::Item;
use qwest_r::object::Object;
use qwest_r::progression::level_up;
use qwest_r::progression::LevelUpChoice;
use qwest_r::rect::Rect;
use qwest_r::rng::Rng;
use qwest_r::tile::TileMap;
use qwest_r::generation::create_room;

fn fighter(max_hp: i32, hp: i32, defense: i32, power: i32, xp: i32, cb: DeathCallback) -> Fighter {
    Fighter { max_hp, hp, defense, power, xp, on_death: cb }
}

fn arena() -> TileMap {
    let mut map = TileMap::new_walls();
    create_room(Rect::new(1, 1, 30, 30), &mut map);
    map
}

fn player_at(x: i32, y: i32) -> Object {
    let mut p = Object::new(x, y, '@', "player", ColorCode::White, true);
    p.fighter = Some(fighter(30, 30, 2, 5, 0, DeathCallback::Player));
    p.alive = true;
    p
}

fn orc_at(x: i32, y: i32) -> Object {
    let mut m = Object::new(x, y, 'o', "orc", ColorCode::DesaturatedGreen, true);
    m.fighter = Some(fighter(10, 10, 0, 3, 35, DeathCallback::Monster));
    m.ai = Some(Ai::Basic);
    m.alive = true;
    m
}

fn arena_game() -> Game {
    Game { map: arena(), messages: Messages::new(), inventory: Vec::new(), dungeon_level: 1 }
}

fn full_vis(value: bool) -> VisGrid {
    let mut cols = Vec::new();
    for _ in 0..80 {
        let mut col = Vec::new();
        for _ in 0..43 {
            col.push(value);
        }
        cols.push(col);
    }
    VisGrid::from_grid(cols).unwrap()
}

#[test]
fn generation_rooms_disjoint_player_inside_first() {
    let mut rng = Rng::new(42);
    let mut objects = vec![player_at(0, 0)];
    let (map, rooms) = make_map(&mut objects, 1, &mut rng);
    assert!(rooms.len() >= 1);
    for i in 0..rooms.len() {
        for j in (i + 1)..rooms.len() {
            assert!(!rooms[i].intersects_with(&rooms[j]));
        }
    }
    let player = &objects[0];
    assert!(rooms[0].x1 < player.x && player.x < rooms[0].x2);
    assert!(rooms[0].y1 < player.y && player.y < rooms[0].y2);
    let stairs = objects.last().unwrap();
    assert_eq!(stairs.name, "stairs");
    assert!(stairs.always_visible);
    // every object stands on a walkable tile
    for o in objects.iter() {
        assert!(!map.get(o.x, o.y).blocked);
    }
}

#[test]
fn room_population_respects_depth_caps() {
    // at depth 1 the tables allow at most 2 monsters and 1 item per room
    let mut rng = Rng::new(99);
    let mut objects = vec![player_at(0, 0)];
    let (_map, rooms) = make_map(&mut objects, 1, &mut rng);
    for room in rooms.iter() {
        let monsters = objects
            .iter()
            .skip(1)
            .filter(|o| {
                o.fighter.is_some() && room.x1 < o.x && o.x < room.x2 && room.y1 < o.y && o.y
                    < room.y2
            })
            .count();
        let items = objects
            .iter()
            .skip(1)
            .filter(|o| {
                o.item.is_some() && room.x1 < o.x && o.x < room.x2 && room.y1 < o.y && o.y
                    < room.y2
            })
            .count();
        assert!(monsters <= 2);
        assert!(items <= 1);
    }
    // every spawn is one of the fixed shapes of this depth
    for o in objects.iter().skip(1).take(objects.len() - 2) {
        if let Some(f) = o.fighter {
            assert!(o.name == "orc" || o.name == "troll");
            assert!(o.blocks && o.alive);
            if o.name == "orc" {
                assert_eq!((f.max_hp, f.defense, f.power, f.xp), (10, 0, 3, 35));
            } else {
                assert_eq!((f.max_hp, f.defense, f.power, f.xp), (16, 1, 4, 100));
            }
        } else {
            assert!(o.item.is_some());
            assert!(!o.blocks && o.always_visible);
        }
    }
}

#[test]
fn generation_deterministic_for_fixed_seed() {
    let mut rng1 = Rng::new(20260101);
    let mut rng2 = Rng::new(20260101);
    let (game1, objs1) = new_game(&mut rng1);
    let (game2, objs2) = new_game(&mut rng2);
    assert_eq!(game1, game2);
    assert_eq!(objs1, objs2);
}

#[test]
fn attack_damage_is_power_minus_defense() {
    let mut attacker = player_at(5, 5);
    let mut defender = orc_at(6, 5);
    defender.fighter = Some(fighter(10, 10, 2, 3, 35, DeathCallback::Monster));
    let mut messages = Messages::new();
    attacker.attack(&mut defender, &mut messages);
    assert_eq!(defender.fighter.unwrap().hp, 7);
    assert_eq!(messages.get(0).0, "player attacks orc for 3 hit points.");
}

#[test]
fn attack_with_no_effect_changes_nothing() {
    let mut attacker = orc_at(6, 5);
    attacker.fighter = Some(fighter(10, 10, 0, 1, 35, DeathCallback::Monster));
    let mut defender = player_at(5, 5);
    let mut messages = Messages::new();
    attacker.attack(&mut defender, &mut messages);
    assert_eq!(defender.fighter.unwrap().hp, 30);
    assert_eq!(messages.get(0).0, "orc attacks player but it has no effect!");
}

#[test]
fn two_attacks_kill_exactly_once() {
    let mut attacker = player_at(5, 5);
    let mut defender = orc_at(6, 5);
    defender.fighter = Some(fighter(10, 10, 0, 3, 35, DeathCallback::Monster));
    let mut messages = Messages::new();
    attacker.attack(&mut defender, &mut messages);
    assert_eq!(defender.fighter.unwrap().hp, 5);
    assert!(defender.alive);
    attacker.attack(&mut defender, &mut messages);
    assert!(!defender.alive);
    assert!(defender.fighter.is_none());
    assert!(defender.ai.is_none());
    assert_eq!(defender.name, "remains of orc");
    assert_eq!(attacker.fighter.unwrap().xp, 35);
    let mut deaths = 0;
    for i in 0..messages.len() {
        if messages.get(i).0.contains("is dead!") {
            deaths += 1;
        }
    }
    assert_eq!(deaths, 1);
    // a third attack on the remains changes nothing and yields nothing
    attacker.attack(&mut defender, &mut messages);
    assert_eq!(attacker.fighter.unwrap().xp, 35);
}

#[test]
fn heal_never_exceeds_max_hp() {
    let mut game = arena_game();
    let mut objects = vec![player_at(5, 5)];
    objects[0].fighter = Some(fighter(30, 25, 2, 5, 0, DeathCallback::Player));
    let result = cast_heal(&mut game, &mut objects);
    assert!(matches!(result, UseResult::UsedUp));
    assert_eq!(objects[0].fighter.unwrap().hp, 30);
}

#[test]
fn heal_at_full_health_is_cancelled() {
    let mut game = arena_game();
    let mut objects = vec![player_at(5, 5)];
    let result = cast_heal(&mut game, &mut objects);
    assert!(matches!(result, UseResult::Cancelled));
    assert_eq!(game.messages.get(0).0, "You are already at full health.");
}

#[test]
fn confusion_restores_prior_state_not_a_default() {
    let mut game = arena_game();
    let mut objects = vec![player_at(5, 5), orc_at(20, 20)];
    let result = cast_confuse(&mut game, &mut objects, Some(1));
    assert!(matches!(result, UseResult::UsedUp));
    assert!(matches!(
        objects[1].ai,
        Some(Ai::Confused { num_turns: 10, .. })
    ));
    let vis = full_vis(false);
    let mut rng = Rng::new(3);
    for _ in 0..11 {
        ai_take_turn(1, &mut game, &mut objects, &vis, &mut rng);
    }
    // eleven stumbling turns later the countdown is spent but the state
    // is still the confusion wrapper
    assert!(matches!(objects[1].ai, Some(Ai::Confused { .. })));
    ai_take_turn(1, &mut game, &mut objects, &vis, &mut rng);
    assert_eq!(objects[1].ai, Some(Ai::Basic));
}

#[test]
fn fireball_burns_all_and_awards_monster_xp_only() {
    let mut game = arena_game();
    let mut objects = vec![player_at(5, 5), orc_at(6, 5), orc_at(7, 5)];
    let result = cast_fireball(&mut game, &mut objects, Some((6, 5)));
    assert!(matches!(result, UseResult::UsedUp));
    // the player is inside the radius and gets burned too
    assert_eq!(objects[0].fighter.unwrap().hp, 5);
    assert!(objects[0].alive);
    // both monsters die and only their banked experience goes to the player
    assert!(objects[1].fighter.is_none());
    assert!(objects[2].fighter.is_none());
    assert_eq!(objects[0].fighter.unwrap().xp, 70);
}

#[test]
fn fireball_without_target_is_cancelled() {
    let mut game = arena_game();
    let mut objects = vec![player_at(5, 5)];
    let result = cast_fireball(&mut game, &mut objects, None);
    assert!(matches!(result, UseResult::Cancelled));
    assert_eq!(game.messages.len(), 0);
}

#[test]
fn lightning_without_visible_monster_is_cancelled() {
    let mut game = arena_game();
    let mut objects = vec![player_at(5, 5), orc_at(6, 5)];
    let vis = full_vis(false);
    let result = cast_lightning(&mut game, &mut objects, &vis);
    assert!(matches!(result, UseResult::Cancelled));
    assert_eq!(game.messages.get(0).0, "No enemy is close enough to strike.");
}

#[test]
fn lightning_strikes_closest_visible_monster() {
    let mut game = arena_game();
    let mut objects = vec![player_at(5, 5), orc_at(9, 5), orc_at(7, 5)];
    let vis = full_vis(true);
    let result = cast_lightning(&mut game, &mut objects, &vis);
    assert!(matches!(result, UseResult::UsedUp));
    // the closer orc (index 2) dies to the fixed 40 damage
    assert!(objects[2].fighter.is_none());
    assert!(objects[1].fighter.is_some());
    assert_eq!(objects[0].fighter.unwrap().xp, 35);
}

#[test]
fn confuse_without_selection_is_cancelled() {
    let mut game = arena_game();
    let mut objects = vec![player_at(5, 5), orc_at(6, 5)];
    let result = cast_confuse(&mut game, &mut objects, None);
    assert!(matches!(result, UseResult::Cancelled));
    assert_eq!(game.messages.get(0).0, "Saving it for later, eh?  Good choice!");
}

#[test]
fn use_item_consumes_slot_only_when_used_up() {
    let mut game = arena_game();
    let mut potion = Object::new(0, 0, '!', "healing potion", ColorCode::Violet, false);
    potion.item = Some(Item::Heal);
    game.inventory.push(potion);
    let mut objects = vec![player_at(5, 5)];
    let vis = full_vis(true);
    // at full health the potion is retained and a cancel is logged
    use_item(0, TargetChoice::Untargeted, &mut game, &mut objects, &vis);
    assert_eq!(game.inventory.len(), 1);
    assert_eq!(game.messages.get(game.messages.len() - 1).0, "Cancelled");
    // hurt, the potion heals and the slot empties
    objects[0].fighter = Some(fighter(30, 10, 2, 5, 0, DeathCallback::Player));
    use_item(0, TargetChoice::Untargeted, &mut game, &mut objects, &vis);
    assert_eq!(game.inventory.len(), 0);
    assert_eq!(objects[0].fighter.unwrap().hp, 30);
}

#[test]
fn level_thresholds_keep_residual_xp() {
    let mut game = arena_game();
    let mut objects = vec![player_at(5, 5)];
    objects[0].fighter = Some(fighter(30, 30, 2, 5, 900, DeathCallback::Player));
    // threshold at level 1 is 200 + 1 * 150 = 350
    level_up(LevelUpChoice::Strength, &mut game, &mut objects);
    assert_eq!(objects[0].level, 2);
    assert_eq!(objects[0].fighter.unwrap().xp, 550);
    assert_eq!(objects[0].fighter.unwrap().power, 6);
    // threshold at level 2 is 500
    level_up(LevelUpChoice::Constitution, &mut game, &mut objects);
    assert_eq!(objects[0].level, 3);
    assert_eq!(objects[0].fighter.unwrap().xp, 50);
    assert_eq!(objects[0].fighter.unwrap().max_hp, 50);
    assert_eq!(objects[0].fighter.unwrap().hp, 50);
    // 50 is under the level 3 threshold of 650: nothing happens
    level_up(LevelUpChoice::Agility, &mut game, &mut objects);
    assert_eq!(objects[0].level, 3);
    assert_eq!(objects[0].fighter.unwrap().xp, 50);
}

#[test]
fn movement_blocked_by_walls_and_monsters() {
    let game = arena_game();
    let mut objects = vec![player_at(2, 2), orc_at(3, 2)];
    // into the wall: nothing moves
    move_by(0, -1, -1, &game.map, &mut objects);
    assert_eq!((objects[0].x, objects[0].y), (2, 2));
    // into the monster: blocked
    move_by(0, 1, 0, &game.map, &mut objects);
    assert_eq!((objects[0].x, objects[0].y), (2, 2));
    // into open floor: moves
    move_by(0, 0, 1, &game.map, &mut objects);
    assert_eq!((objects[0].x, objects[0].y), (2, 3));
}

#[test]
fn player_move_or_attack_attacks_adjacent_fighter() {
    let mut game = arena_game();
    let mut objects = vec![player_at(5, 5), orc_at(6, 5)];
    player_move_or_attack(1, 0, &mut game, &mut objects);
    assert_eq!((objects[0].x, objects[0].y), (5, 5));
    assert_eq!(objects[1].fighter.unwrap().hp, 5);
}

#[test]
fn pick_up_and_drop_round_trip() {
    let mut game = arena_game();
    let mut item = Object::new(5, 5, '!', "healing potion", ColorCode::Violet, false);
    item.item = Some(Item::Heal);
    let mut objects = vec![player_at(4, 4), item];
    pick_item_up(1, &mut game, &mut objects);
    assert_eq!(objects.len(), 1);
    assert_eq!(game.inventory.len(), 1);
    drop_item(0, &mut game, &mut objects);
    assert_eq!(game.inventory.len(), 0);
    assert_eq!(objects.len(), 2);
    assert_eq!((objects[1].x, objects[1].y), (4, 4));
}

#[test]
fn inventory_cap_rejects_pickup() {
    let mut game = arena_game();
    for _ in 0..26 {
        let mut filler = Object::new(0, 0, '!', "healing potion", ColorCode::Violet, false);
        filler.item = Some(Item::Heal);
        game.inventory.push(filler);
    }
    let mut item = Object::new(5, 5, '!', "healing potion", ColorCode::Violet, false);
    item.item = Some(Item::Heal);
    let mut objects = vec![player_at(4, 4), item];
    pick_item_up(1, &mut game, &mut objects);
    assert_eq!(objects.len(), 2);
    assert_eq!(game.inventory.len(), 26);
    assert_eq!(
        game.messages.get(0).0,
        "Your inventory is full, cannot pick up healing potion."
    );
}

#[test]
fn depth_table_picks_highest_reached_threshold() {
    let table = vec![
        Transition { level: 1, value: 2 },
        Transition { level: 4, value: 3 },
        Transition { level: 6, value: 5 },
    ];
    assert_eq!(from_dungeon_level(&table, 0), 0);
    assert_eq!(from_dungeon_level(&table, 1), 2);
    assert_eq!(from_dungeon_level(&table, 3), 2);
    assert_eq!(from_dungeon_level(&table, 4), 3);
    assert_eq!(from_dungeon_level(&table, 6), 5);
    assert_eq!(from_dungeon_level(&table, 100), 5);
}

#[test]
fn explored_flags_are_monotone() {
    let mut map = arena();
    let vis = full_vis(true);
    update_explored(&mut map, &vis);
    assert!(map.get(5, 5).explored);
    let dark = full_vis(false);
    update_explored(&mut map, &dark);
    assert!(map.get(5, 5).explored);
}

#[test]
fn tile_shades_follow_view_and_walls() {
    assert_eq!(tile_shade(false, true), TileShade::DarkWall);
    assert_eq!(tile_shade(false, false), TileShade::DarkGround);
    assert_eq!(tile_shade(true, true), TileShade::LightWall);
    assert_eq!(tile_shade(true, false), TileShade::LightGround);
}

#[test]
fn decimal_rendering_is_exact() {
    assert_eq!(i32_string(0), "0");
    assert_eq!(i32_string(35), "35");
    assert_eq!(i32_string(-123), "-123");
    assert_eq!(i32_string(2147483647), "2147483647");
    assert_eq!(i32_string(-2147483648), "-2147483648");
}

#[test]
fn basic_monster_steps_toward_visible_player() {
    let mut game = arena_game();
    let mut objects = vec![player_at(5, 5), orc_at(10, 10)];
    let vis = full_vis(true);
    let mut rng = Rng::new(1);
    ai_take_turn(1, &mut game, &mut objects, &vis, &mut rng);
    // the displacement (-5, -5) normalizes to one diagonal step
    assert_eq!((objects[1].x, objects[1].y), (9, 9));
    assert_eq!(objects[1].ai, Some(Ai::Basic));
}

#[test]
fn basic_monster_attacks_adjacent_player() {
    let mut game = arena_game();
    let mut objects = vec![player_at(5, 5), orc_at(6, 5)];
    let vis = full_vis(true);
    let mut rng = Rng::new(1);
    ai_take_turn(1, &mut game, &mut objects, &vis, &mut rng);
    // orc power 3 against player defense 2: one hit point
    assert_eq!(objects[0].fighter.unwrap().hp, 29);
}

#[test]
fn hidden_monster_does_nothing() {
    let mut game = arena_game();
    let mut objects = vec![player_at(5, 5), orc_at(10, 10)];
    let vis = full_vis(false);
    let mut rng = Rng::new(1);
    ai_take_turn(1, &mut game, &mut objects, &vis, &mut rng);
    assert_eq!((objects[1].x, objects[1].y), (10, 10));
    assert_eq!(game.messages.len(), 0);
}

#[test]
fn descending_heals_half_and_deepens() {
    let mut rng = Rng::new(12345);
    let (mut game, mut objects) = qwest_r::generation::new_game(&mut rng);
    let before_level = game.dungeon_level;
    objects[0].fighter = Some(fighter(30, 10, 2, 5, 0, DeathCallback::Player));
    qwest_r::generation::next_level(&mut game, &mut objects, &mut rng);
    assert_eq!(game.dungeon_level, before_level + 1);
    // healed by half the maximum: 10 + 15 = 25
    assert_eq!(objects[0].fighter.unwrap().hp, 25);
    assert_eq!(objects.last().unwrap().name, "stairs");
}
