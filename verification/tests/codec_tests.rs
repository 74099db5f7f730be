//! Round-trip tests of the persistence codec, and duel-rule tests of the
//! text adventure module.

use qwest_r::adventure::Enemy;
use qwest_r::adventure::Player as Adventurer;
use qwest_r::adventure::RoundOutcome;
use qwest_r::adventure::roll;
use qwest_r::codec::load;
use qwest_r::codec::save;
use qwest_r::generation::new_game;
use qwest_r::items::cast_confuse;
use qwest_r::messages::ColorCode;
use qwest_r::object::Item;
use qwest_r::object::Object;
use qwest_r::rng::Rng;

#[test]
fn load_after_save_restores_everything() {
    let mut rng = Rng::new(99);
    let (mut game, mut objects) = new_game(&mut rng);
    // make the state interesting: extra log entries, an inventory item,
    // and a confused monster whose behaviour owns its prior state
    game.messages.add(String::from("It is damp down here."), ColorCode::LightBlue);
    let mut potion = Object::new(0, 0, '!', "healing potion", ColorCode::Violet, false);
    potion.item = Some(Item::Heal);
    game.inventory.push(potion);
    if objects.len() > 2 {
        let idx = objects.len() - 2;
        if objects[idx].ai.is_some() {
            cast_confuse(&mut game, &mut objects, Some(idx));
        }
    }

    let blob = save(&game, &objects);
    let (loaded_game, loaded_objects) = load(blob.as_str()).unwrap();

    assert_eq!(loaded_game, game);
    assert_eq!(loaded_objects, objects);
}

#[test]
fn load_rejects_a_corrupt_blob() {
    assert!(load("not a saved game").is_none());
    assert!(load("").is_none());
    let mut rng = Rng::new(5);
    let (game, objects) = new_game(&mut rng);
    let blob = save(&game, &objects);
    let truncated = &blob[0..blob.len() / 2];
    assert!(load(truncated).is_none());
}

#[test]
fn dice_stay_in_their_bounds() {
    let mut rng = Rng::new(1);
    for _ in 0..100 {
        let r = roll(&mut rng, 1, 6);
        assert!(1 <= r && r <= 6);
    }
}

#[test]
fn duel_round_applies_both_rolls() {
    let mut rng = Rng::new(11);
    let mut shadow = rng;
    let mut hero = Adventurer::new(String::from("Tess"));
    let mut enemy = Enemy {
        name: String::from("Animated Skeleton"),
        max_health: 13,
        current_health: 13,
        min_damage: 1,
        max_damage: 3,
    };
    let outcome = hero.encounter_round(&mut enemy, &mut rng);
    let hero_roll = roll(&mut shadow, 1, 4);
    assert_eq!(enemy.current_health, 13 - hero_roll);
    if enemy.current_health > 0 {
        let enemy_roll = roll(&mut shadow, 1, 3);
        assert_eq!(hero.current_health, 30 - enemy_roll);
        assert_eq!(outcome, RoundOutcome::Ongoing);
    } else {
        assert_eq!(outcome, RoundOutcome::EnemyDefeated);
    }
}

#[test]
fn duel_reaches_a_verdict() {
    let mut rng = Rng::new(77);
    let mut hero = Adventurer::new(String::from("Rook"));
    let mut enemy = Enemy {
        name: String::from("Animated Skeleton"),
        max_health: 13,
        current_health: 13,
        min_damage: 1,
        max_damage: 3,
    };
    let mut verdict = RoundOutcome::Ongoing;
    for _ in 0..100 {
        verdict = hero.encounter_round(&mut enemy, &mut rng);
        if verdict != RoundOutcome::Ongoing {
            break;
        }
    }
    assert!(verdict != RoundOutcome::Ongoing);
    if verdict == RoundOutcome::EnemyDefeated {
        assert!(enemy.current_health <= 0);
    } else {
        assert!(hero.current_health <= 0);
    }
}
