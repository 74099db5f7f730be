//! The small text adventure: a duel against one enemy, a shop front,
//! and the dice it runs on. Everything interactive stays with the
//! caller; here live the rules.

use vstd::prelude::*;
use crate::rng::Rng;
use crate::rng::next_state;
use crate::rng::ranged;

verus! {

/// A number in `[min, max]`, both ends included, from the given dice.
pub fn roll(rng: &mut Rng, min: i32, max: i32) -> (r: i32)
    requires
        min <= max,
        max < i32::MAX,
    ensures
        final(rng).state == next_state(old(rng).state),
        r == ranged(final(rng).state, min as int, max + 1),
        min <= r <= max,
{
    rng.range_i32(min, max + 1)
}

/// An opponent with a health pool and a damage die.
#[derive(Debug, PartialEq)]
pub struct Enemy {
    pub name: String,
    pub max_health: i32,
    pub current_health: i32,
    pub min_damage: i32,
    pub max_damage: i32,
}

impl Enemy {
    /// Roll this enemy's attack damage.
    pub fn attack(&self, rng: &mut Rng) -> (r: i32)
        requires
            self.min_damage <= self.max_damage,
            self.max_damage < i32::MAX,
        ensures
            final(rng).state == next_state(old(rng).state),
            r == ranged(final(rng).state, self.min_damage as int, self.max_damage + 1),
            self.min_damage <= r <= self.max_damage,
    {
        roll(rng, self.min_damage, self.max_damage)
    }

    /// Apply damage; health may drop below zero, which ends the duel.
    pub fn take_damage(&mut self, damage: i32)
        requires
            0 <= damage,
            old(self).current_health - damage >= i32::MIN,
        ensures
            final(self).current_health == old(self).current_health - damage,
            final(self).name == old(self).name,
            final(self).max_health == old(self).max_health,
            final(self).min_damage == old(self).min_damage,
            final(self).max_damage == old(self).max_damage,
    {
        self.current_health = self.current_health - damage;
    }
}

/// What the adventurer swings.
#[derive(Debug, PartialEq)]
pub struct Weapon {
    pub name: String,
    pub min_damage: i32,
    pub max_damage: i32,
}

/// The armed adventurer of the duel.
#[derive(Debug, PartialEq)]
pub struct Player {
    pub name: String,
    pub max_health: i32,
    pub current_health: i32,
    pub weapon: Weapon,
}

/// How one exchange of blows ended.
#[derive(Clone, Copy, Debug, PartialEq, Eq, Structural)]
pub enum RoundOutcome {
    EnemyDefeated,
    PlayerDefeated,
    Ongoing,
}

impl Player {
    /// A fresh adventurer with the starting health and training weapon.
    pub fn new(name: String) -> (r: Player)
        ensures
            r.name == name,
            r.max_health == 30,
            r.current_health == 30,
            r.weapon.name@ == "Training Sword"@,
            r.weapon.min_damage == 1,
            r.weapon.max_damage == 4,
    {
        Player {
            name,
            max_health: 30,
            current_health: 30,
            weapon: Weapon { name: "Training Sword".to_owned(), min_damage: 1, max_damage: 4 },
        }
    }

    /// Roll this adventurer's attack damage.
    pub fn attack(&self, rng: &mut Rng) -> (r: i32)
        requires
            self.weapon.min_damage <= self.weapon.max_damage,
            self.weapon.max_damage < i32::MAX,
        ensures
            final(rng).state == next_state(old(rng).state),
            r == ranged(final(rng).state, self.weapon.min_damage as int, self.weapon.max_damage + 1),
            self.weapon.min_damage <= r <= self.weapon.max_damage,
    {
        roll(rng, self.weapon.min_damage, self.weapon.max_damage)
    }

    /// Apply damage; health may drop below zero, which ends the duel.
    pub fn take_damage(&mut self, damage: i32)
        requires
            0 <= damage,
            old(self).current_health - damage >= i32::MIN,
        ensures
            final(self).current_health == old(self).current_health - damage,
            final(self).name == old(self).name,
            final(self).max_health == old(self).max_health,
            final(self).weapon == old(self).weapon,
    {
        self.current_health = self.current_health - damage;
    }

    /// One chosen attack: the adventurer strikes; if the enemy still
    /// stands, it strikes back. Exactly the decision core of the duel
    /// loop; the caller only relays choices and prints.
    pub fn encounter_round(&mut self, enemy: &mut Enemy, rng: &mut Rng) -> (r: RoundOutcome)
        requires
            old(self).weapon.min_damage >= 0,
            old(self).weapon.min_damage <= old(self).weapon.max_damage,
            old(self).weapon.max_damage < 1000000,
            old(enemy).min_damage >= 0,
            old(enemy).min_damage <= old(enemy).max_damage,
            old(enemy).max_damage < 1000000,
            old(self).current_health > i32::MIN + 1000000,
            old(enemy).current_health > i32::MIN + 1000000,
        ensures
            ({
                let s1 = next_state(old(rng).state);
                let player_roll = ranged(s1, old(self).weapon.min_damage as int, old(self).weapon.max_damage + 1);
                let enemy_hp = old(enemy).current_health - player_roll;
                if enemy_hp <= 0 {
                    &&& r == RoundOutcome::EnemyDefeated
                    &&& final(rng).state == s1
                    &&& final(enemy).current_health == enemy_hp
                    &&& *final(self) == *old(self)
                } else {
                    let s2 = next_state(s1);
                    let enemy_roll = ranged(s2, old(enemy).min_damage as int, old(enemy).max_damage + 1);
                    let player_hp = old(self).current_health - enemy_roll;
                    &&& final(rng).state == s2
                    &&& final(enemy).current_health == enemy_hp
                    &&& final(self).current_health == player_hp
                    &&& r == (if player_hp <= 0 {
                        RoundOutcome::PlayerDefeated
                    } else {
                        RoundOutcome::Ongoing
                    })
                }
            }),
    {
        let player_roll = self.attack(rng);
        enemy.take_damage(player_roll);
        if enemy.current_health <= 0 {
            return RoundOutcome::EnemyDefeated;
        }
        let enemy_roll = enemy.attack(rng);
        self.take_damage(enemy_roll);
        if self.current_health <= 0 {
            RoundOutcome::PlayerDefeated
        } else {
            RoundOutcome::Ongoing
        }
    }
}

/// A shop front. What it sells and says is the caller's presentation;
/// the type records the identity the rules speak of.
#[derive(Debug, PartialEq)]
pub struct Shop {
    pub name: String,
}

} // verus!
