//! The adventurer of the bare-bones text duel.

use vstd::prelude::*;

verus! {

/// A named adventurer with a health pool.
#[derive(Debug, PartialEq)]
pub struct Player {
    pub name: String,
    pub max_health: i32,
    pub current_health: i32,
}

impl Player {
    /// Apply damage; health may drop below zero, which ends the duel.
    pub fn take_damage(&mut self, damage: i32)
        requires
            0 <= damage,
            old(self).current_health - damage >= i32::MIN,
        ensures
            *final(self) == (Player {
                current_health: (old(self).current_health - damage) as i32,
                ..*old(self)
            }),
    {
        self.current_health = self.current_health - damage;
    }
}

} // verus!
