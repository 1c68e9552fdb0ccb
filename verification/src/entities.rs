//! The pieces on the board, rebuilt from the feed every turn.

use crate::geometry::Position;
use vstd::prelude::*;

verus! {

/// What every piece has: the number the feed knows it by, and where it
/// stands.
#[derive(Clone, Copy, Debug, PartialEq, Eq, Structural)]
pub struct Entity {
    pub id: i32,
    pub position: Position,
}

/// A human to protect. Humans do not move.
#[derive(Clone, Copy, Debug, PartialEq, Eq, Structural)]
pub struct Human {
    pub entity: Entity,
    /// How many zombies are walking straight at this human; zero until the
    /// turn has been assessed.
    pub zombies_facing_human: usize,
}

/// A zombie, with the step it has already committed to for this turn.
#[derive(Clone, Debug, PartialEq, Eq)]
pub struct Zombie {
    pub entity: Entity,
    /// Where the zombie will stand when the next turn begins.
    pub position_next: Position,
    /// Distance to the character; `None` until the zombie has been assessed.
    pub distance_to_character: Option<u64>,
    /// Distances, in ascending order, to the humans that the character can
    /// still reach in time; `None` when there is no such human.
    pub distances_to_humans: Option<Vec<u64>>,
}

/// A zombie as the contracts see it: the distance list is a sequence.
pub struct ZombieView {
    pub entity: Entity,
    pub position_next: Position,
    pub distance_to_character: Option<u64>,
    pub distances_to_humans: Option<Seq<u64>>,
}

impl View for Zombie {
    type V = ZombieView;

    open spec fn view(&self) -> ZombieView {
        ZombieView {
            entity: self.entity,
            position_next: self.position_next,
            distance_to_character: self.distance_to_character,
            distances_to_humans: match self.distances_to_humans {
                Some(list) => Some(list@),
                None => None,
            },
        }
    }
}

/// The views of a row of zombies, in the same order.
pub open spec fn zombie_views(zombies: Seq<Zombie>) -> Seq<ZombieView> {
    Seq::new(zombies.len(), |i: int| zombies[i]@)
}

impl Human {
    /// A human as the feed reports it, not yet assessed.
    pub fn new(id: i32, x: i32, y: i32) -> (human: Human)
        ensures
            human == (Human {
                entity: Entity { id, position: Position(x, y) },
                zombies_facing_human: 0,
            }),
    {
        Human { entity: Entity { id, position: Position(x, y) }, zombies_facing_human: 0 }
    }
}

impl Zombie {
    /// A zombie as the feed reports it, not yet assessed.
    pub fn new(id: i32, x: i32, y: i32, next_x: i32, next_y: i32) -> (zombie: Zombie)
        ensures
            zombie@ == (ZombieView {
                entity: Entity { id, position: Position(x, y) },
                position_next: Position(next_x, next_y),
                distance_to_character: None,
                distances_to_humans: None,
            }),
    {
        Zombie {
            entity: Entity { id, position: Position(x, y) },
            position_next: Position(next_x, next_y),
            distance_to_character: None,
            distances_to_humans: None,
        }
    }
}

} // verus!
