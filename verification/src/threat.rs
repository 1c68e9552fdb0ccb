//! Threat evaluation: how dangerous a zombie is to the character and to the
//! humans, and whether its step heads straight at a given point.

use crate::entities::{Human, Zombie, ZombieView};
use crate::geometry::{
    distance, is_on_course, lemma_radial_distance_bounded, on_course, radial_distance, Position,
    MAX_DISTANCE,
};
use vstd::prelude::*;
use vstd::relations::{sorted_by, total_ordering};
use vstd::seq_lib::{lemma_sorted_unique, to_multiset_build, to_multiset_insert};

verus! {

/// How far the character walks in one turn.
pub const CHARACTER_MOVE_SPEED: u64 = 1000;

/// How far from itself the character kills.
pub const CHARACTER_KILL_RANGE: u64 = 2000;

/// How far a zombie walks in one turn.
pub const ZOMBIE_MOVE_SPEED: u64 = 400;

/// How far from itself a zombie kills.
pub const ZOMBIE_KILL_RANGE: u64 = 400;

/// The ground the character closes in one turn: a step, then the shot.
pub const CHARACTER_REACH: u64 = CHARACTER_KILL_RANGE + CHARACTER_MOVE_SPEED;

/// The ground a zombie closes in one turn: a step, then the bite.
pub const ZOMBIE_REACH: u64 = ZOMBIE_KILL_RANGE + ZOMBIE_MOVE_SPEED;

/// A human at `human_distance` from a zombie counts for that zombie's danger
/// when that distance, measured in zombie reaches, is greater than
/// `character_distance`, measured in character reaches:
/// `human_distance / ZOMBIE_REACH > character_distance / CHARACTER_REACH`
/// as exact fractions, written here without the division.
pub open spec fn qualifies(human_distance: int, character_distance: int) -> bool {
    human_distance * (CHARACTER_REACH as int) > character_distance * (ZOMBIE_REACH as int)
}

/// The order of distances: smaller first.
pub open spec fn at_most() -> spec_fn(u64, u64) -> bool {
    |a: u64, b: u64| a <= b
}

/// No entry of `list` is followed by a smaller one.
pub open spec fn ascending(list: Seq<u64>) -> bool {
    forall|i: int, j: int| 0 <= i < j < list.len() ==> list[i] <= list[j]
}

/// The entries of `list`, smallest first.
pub open spec fn sorted_ascending(list: Seq<u64>) -> Seq<u64> {
    list.sort_by(at_most())
}

/// Sorting keeps every entry, as often as it occurred, and puts them in
/// ascending order.
pub proof fn lemma_sorted_ascending(list: Seq<u64>)
    ensures
        ascending(sorted_ascending(list)),
        sorted_ascending(list).to_multiset() == list.to_multiset(),
        sorted_ascending(list).len() == list.len(),
{
    assert(total_ordering(at_most()));
    list.lemma_sort_by_ensures(at_most());
    let sorted = sorted_ascending(list);
    assert(sorted_by(sorted, at_most()));
    assert forall|i: int, j: int| 0 <= i < j < sorted.len() implies sorted[i] <= sorted[j] by {
        assert(at_most()(sorted[i], sorted[j]));
    }
    vstd::seq_lib::to_multiset_len(list);
    vstd::seq_lib::to_multiset_len(sorted);
}

/// There is one way only to put given entries in ascending order.
pub proof fn lemma_ascending_unique(list: Seq<u64>, arranged: Seq<u64>)
    requires
        ascending(arranged),
        arranged.to_multiset() == list.to_multiset(),
    ensures
        arranged == sorted_ascending(list),
{
    lemma_sorted_ascending(list);
    let sorted = sorted_ascending(list);
    assert(total_ordering(at_most()));
    assert(sorted_by(arranged, at_most()));
    assert(sorted_by(sorted, at_most())) by {
        assert forall|i: int, j: int| 0 <= i < j < sorted.len() implies #[trigger] at_most()(
            sorted[i],
            sorted[j],
        ) by {}
    }
    lemma_sorted_unique(arranged, sorted, at_most());
}

/// Puts the entries of `list` in ascending order.
pub fn sort_ascending(list: Vec<u64>) -> (sorted: Vec<u64>)
    ensures
        sorted@ == sorted_ascending(list@),
        ascending(sorted@),
        sorted@.to_multiset() == list@.to_multiset(),
{
    let mut sorted: Vec<u64> = Vec::new();
    let mut taken: usize = 0;
    assert(list@.take(0) == sorted@);
    while taken < list.len()
        invariant
            taken <= list.len(),
            ascending(sorted@),
            sorted@.to_multiset() == list@.take(taken as int).to_multiset(),
        decreases list.len() - taken,
    {
        let entry: u64 = list[taken];
        let mut place: usize = 0;
        while place < sorted.len() && sorted[place] <= entry
            invariant
                place <= sorted.len(),
                forall|k: int| 0 <= k < place ==> sorted[k] <= entry,
            decreases sorted.len() - place,
        {
            place += 1;
        }
        proof {
            let before = sorted@;
            let after = before.insert(place as int, entry);
            to_multiset_insert(before, place as int, entry);
            to_multiset_build(list@.take(taken as int), entry);
            assert(list@.take(taken as int + 1) == list@.take(taken as int).push(entry));
            assert(ascending(after)) by {
                assert forall|i: int, j: int| 0 <= i < j < after.len() implies after[i]
                    <= after[j] by {
                    if j < place {
                    } else if i < place && j == place {
                    } else if i < place {
                        assert(after[j] == before[j - 1]);
                        assert(entry < before[place as int]);
                    } else if i == place {
                        assert(after[j] == before[j - 1]);
                    } else {
                        assert(after[i] == before[i - 1]);
                        assert(after[j] == before[j - 1]);
                    }
                }
            }
        }
        sorted.insert(place, entry);
        taken += 1;
    }
    proof {
        assert(list@.take(taken as int) == list@);
        lemma_ascending_unique(list@, sorted@);
    }
    sorted
}

/// The distances from `next`, where a zombie will stand, to those of
/// `humans` that qualify against `character_distance`, in the humans' order.
pub open spec fn qualifying_distances(
    next: Position,
    humans: Seq<Human>,
    character_distance: u64,
) -> Seq<u64>
    decreases humans.len(),
{
    if humans.len() == 0 {
        Seq::empty()
    } else {
        let earlier = qualifying_distances(next, humans.drop_last(), character_distance);
        let reach = radial_distance(humans.last().entity.position, next);
        if qualifies(reach, character_distance as int) {
            earlier.push(reach as u64)
        } else {
            earlier
        }
    }
}

/// The zombie after its assessment against `humans` and the character at
/// `character`: who it is and where it walks are kept; its distance to the
/// character is measured from where it stands; its distances to the humans
/// are measured from where it will stand, kept where they qualify, and put
/// in ascending order. With no qualifying human the zombie has no list.
pub open spec fn assessed(zombie: ZombieView, humans: Seq<Human>, character: Position)
    -> ZombieView {
    let danger = radial_distance(character, zombie.entity.position) as u64;
    let reaches = qualifying_distances(zombie.position_next, humans, danger);
    ZombieView {
        entity: zombie.entity,
        position_next: zombie.position_next,
        distance_to_character: Some(danger),
        distances_to_humans: if reaches.len() == 0 {
            None
        } else {
            Some(sorted_ascending(reaches))
        },
    }
}

/// The zombie's step heads straight at `point`.
pub open spec fn targets(zombie: ZombieView, point: Position) -> bool {
    on_course(zombie.entity.position, zombie.position_next, point)
}

/// An assessed zombie has no list exactly when no human qualifies; the list
/// it has is in ascending order and holds the qualifying distances, each as
/// often as a human stands at it.
pub proof fn lemma_assessed_list(zombie: ZombieView, humans: Seq<Human>, character: Position)
    ensures
        match assessed(zombie, humans, character).distances_to_humans {
            Some(list) => list.len() > 0 && ascending(list) && list.to_multiset()
                == qualifying_distances(
                zombie.position_next,
                humans,
                radial_distance(character, zombie.entity.position) as u64,
            ).to_multiset(),
            None => qualifying_distances(
                zombie.position_next,
                humans,
                radial_distance(character, zombie.entity.position) as u64,
            ).len() == 0,
        },
{
    let danger = radial_distance(character, zombie.entity.position) as u64;
    lemma_sorted_ascending(qualifying_distances(zombie.position_next, humans, danger));
}

/// Every qualifying distance is the distance of a human that qualifies, and
/// the distance of every human that qualifies is among them.
pub proof fn lemma_qualifying_distances(
    next: Position,
    humans: Seq<Human>,
    character_distance: u64,
)
    ensures
        forall|k: int|
            0 <= k < qualifying_distances(next, humans, character_distance).len() ==> qualifies(
                #[trigger] qualifying_distances(next, humans, character_distance)[k] as int,
                character_distance as int,
            ),
        forall|i: int|
            0 <= i < humans.len() && qualifies(
                radial_distance((#[trigger] humans[i]).entity.position, next),
                character_distance as int,
            ) ==> qualifying_distances(next, humans, character_distance).contains(
                radial_distance(humans[i].entity.position, next) as u64,
            ),
    decreases humans.len(),
{
    if humans.len() > 0 {
        let shorter = humans.drop_last();
        lemma_qualifying_distances(next, shorter, character_distance);
        let earlier = qualifying_distances(next, shorter, character_distance);
        let list = qualifying_distances(next, humans, character_distance);
        let reach = radial_distance(humans.last().entity.position, next);
        lemma_radial_distance_bounded(humans.last().entity.position, next);
        assert forall|k: int| 0 <= k < list.len() implies qualifies(
            #[trigger] list[k] as int,
            character_distance as int,
        ) by {
            if k < earlier.len() {
                assert(list[k] == earlier[k]);
            }
        }
        assert forall|i: int|
            0 <= i < humans.len() && qualifies(
                radial_distance((#[trigger] humans[i]).entity.position, next),
                character_distance as int,
            ) implies list.contains(radial_distance(humans[i].entity.position, next) as u64) by {
            if i < shorter.len() {
                assert(shorter[i] == humans[i]);
                let wanted = radial_distance(humans[i].entity.position, next) as u64;
                assert(earlier.contains(wanted));
                let k = choose|k: int| 0 <= k < earlier.len() && earlier[k] == wanted;
                assert(list[k] == wanted);
            } else {
                assert(list[list.len() - 1] == reach as u64);
            }
        }
    }
}

/// The two rows hold the same humans on the same squares; the counts may
/// differ.
pub open spec fn same_humans(first: Seq<Human>, second: Seq<Human>) -> bool {
    first.len() == second.len() && forall|i: int|
        0 <= i < first.len() ==> (#[trigger] first[i]).entity == second[i].entity
}

/// An assessment reads of the humans only where they stand, and of the
/// zombie only who it is and where it walks: an assessed zombie, assessed
/// again against the same humans and the same character, comes out as it
/// went in.
pub proof fn lemma_assessed_again(
    zombie: ZombieView,
    humans: Seq<Human>,
    later_humans: Seq<Human>,
    character: Position,
)
    requires
        same_humans(humans, later_humans),
    ensures
        assessed(assessed(zombie, humans, character), later_humans, character) == assessed(
            zombie,
            humans,
            character,
        ),
{
    let danger = radial_distance(character, zombie.entity.position) as u64;
    lemma_same_humans_same_distances(zombie.position_next, humans, later_humans, danger);
}

/// The qualifying distances depend on the humans' squares alone.
proof fn lemma_same_humans_same_distances(
    next: Position,
    first: Seq<Human>,
    second: Seq<Human>,
    character_distance: u64,
)
    requires
        same_humans(first, second),
    ensures
        qualifying_distances(next, first, character_distance) == qualifying_distances(
            next,
            second,
            character_distance,
        ),
    decreases first.len(),
{
    if first.len() > 0 {
        assert(first.last().entity == second.last().entity) by {
            assert(first[first.len() - 1].entity == second[first.len() - 1].entity);
        }
        assert(same_humans(first.drop_last(), second.drop_last())) by {
            assert forall|i: int| 0 <= i < first.drop_last().len() implies (
            #[trigger] first.drop_last()[i]).entity == second.drop_last()[i].entity by {
                assert(first[i].entity == second[i].entity);
            }
        }
        lemma_same_humans_same_distances(
            next,
            first.drop_last(),
            second.drop_last(),
            character_distance,
        );
    }
}

impl Zombie {
    /// Assesses the zombie against the humans and the character.
    pub fn calculate_danger_level(self, humans: &Vec<Human>, character_position: Position) -> (zombie:
        Zombie)
        ensures
            zombie@ == assessed(self@, humans@, character_position),
    {
        let danger = distance(character_position, self.entity.position);
        let mut reaches: Vec<u64> = Vec::new();
        let mut seen: usize = 0;
        assert(humans@.take(0) == Seq::<Human>::empty());
        while seen < humans.len()
            invariant
                seen <= humans.len(),
                danger <= MAX_DISTANCE,
                reaches@ == qualifying_distances(
                    self.position_next,
                    humans@.take(seen as int),
                    danger,
                ),
            decreases humans.len() - seen,
        {
            let reach = distance(humans[seen].entity.position, self.position_next);
            proof {
                let longer = humans@.take(seen as int + 1);
                assert(longer.drop_last() == humans@.take(seen as int));
                assert(longer.last() == humans@[seen as int]);
            }
            if reach * CHARACTER_REACH > danger * ZOMBIE_REACH {
                reaches.push(reach);
            }
            seen += 1;
        }
        assert(humans@.take(seen as int) == humans@);
        let distances_to_humans = if reaches.len() == 0 {
            None
        } else {
            Some(sort_ascending(reaches))
        };
        Zombie {
            entity: self.entity,
            position_next: self.position_next,
            distance_to_character: Some(danger),
            distances_to_humans,
        }
    }

    /// Whether the zombie's step heads straight at `character_position`:
    /// where it will stand lies on the straight way from where it stands to
    /// that point.
    pub fn is_zombie_targetting_character(&self, character_position: Position) -> (targetting: bool)
        ensures
            targetting == targets(self@, character_position),
    {
        is_on_course(self.entity.position, self.position_next, character_position)
    }
}

/// Assesses every zombie of the turn, keeping their order.
pub fn assess_zombies(zombies: Vec<Zombie>, humans: &Vec<Human>, character_position: Position) -> (assessed_zombies:
    Vec<Zombie>)
    ensures
        assessed_zombies@.len() == zombies@.len(),
        forall|i: int|
            0 <= i < zombies@.len() ==> (#[trigger] assessed_zombies@[i])@ == assessed(
                zombies@[i]@,
                humans@,
                character_position,
            ),
{
    let ghost before = zombies@;
    let mut waiting = zombies;
    let mut backwards: Vec<Zombie> = Vec::new();
    while waiting.len() > 0
        invariant
            waiting@ == before.take(waiting@.len() as int),
            waiting@.len() + backwards@.len() == before.len(),
            forall|i: int|
                0 <= i < backwards@.len() ==> (#[trigger] backwards@[i])@ == assessed(
                    before[before.len() - 1 - i]@,
                    humans@,
                    character_position,
                ),
        decreases waiting@.len(),
    {
        let zombie = waiting.pop().unwrap();
        assert(waiting@ == before.take(waiting@.len() as int));
        backwards.push(zombie.calculate_danger_level(humans, character_position));
    }
    let mut forwards: Vec<Zombie> = Vec::new();
    while backwards.len() > 0
        invariant
            forwards@.len() + backwards@.len() == before.len(),
            forall|i: int|
                0 <= i < backwards@.len() ==> (#[trigger] backwards@[i])@ == assessed(
                    before[before.len() - 1 - i]@,
                    humans@,
                    character_position,
                ),
            forall|i: int|
                0 <= i < forwards@.len() ==> (#[trigger] forwards@[i])@ == assessed(
                    before[i]@,
                    humans@,
                    character_position,
                ),
        decreases backwards@.len(),
    {
        let zombie = backwards.pop().unwrap();
        forwards.push(zombie);
    }
    forwards
}

} // verus!
