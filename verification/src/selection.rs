//! Target selection: which humans are walked at, and the square the
//! character is sent to.

use crate::entities::{zombie_views, Human, Zombie, ZombieView};
use crate::geometry::Position;
use crate::threat::targets;
use vstd::prelude::*;

verus! {

/// How many of `zombies` walk straight at `point`.
pub open spec fn zombies_facing(zombies: Seq<ZombieView>, point: Position) -> nat
    decreases zombies.len(),
{
    if zombies.len() == 0 {
        0
    } else {
        zombies_facing(zombies.drop_last(), point) + if targets(zombies.last(), point) {
            1nat
        } else {
            0nat
        }
    }
}

/// There are no more zombies facing a point than there are zombies, and
/// there is one exactly when some zombie's step heads at the point.
pub proof fn lemma_zombies_facing(zombies: Seq<ZombieView>, point: Position)
    ensures
        zombies_facing(zombies, point) <= zombies.len(),
        zombies_facing(zombies, point) > 0 <==> exists|i: int|
            0 <= i < zombies.len() && targets(#[trigger] zombies[i], point),
    decreases zombies.len(),
{
    if zombies.len() > 0 {
        let shorter = zombies.drop_last();
        lemma_zombies_facing(shorter, point);
        if targets(zombies.last(), point) {
            assert(targets(zombies[zombies.len() - 1], point));
        } else if zombies_facing(shorter, point) > 0 {
            let i = choose|i: int| 0 <= i < shorter.len() && targets(#[trigger] shorter[i], point);
            assert(targets(zombies[i], point));
        } else {
            assert forall|i: int| 0 <= i < zombies.len() implies !targets(
                #[trigger] zombies[i],
                point,
            ) by {
                if i < shorter.len() {
                    assert(shorter[i] == zombies[i]);
                }
            }
        }
    }
}

/// The human with the count of the zombies that walk straight at it.
pub open spec fn counted(human: Human, zombies: Seq<ZombieView>) -> Human {
    Human {
        entity: human.entity,
        zombies_facing_human: zombies_facing(zombies, human.entity.position) as usize,
    }
}

/// Every human with its count, in the humans' order.
pub open spec fn counted_all(humans: Seq<Human>, zombies: Seq<ZombieView>) -> Seq<Human> {
    Seq::new(humans.len(), |i: int| counted(humans[i], zombies))
}

/// The first zombie of `ranking` whose step heads at `point`.
pub open spec fn first_targeting(ranking: Seq<ZombieView>, point: Position) -> Option<ZombieView>
    decreases ranking.len(),
{
    if ranking.len() == 0 {
        None
    } else if targets(ranking[0], point) {
        Some(ranking[0])
    } else {
        first_targeting(ranking.drop_first(), point)
    }
}

/// The last of `humans` that has a zombie walking at it.
pub open spec fn last_threatened(humans: Seq<Human>) -> Option<Human>
    decreases humans.len(),
{
    if humans.len() == 0 {
        None
    } else if humans.last().zombies_facing_human > 0 {
        Some(humans.last())
    } else {
        last_threatened(humans.drop_last())
    }
}

/// The target of the turn, given the humans with their counts and the
/// zombies in order of danger: the last human in the list that a zombie
/// walks at; else the most dangerous zombie that walks at the character,
/// where it stands now. There is no target where no zombie walks at a human
/// or at the character.
pub open spec fn target(character: Position, humans: Seq<Human>, ranking: Seq<ZombieView>)
    -> Option<Position> {
    match last_threatened(humans) {
        Some(human) => Some(human.entity.position),
        None => match first_targeting(ranking, character) {
            Some(zombie) => Some(zombie.entity.position),
            None => None,
        },
    }
}

/// Where the character is sent once the target is known: to the target;
/// without a target to the most dangerous zombie; and with no zombie left,
/// nowhere: the character stays where it stands.
pub open spec fn destination_for(
    found: Option<Position>,
    character: Position,
    ranking: Seq<ZombieView>,
) -> Position {
    match found {
        Some(position) => position,
        None => if ranking.len() > 0 {
            ranking[0].entity.position
        } else {
            character
        },
    }
}

/// Where the character is sent, given the humans with their counts and the
/// zombies in order of danger.
pub open spec fn destination(character: Position, humans: Seq<Human>, ranking: Seq<ZombieView>)
    -> Position {
    destination_for(target(character, humans, ranking), character, ranking)
}

/// What `first_targeting` finds is the zombie at the least index whose step
/// heads at the point; it finds none only where there is none.
pub proof fn lemma_first_targeting(ranking: Seq<ZombieView>, point: Position)
    ensures
        match first_targeting(ranking, point) {
            Some(zombie) => exists|i: int|
                0 <= i < ranking.len() && #[trigger] ranking[i] == zombie && targets(zombie, point)
                    && forall|k: int| 0 <= k < i ==> !targets(#[trigger] ranking[k], point),
            None => forall|k: int| 0 <= k < ranking.len() ==> !targets(#[trigger] ranking[k], point),
        },
    decreases ranking.len(),
{
    if ranking.len() == 0 {
    } else if targets(ranking[0], point) {
        assert(ranking[0] == ranking[0]);
    } else {
        let rest = ranking.drop_first();
        lemma_first_targeting(rest, point);
        match first_targeting(rest, point) {
            Some(zombie) => {
                let i = choose|i: int|
                    0 <= i < rest.len() && #[trigger] rest[i] == zombie && targets(zombie, point)
                        && forall|k: int| 0 <= k < i ==> !targets(#[trigger] rest[k], point);
                assert(ranking[i + 1] == zombie);
                assert forall|k: int| 0 <= k < i + 1 implies !targets(
                    #[trigger] ranking[k],
                    point,
                ) by {
                    if k > 0 {
                        assert(rest[k - 1] == ranking[k]);
                    }
                }
            },
            None => {
                assert forall|k: int| 0 <= k < ranking.len() implies !targets(
                    #[trigger] ranking[k],
                    point,
                ) by {
                    if k > 0 {
                        assert(rest[k - 1] == ranking[k]);
                    }
                }
            },
        }
    }
}

/// What `last_threatened` finds is the human at the greatest index that a
/// zombie walks at; it finds none only where there is none.
pub proof fn lemma_last_threatened(humans: Seq<Human>)
    ensures
        match last_threatened(humans) {
            Some(human) => exists|i: int|
                0 <= i < humans.len() && #[trigger] humans[i] == human && human.zombies_facing_human
                    > 0 && forall|k: int|
                    i < k < humans.len() ==> (#[trigger] humans[k]).zombies_facing_human == 0,
            None => forall|k: int|
                0 <= k < humans.len() ==> (#[trigger] humans[k]).zombies_facing_human == 0,
        },
    decreases humans.len(),
{
    if humans.len() == 0 {
    } else if humans.last().zombies_facing_human > 0 {
        assert(humans[humans.len() - 1] == humans.last());
    } else {
        let shorter = humans.drop_last();
        lemma_last_threatened(shorter);
        match last_threatened(shorter) {
            Some(human) => {
                let i = choose|i: int|
                    0 <= i < shorter.len() && #[trigger] shorter[i] == human
                        && human.zombies_facing_human > 0 && forall|k: int|
                        i < k < shorter.len() ==> (#[trigger] shorter[k]).zombies_facing_human == 0;
                assert(humans[i] == human);
                assert forall|k: int| i < k < humans.len() implies (
                #[trigger] humans[k]).zombies_facing_human == 0 by {
                    if k < shorter.len() {
                        assert(shorter[k] == humans[k]);
                    }
                }
            },
            None => {
                assert forall|k: int| 0 <= k < humans.len() implies (
                #[trigger] humans[k]).zombies_facing_human == 0 by {
                    if k < shorter.len() {
                        assert(shorter[k] == humans[k]);
                    }
                }
            },
        }
    }
}

/// Counts the zombies whose step heads straight at `point`.
pub fn count_zombies_facing(zombies: &Vec<Zombie>, point: Position) -> (count: usize)
    ensures
        count == zombies_facing(zombie_views(zombies@), point),
{
    let mut count: usize = 0;
    let mut seen: usize = 0;
    assert(zombie_views(zombies@.take(0)) == Seq::<ZombieView>::empty());
    while seen < zombies.len()
        invariant
            seen <= zombies.len(),
            count <= seen,
            count == zombies_facing(zombie_views(zombies@.take(seen as int)), point),
        decreases zombies.len() - seen,
    {
        proof {
            let longer = zombie_views(zombies@.take(seen as int + 1));
            assert(longer.drop_last() == zombie_views(zombies@.take(seen as int)));
            assert(longer.last() == zombies@[seen as int]@);
        }
        if zombies[seen].is_zombie_targetting_character(point) {
            count += 1;
        }
        seen += 1;
    }
    assert(zombies@.take(seen as int) == zombies@);
    count
}

/// Gives every human the count of the zombies that walk straight at it.
pub fn assess_humans(humans: &Vec<Human>, zombies: &Vec<Zombie>) -> (assessed_humans: Vec<Human>)
    ensures
        assessed_humans@ == counted_all(humans@, zombie_views(zombies@)),
{
    let mut assessed_humans: Vec<Human> = Vec::new();
    let mut seen: usize = 0;
    while seen < humans.len()
        invariant
            seen <= humans.len(),
            assessed_humans@ == counted_all(humans@, zombie_views(zombies@)).take(seen as int),
        decreases humans.len() - seen,
    {
        let human = humans[seen];
        let count = count_zombies_facing(zombies, human.entity.position);
        proof {
            lemma_zombies_facing(zombie_views(zombies@), human.entity.position);
            let all = counted_all(humans@, zombie_views(zombies@));
            assert(all.take(seen as int + 1) == all.take(seen as int).push(all[seen as int]));
        }
        assessed_humans.push(Human { entity: human.entity, zombies_facing_human: count });
        seen += 1;
    }
    assert(counted_all(humans@, zombie_views(zombies@)).take(seen as int) == counted_all(
        humans@,
        zombie_views(zombies@),
    ));
    assessed_humans
}

/// Finds the target of the turn, from the humans with their counts and the
/// zombies in order of danger.
pub fn select_target(character_position: Position, humans: &Vec<Human>, ranking: &Vec<Zombie>) -> (found:
    Option<Position>)
    ensures
        found == target(character_position, humans@, zombie_views(ranking@)),
{
    let mut threatened: Option<Position> = None;
    let mut seen: usize = 0;
    assert(humans@.take(0) == Seq::<Human>::empty());
    while seen < humans.len()
        invariant
            seen <= humans.len(),
            threatened == match last_threatened(humans@.take(seen as int)) {
                Some(human) => Some(human.entity.position),
                None => None,
            },
        decreases humans.len() - seen,
    {
        proof {
            let longer = humans@.take(seen as int + 1);
            assert(longer.drop_last() == humans@.take(seen as int));
            assert(longer.last() == humans@[seen as int]);
        }
        if humans[seen].zombies_facing_human > 0 {
            threatened = Some(humans[seen].entity.position);
        }
        seen += 1;
    }
    assert(humans@.take(seen as int) == humans@);
    if threatened.is_some() {
        return threatened;
    }
    let ghost views = zombie_views(ranking@);
    let mut passed: usize = 0;
    assert(views.skip(0) == views);
    while passed < ranking.len()
        invariant
            passed <= ranking.len(),
            views == zombie_views(ranking@),
            last_threatened(humans@) is None,
            first_targeting(views, character_position) == first_targeting(
                views.skip(passed as int),
                character_position,
            ),
        decreases ranking.len() - passed,
    {
        proof {
            let rest = views.skip(passed as int);
            assert(rest.drop_first() == views.skip(passed as int + 1));
            assert(rest[0] == ranking@[passed as int]@);
        }
        if ranking[passed].is_zombie_targetting_character(character_position) {
            return Some(ranking[passed].entity.position);
        }
        passed += 1;
    }
    None
}

/// Chooses where the character goes, from the target of the turn and the
/// zombies in order of danger.
pub fn select_destination(character_position: Position, found: Option<Position>, ranking: &Vec<Zombie>) -> (chosen:
    Position)
    ensures
        chosen == destination_for(found, character_position, zombie_views(ranking@)),
{
    match found {
        Some(position) => position,
        None => if ranking.len() > 0 {
            assert(zombie_views(ranking@)[0] == ranking@[0]@);
            ranking[0].entity.position
        } else {
            character_position
        },
    }
}

} // verus!
