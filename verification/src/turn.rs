//! One turn of the game: from the snapshot that the feed gives to the
//! square the character is sent to.

use crate::entities::{zombie_views, Human, Zombie, ZombieView};
use crate::geometry::Position;
use crate::ranking::{
    lemma_ranked_by_danger, lemma_ranking_in_order_stays, ranked_by_danger, sort_by_danger,
};
use crate::selection::{
    assess_humans, counted_all, destination, lemma_last_threatened, select_destination,
    select_target, target, zombies_facing,
};
use crate::threat::{assess_zombies, assessed, lemma_assessed_again, same_humans};
use vstd::prelude::*;

verus! {

/// What a turn comes to.
#[derive(Clone, Debug, PartialEq, Eq)]
pub struct Plan {
    /// The humans, each with the count of the zombies that walk at it.
    pub humans: Vec<Human>,
    /// The zombies, assessed and in order of danger.
    pub zombies: Vec<Zombie>,
    /// The human or the zombie that the character goes for, where there
    /// is one.
    pub target: Option<Position>,
    /// The square the character is sent to.
    pub destination: Position,
}

/// Every zombie of the turn assessed, in the zombies' order.
pub open spec fn assessed_all(zombies: Seq<ZombieView>, humans: Seq<Human>, character: Position)
    -> Seq<ZombieView> {
    Seq::new(zombies.len(), |i: int| assessed(zombies[i], humans, character))
}

/// The zombies of the turn, assessed and in order of danger.
pub open spec fn turn_ranking(character: Position, humans: Seq<Human>, zombies: Seq<ZombieView>)
    -> Seq<ZombieView> {
    ranked_by_danger(assessed_all(zombies, humans, character))
}

/// The humans of the turn, each with the count of the zombies that walk
/// at it.
pub open spec fn turn_humans(character: Position, humans: Seq<Human>, zombies: Seq<ZombieView>)
    -> Seq<Human> {
    counted_all(humans, turn_ranking(character, humans, zombies))
}

/// The target of the turn, where there is one.
pub open spec fn turn_target(character: Position, humans: Seq<Human>, zombies: Seq<ZombieView>)
    -> Option<Position> {
    target(
        character,
        turn_humans(character, humans, zombies),
        turn_ranking(character, humans, zombies),
    )
}

/// The square the character is sent to this turn.
pub open spec fn turn_destination(
    character: Position,
    humans: Seq<Human>,
    zombies: Seq<ZombieView>,
) -> Position {
    destination(
        character,
        turn_humans(character, humans, zombies),
        turn_ranking(character, humans, zombies),
    )
}

/// Plays one turn: assesses every zombie, ranks the zombies by danger,
/// counts for every human the zombies that walk at it, and chooses the
/// square to send the character to. The plan depends on nothing but the
/// snapshot.
pub fn plan_turn(character_position: Position, humans: &Vec<Human>, zombies: Vec<Zombie>) -> (plan:
    Plan)
    ensures
        zombie_views(plan.zombies@) == turn_ranking(
            character_position,
            humans@,
            zombie_views(zombies@),
        ),
        plan.humans@ == turn_humans(character_position, humans@, zombie_views(zombies@)),
        plan.target == turn_target(character_position, humans@, zombie_views(zombies@)),
        plan.destination == turn_destination(character_position, humans@, zombie_views(zombies@)),
{
    let assessed_zombies = assess_zombies(zombies, humans, character_position);
    assert(zombie_views(assessed_zombies@) == assessed_all(
        zombie_views(zombies@),
        humans@,
        character_position,
    ));
    let ranking = sort_by_danger(assessed_zombies);
    let assessed_humans = assess_humans(humans, &ranking);
    let target = select_target(character_position, &assessed_humans, &ranking);
    let destination = select_destination(character_position, target, &ranking);
    Plan { humans: assessed_humans, zombies: ranking, target, destination }
}

/// With no zombie on the board the character stays where it stands.
pub proof fn lemma_no_zombies_no_move(character: Position, humans: Seq<Human>)
    ensures
        turn_destination(character, humans, Seq::<ZombieView>::empty()) == character,
        turn_target(character, humans, Seq::<ZombieView>::empty()) is None,
        turn_ranking(character, humans, Seq::<ZombieView>::empty()).len() == 0,
{
    let none = Seq::<ZombieView>::empty();
    assert(assessed_all(none, humans, character) == none);
    let counted = turn_humans(character, humans, none);
    lemma_last_threatened(counted);
    assert forall|k: int| 0 <= k < counted.len() implies (
    #[trigger] counted[k]).zombies_facing_human == 0 by {
        assert(zombies_facing(none, humans[k].entity.position) == 0);
    }
}

/// Two snapshots that show the same board lead to the same plan, whatever
/// else differs between them: the ranking, the counts and the destination
/// are read off the views alone.
pub proof fn lemma_same_snapshot_same_plan(
    character: Position,
    humans: Seq<Human>,
    zombies: Seq<Zombie>,
    again: Seq<Zombie>,
)
    requires
        zombie_views(zombies) == zombie_views(again),
    ensures
        turn_ranking(character, humans, zombie_views(zombies)) == turn_ranking(
            character,
            humans,
            zombie_views(again),
        ),
        turn_humans(character, humans, zombie_views(zombies)) == turn_humans(
            character,
            humans,
            zombie_views(again),
        ),
        turn_target(character, humans, zombie_views(zombies)) == turn_target(
            character,
            humans,
            zombie_views(again),
        ),
        turn_destination(character, humans, zombie_views(zombies)) == turn_destination(
            character,
            humans,
            zombie_views(again),
        ),
{
}

/// Playing the turn again on what the turn came to changes nothing: the
/// assessed zombies keep their order, the humans their counts, and the
/// character its destination.
pub proof fn lemma_turn_replayed(character: Position, humans: Seq<Human>, zombies: Seq<ZombieView>)
    ensures
        turn_ranking(
            character,
            turn_humans(character, humans, zombies),
            turn_ranking(character, humans, zombies),
        ) == turn_ranking(character, humans, zombies),
        turn_humans(
            character,
            turn_humans(character, humans, zombies),
            turn_ranking(character, humans, zombies),
        ) == turn_humans(character, humans, zombies),
        turn_target(
            character,
            turn_humans(character, humans, zombies),
            turn_ranking(character, humans, zombies),
        ) == turn_target(character, humans, zombies),
        turn_destination(
            character,
            turn_humans(character, humans, zombies),
            turn_ranking(character, humans, zombies),
        ) == turn_destination(character, humans, zombies),
{
    broadcast use vstd::seq_lib::to_multiset_contains;

    let first = assessed_all(zombies, humans, character);
    let ranking = turn_ranking(character, humans, zombies);
    let counted = turn_humans(character, humans, zombies);
    lemma_ranked_by_danger(first);
    assert(same_humans(humans, counted));
    let second = assessed_all(ranking, counted, character);
    assert(second == ranking) by {
        assert forall|i: int| 0 <= i < ranking.len() implies second[i] == ranking[i] by {
            assert(ranking.contains(ranking[i]));
            assert(first.to_multiset().count(ranking[i]) > 0);
            assert(first.contains(ranking[i]));
            let j = choose|j: int| 0 <= j < first.len() && first[j] == ranking[i];
            lemma_assessed_again(zombies[j], humans, counted, character);
        }
    }
    lemma_ranking_in_order_stays(ranking);
    assert(counted_all(counted, ranking) == counted);
}

} // verus!
