//! The order of danger among the zombies of a turn: nearest to a human
//! first, and among those equally near to one, nearest to the character.

use crate::entities::{zombie_views, Zombie, ZombieView};
use vstd::prelude::*;

verus! {

/// The distance that stands for "near no human": the greatest a distance
/// can be written as.
pub const NO_HUMAN_NEAR: u64 = u64::MAX;

/// The least entry of `list`; of an empty list, the greatest distance there
/// is.
pub open spec fn least(list: Seq<u64>) -> u64
    decreases list.len(),
{
    if list.len() == 0 {
        NO_HUMAN_NEAR
    } else {
        let before = least(list.drop_last());
        if list.last() < before {
            list.last()
        } else {
            before
        }
    }
}

/// The least entry is an entry, and none is below it.
pub proof fn lemma_least(list: Seq<u64>)
    ensures
        forall|i: int| 0 <= i < list.len() ==> least(list) <= list[i],
        list.len() > 0 ==> exists|i: int| 0 <= i < list.len() && list[i] == least(list),
        list.len() == 0 ==> least(list) == NO_HUMAN_NEAR,
    decreases list.len(),
{
    if list.len() > 0 {
        let shorter = list.drop_last();
        lemma_least(shorter);
        assert forall|i: int| 0 <= i < list.len() implies least(list) <= list[i] by {
            if i < shorter.len() {
                assert(shorter[i] == list[i]);
            }
        }
        if list.last() < least(shorter) || shorter.len() == 0 {
            assert(list[list.len() - 1] == least(list));
        } else {
            let i = choose|i: int| 0 <= i < shorter.len() && shorter[i] == least(shorter);
            assert(list[i] == least(list));
        }
    }
}

/// First key of the order: the distance to the nearest human on the
/// zombie's list, or, with no list or an empty one, `NO_HUMAN_NEAR`.
pub open spec fn nearest_human(zombie: ZombieView) -> u64 {
    match zombie.distances_to_humans {
        Some(list) => least(list),
        None => NO_HUMAN_NEAR,
    }
}

/// Second key of the order: the distance to the character. A zombie that
/// has none yet stands below every distance.
pub open spec fn character_key(zombie: ZombieView) -> int {
    match zombie.distance_to_character {
        Some(distance) => distance as int,
        None => -1,
    }
}

/// `first` is the more dangerous of the two: nearer to a human, or as near
/// to one and nearer to the character.
pub open spec fn precedes(first: ZombieView, second: ZombieView) -> bool {
    nearest_human(first) < nearest_human(second) || (nearest_human(first) == nearest_human(second)
        && character_key(first) < character_key(second))
}

/// Both keys of the two zombies agree.
pub open spec fn equally_dangerous(first: ZombieView, second: ZombieView) -> bool {
    nearest_human(first) == nearest_human(second) && character_key(first) == character_key(second)
}

/// How many zombies at the head of `ranking` are more dangerous than
/// `zombie`.
pub open spec fn place_in_ranking(ranking: Seq<ZombieView>, zombie: ZombieView) -> int
    decreases ranking.len(),
{
    if ranking.len() == 0 || !precedes(ranking[0], zombie) {
        0
    } else {
        1 + place_in_ranking(ranking.drop_first(), zombie)
    }
}

/// The zombies in order of danger, most dangerous first. Equally dangerous
/// zombies keep the order they came in: each zombie goes in front of the
/// zombies after it, behind those of them that are more dangerous.
pub open spec fn ranked_by_danger(zombies: Seq<ZombieView>) -> Seq<ZombieView>
    decreases zombies.len(),
{
    if zombies.len() == 0 {
        zombies
    } else {
        let later = ranked_by_danger(zombies.drop_first());
        later.insert(place_in_ranking(later, zombies[0]), zombies[0])
    }
}

/// No zombie of `ranking` stands behind a less dangerous one.
pub open spec fn in_order_of_danger(ranking: Seq<ZombieView>) -> bool {
    forall|i: int, j: int| 0 <= i < j < ranking.len() ==> !precedes(ranking[j], ranking[i])
}

/// The place of a zombie is the one index up to which all are more
/// dangerous than it and at which that ends.
pub proof fn lemma_place_in_ranking(ranking: Seq<ZombieView>, zombie: ZombieView, place: int)
    requires
        0 <= place <= ranking.len(),
        forall|k: int| 0 <= k < place ==> precedes(#[trigger] ranking[k], zombie),
        place < ranking.len() ==> !precedes(ranking[place], zombie),
    ensures
        place_in_ranking(ranking, zombie) == place,
    decreases ranking.len(),
{
    if place > 0 {
        let rest = ranking.drop_first();
        assert(precedes(ranking[0], zombie));
        assert forall|k: int| 0 <= k < place - 1 implies precedes(#[trigger] rest[k], zombie) by {
            assert(rest[k] == ranking[k + 1]);
        }
        if place - 1 < rest.len() {
            assert(rest[place - 1] == ranking[place]);
        }
        lemma_place_in_ranking(rest, zombie, place - 1);
    }
}

/// Where a zombie is placed, all in front of it are more dangerous and the
/// one at that place, if any, is not.
pub proof fn lemma_place_in_ranking_bounds(ranking: Seq<ZombieView>, zombie: ZombieView)
    ensures
        0 <= place_in_ranking(ranking, zombie) <= ranking.len(),
        forall|k: int|
            0 <= k < place_in_ranking(ranking, zombie) ==> precedes(#[trigger] ranking[k], zombie),
        place_in_ranking(ranking, zombie) < ranking.len() ==> !precedes(
            ranking[place_in_ranking(ranking, zombie)],
            zombie,
        ),
    decreases ranking.len(),
{
    if ranking.len() > 0 && precedes(ranking[0], zombie) {
        let rest = ranking.drop_first();
        lemma_place_in_ranking_bounds(rest, zombie);
        let place = place_in_ranking(ranking, zombie);
        assert forall|k: int| 0 <= k < place implies precedes(#[trigger] ranking[k], zombie) by {
            if k > 0 {
                assert(rest[k - 1] == ranking[k]);
            }
        }
        if place < ranking.len() {
            assert(rest[place - 1] == ranking[place]);
        }
    }
}

/// Ranking keeps every zombie, as often as it came, and leaves none behind
/// a less dangerous one.
pub proof fn lemma_ranked_by_danger(zombies: Seq<ZombieView>)
    ensures
        ranked_by_danger(zombies).len() == zombies.len(),
        ranked_by_danger(zombies).to_multiset() == zombies.to_multiset(),
        in_order_of_danger(ranked_by_danger(zombies)),
    decreases zombies.len(),
{
    if zombies.len() == 0 {
    } else {
        let rest = zombies.drop_first();
        let zombie = zombies[0];
        lemma_ranked_by_danger(rest);
        let later = ranked_by_danger(rest);
        let place = place_in_ranking(later, zombie);
        lemma_place_in_ranking_bounds(later, zombie);
        let ranking = later.insert(place, zombie);
        assert(ranking == ranked_by_danger(zombies));
        vstd::seq_lib::to_multiset_insert(later, place, zombie);
        assert(zombies == rest.insert(0, zombie));
        vstd::seq_lib::to_multiset_insert(rest, 0, zombie);
        assert forall|i: int, j: int| 0 <= i < j < ranking.len() implies !precedes(
            ranking[j],
            ranking[i],
        ) by {
            if j < place {
                assert(!precedes(later[j], later[i]));
            } else if j == place {
                assert(precedes(later[i], zombie));
            } else if i < place {
                assert(!precedes(later[j - 1], later[i]));
            } else if i == place {
                assert(!precedes(later[place], zombie));
                if j - 1 > place {
                    assert(!precedes(later[j - 1], later[place]));
                }
            } else {
                assert(!precedes(later[j - 1], later[i - 1]));
            }
        }
    }
}

/// Zombies that stand in order of danger already are ranked as they
/// stand.
pub proof fn lemma_ranking_in_order_stays(zombies: Seq<ZombieView>)
    requires
        in_order_of_danger(zombies),
    ensures
        ranked_by_danger(zombies) == zombies,
    decreases zombies.len(),
{
    if zombies.len() > 0 {
        let rest = zombies.drop_first();
        assert(in_order_of_danger(rest)) by {
            assert forall|i: int, j: int| 0 <= i < j < rest.len() implies !precedes(
                rest[j],
                rest[i],
            ) by {
                assert(!precedes(zombies[j + 1], zombies[i + 1]));
            }
        }
        lemma_ranking_in_order_stays(rest);
        if rest.len() > 0 {
            assert(!precedes(zombies[1], zombies[0]));
            assert(rest[0] == zombies[1]);
        }
        assert(rest.insert(0, zombies[0]) == zombies);
    }
}

/// In the ranking a zombie nearer to a human stands in front of one less
/// near. A zombie with a human on its list nearer than `NO_HUMAN_NEAR`
/// so stands in front of every zombie that has no list.
pub proof fn lemma_nearer_to_human_ranks_first(zombies: Seq<ZombieView>, i: int, j: int)
    requires
        0 <= i < zombies.len(),
        0 <= j < zombies.len(),
        nearest_human(ranked_by_danger(zombies)[i]) < nearest_human(ranked_by_danger(zombies)[j]),
    ensures
        i < j,
{
    lemma_ranked_by_danger(zombies);
    let ranking = ranked_by_danger(zombies);
    if j < i {
        assert(!precedes(ranking[i], ranking[j]));
    }
}

/// The zombies of `zombies` that are as dangerous as `like`, in the order
/// they stand in.
pub open spec fn as_dangerous_as(zombies: Seq<ZombieView>, like: ZombieView) -> Seq<ZombieView>
    decreases zombies.len(),
{
    if zombies.len() == 0 {
        zombies
    } else {
        let rest = as_dangerous_as(zombies.drop_first(), like);
        if equally_dangerous(zombies[0], like) {
            seq![zombies[0]] + rest
        } else {
            rest
        }
    }
}

/// Putting a zombie into a row changes the part of the row that is as
/// dangerous as `like` only if the zombie is so itself; it then leads that
/// part if none of that part stood in front of it.
proof fn lemma_insert_among_as_dangerous(
    row: Seq<ZombieView>,
    place: int,
    zombie: ZombieView,
    like: ZombieView,
)
    requires
        0 <= place <= row.len(),
        equally_dangerous(zombie, like) ==> forall|k: int|
            0 <= k < place ==> !equally_dangerous(#[trigger] row[k], like),
    ensures
        as_dangerous_as(row.insert(place, zombie), like) == if equally_dangerous(zombie, like) {
            seq![zombie] + as_dangerous_as(row, like)
        } else {
            as_dangerous_as(row, like)
        },
    decreases place,
{
    let longer = row.insert(place, zombie);
    if place == 0 {
        assert(longer.drop_first() == row);
        assert(longer[0] == zombie);
    } else {
        let rest = row.drop_first();
        assert(longer.drop_first() == rest.insert(place - 1, zombie));
        assert(longer[0] == row[0]);
        assert forall|k: int| 0 <= k < place - 1 implies #[trigger] rest[k] == row[k + 1] by {}
        if equally_dangerous(zombie, like) {
            assert(!equally_dangerous(row[0], like));
            assert forall|k: int| 0 <= k < place - 1 implies !equally_dangerous(
                #[trigger] rest[k],
                like,
            ) by {
                assert(rest[k] == row[k + 1]);
            }
        }
        lemma_insert_among_as_dangerous(rest, place - 1, zombie, like);
        if !equally_dangerous(zombie, like) && equally_dangerous(row[0], like) {
            assert(as_dangerous_as(longer, like) == seq![row[0]] + as_dangerous_as(rest, like));
        }
    }
}

/// Ranking is stable: zombies that are equally dangerous stand in the
/// ranking in the order they came in.
pub proof fn lemma_ranking_is_stable(zombies: Seq<ZombieView>, like: ZombieView)
    ensures
        as_dangerous_as(ranked_by_danger(zombies), like) == as_dangerous_as(zombies, like),
    decreases zombies.len(),
{
    if zombies.len() > 0 {
        let rest = zombies.drop_first();
        let zombie = zombies[0];
        lemma_ranking_is_stable(rest, like);
        let later = ranked_by_danger(rest);
        let place = place_in_ranking(later, zombie);
        lemma_place_in_ranking_bounds(later, zombie);
        if equally_dangerous(zombie, like) {
            assert forall|k: int| 0 <= k < place implies !equally_dangerous(
                #[trigger] later[k],
                like,
            ) by {
                assert(precedes(later[k], zombie));
            }
        }
        lemma_insert_among_as_dangerous(later, place, zombie, like);
    }
}

impl Zombie {
    /// The distance to the nearest human on the zombie's list, or
    /// `NO_HUMAN_NEAR` where it has none.
    pub fn nearest_human_distance(&self) -> (nearest: u64)
        ensures
            nearest == nearest_human(self@),
    {
        match &self.distances_to_humans {
            None => NO_HUMAN_NEAR,
            Some(list) => {
                let mut nearest: u64 = NO_HUMAN_NEAR;
                let mut seen: usize = 0;
                assert(list@.take(0) == Seq::<u64>::empty());
                while seen < list.len()
                    invariant
                        seen <= list.len(),
                        nearest == least(list@.take(seen as int)),
                    decreases list.len() - seen,
                {
                    proof {
                        let longer = list@.take(seen as int + 1);
                        assert(longer.drop_last() == list@.take(seen as int));
                        assert(longer.last() == list@[seen as int]);
                    }
                    if list[seen] < nearest {
                        nearest = list[seen];
                    }
                    seen += 1;
                }
                assert(list@.take(seen as int) == list@);
                nearest
            },
        }
    }

    /// Whether this zombie is more dangerous than `other`.
    pub fn is_more_dangerous_than(&self, other: &Zombie) -> (more: bool)
        ensures
            more == precedes(self@, other@),
    {
        let mine = self.nearest_human_distance();
        let theirs = other.nearest_human_distance();
        if mine != theirs {
            mine < theirs
        } else {
            match (self.distance_to_character, other.distance_to_character) {
                (Some(a), Some(b)) => a < b,
                (None, Some(_)) => true,
                (_, None) => false,
            }
        }
    }
}

/// Puts the zombies in order of danger, most dangerous first; equally
/// dangerous zombies keep the order they came in.
pub fn sort_by_danger(zombies: Vec<Zombie>) -> (ranking: Vec<Zombie>)
    ensures
        zombie_views(ranking@) == ranked_by_danger(zombie_views(zombies@)),
        ranking@.to_multiset() == zombies@.to_multiset(),
        in_order_of_danger(zombie_views(ranking@)),
{
    let ghost before = zombies@;
    let mut waiting = zombies;
    let mut ranking: Vec<Zombie> = Vec::new();
    assert(before.skip(before.len() as int) == Seq::<Zombie>::empty());
    assert(zombie_views(ranking@) == ranked_by_danger(zombie_views(Seq::<Zombie>::empty())));
    assert(before.take(before.len() as int) == before);
    assert(before == before + ranking@);
    while waiting.len() > 0
        invariant
            waiting@.len() <= before.len(),
            waiting@ == before.take(waiting@.len() as int),
            zombie_views(ranking@) == ranked_by_danger(
                zombie_views(before.skip(waiting@.len() as int)),
            ),
            (waiting@ + ranking@).to_multiset() == before.to_multiset(),
        decreases waiting@.len(),
    {
        let ghost held = waiting@;
        let ghost ranked = ranking@;
        let zombie = waiting.pop().unwrap();
        let ghost left = waiting@.len() as int;
        let mut place: usize = 0;
        while place < ranking.len() && ranking[place].is_more_dangerous_than(&zombie)
            invariant
                place <= ranking.len(),
                forall|k: int|
                    0 <= k < place ==> precedes(#[trigger] zombie_views(ranking@)[k], zombie@),
            decreases ranking.len() - place,
        {
            place += 1;
        }
        ranking.insert(place, zombie);
        proof {
            let tail = zombie_views(before.skip(left + 1));
            let longer = zombie_views(before.skip(left));
            assert(zombie == before[left]);
            assert(longer.drop_first() == tail);
            assert(longer[0] == zombie@);
            assert(zombie_views(ranked) == ranked_by_danger(tail));
            if (place as int) < ranked.len() {
                assert(zombie_views(ranked)[place as int] == ranked[place as int]@);
            }
            lemma_place_in_ranking(zombie_views(ranked), zombie@, place as int);
            assert(zombie_views(ranking@) == zombie_views(ranked).insert(place as int, zombie@));
            assert(waiting@ == before.take(left));
            vstd::seq_lib::to_multiset_insert(ranked, place as int, zombie);
            vstd::seq_lib::lemma_multiset_commutative(held, ranked);
            vstd::seq_lib::lemma_multiset_commutative(waiting@, ranking@);
            assert(held == waiting@.push(zombie));
            vstd::seq_lib::to_multiset_build(waiting@, zombie);
        }
    }
    proof {
        assert(before.skip(0) == before);
        assert(waiting@ + ranking@ == ranking@);
        lemma_ranked_by_danger(zombie_views(before));
    }
    ranking
}

} // verus!
