use code_vs_zombies::ranking::NO_HUMAN_NEAR;
use code_vs_zombies::{sort_by_danger, Entity, Position, Zombie};

fn zombie(id: i32, to_character: Option<u64>, to_humans: Option<Vec<u64>>) -> Zombie {
    Zombie {
        entity: Entity { id, position: Position(id, id) },
        position_next: Position(id, id),
        distance_to_character: to_character,
        distances_to_humans: to_humans,
    }
}

fn ids(zombies: &Vec<Zombie>) -> Vec<i32> {
    let mut ids = Vec::new();
    for zombie in zombies.iter() {
        ids.push(zombie.entity.id);
    }
    ids
}

#[test]
fn sentinel_is_the_greatest_distance() {
    assert_eq!(NO_HUMAN_NEAR, u64::MAX);
}

#[test]
fn nearest_human_is_the_least_entry() {
    assert_eq!(zombie(1, None, None).nearest_human_distance(), u64::MAX);
    assert_eq!(zombie(1, None, Some(vec![])).nearest_human_distance(), u64::MAX);
    assert_eq!(zombie(1, None, Some(vec![100])).nearest_human_distance(), 100);
    assert_eq!(zombie(1, None, Some(vec![100, 200, 300])).nearest_human_distance(), 100);
    assert_eq!(zombie(1, None, Some(vec![500, 100, 300])).nearest_human_distance(), 100);
    assert_eq!(zombie(1, None, Some(vec![0])).nearest_human_distance(), 0);
}

#[test]
fn zombie_near_a_human_sorts_before_zombie_near_none() {
    let near_none = zombie(1, Some(10), None);
    let near_one = zombie(2, Some(9000), Some(vec![100]));
    let ranking = sort_by_danger(vec![near_none.clone(), near_one.clone()]);
    assert_eq!(ranking, vec![near_one.clone(), near_none.clone()]);
    let ranking = sort_by_danger(vec![near_one.clone(), near_none.clone()]);
    assert_eq!(ranking, vec![near_one, near_none]);
}

#[test]
fn more_dangerous_by_the_first_key() {
    let a = zombie(1, Some(50), Some(vec![100]));
    let b = zombie(2, Some(10), Some(vec![101]));
    assert!(a.is_more_dangerous_than(&b));
    assert!(!b.is_more_dangerous_than(&a));
    assert!(!a.is_more_dangerous_than(&a));
}

#[test]
fn more_dangerous_by_the_second_key() {
    let a = zombie(1, Some(50), Some(vec![100, 400]));
    let b = zombie(2, Some(51), Some(vec![100]));
    assert!(a.is_more_dangerous_than(&b));
    assert!(!b.is_more_dangerous_than(&a));
    let c = zombie(3, Some(50), Some(vec![100]));
    assert!(!a.is_more_dangerous_than(&c));
    assert!(!c.is_more_dangerous_than(&a));
}

#[test]
fn sentinel_ties_with_a_list_that_holds_it() {
    let none = zombie(1, Some(5), None);
    let far = zombie(2, Some(4), Some(vec![u64::MAX]));
    let empty = zombie(3, Some(3), Some(vec![]));
    let ranking = sort_by_danger(vec![none, far, empty]);
    assert_eq!(ids(&ranking), vec![3, 2, 1]);
}

#[test]
fn unassessed_zombie_comes_first_among_equals() {
    let assessed = zombie(1, Some(0), None);
    let fresh = zombie(2, None, None);
    assert!(fresh.is_more_dangerous_than(&assessed));
    assert!(!assessed.is_more_dangerous_than(&fresh));
    assert!(!fresh.is_more_dangerous_than(&fresh));
    let ranking = sort_by_danger(vec![assessed, fresh]);
    assert_eq!(ids(&ranking), vec![2, 1]);
}

#[test]
fn sort_by_danger_uses_both_keys() {
    let zombies = vec![
        zombie(1, Some(300), None),
        zombie(2, Some(900), Some(vec![700, 800])),
        zombie(3, Some(100), None),
        zombie(4, Some(500), Some(vec![200])),
        zombie(5, Some(400), Some(vec![700])),
        zombie(6, Some(100), Some(vec![9000])),
    ];
    let ranking = sort_by_danger(zombies);
    assert_eq!(ids(&ranking), vec![4, 5, 2, 6, 3, 1]);
}

#[test]
fn sort_by_danger_keeps_equals_in_their_order() {
    let zombies = vec![
        zombie(1, Some(10), Some(vec![50])),
        zombie(2, Some(10), None),
        zombie(3, Some(10), Some(vec![50])),
        zombie(4, Some(10), None),
        zombie(5, Some(10), Some(vec![50, 60])),
        zombie(6, Some(9), None),
    ];
    let ranking = sort_by_danger(zombies);
    assert_eq!(ids(&ranking), vec![1, 3, 5, 6, 2, 4]);
}

#[test]
fn sort_by_danger_of_few() {
    assert_eq!(sort_by_danger(vec![]), vec![]);
    let only = zombie(1, Some(1), None);
    assert_eq!(sort_by_danger(vec![only.clone()]), vec![only]);
}

#[test]
fn sort_by_danger_of_a_ranking_changes_nothing() {
    let zombies = vec![
        zombie(1, Some(3), Some(vec![5])),
        zombie(2, Some(2), None),
        zombie(3, Some(1), Some(vec![5])),
        zombie(4, Some(2), None),
    ];
    let once = sort_by_danger(zombies);
    assert_eq!(ids(&once), vec![3, 1, 2, 4]);
    let twice = sort_by_danger(once.clone());
    assert_eq!(once, twice);
}
