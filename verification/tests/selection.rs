use code_vs_zombies::{
    assess_humans, count_zombies_facing, select_destination, select_target, Entity, Human,
    Position, Zombie,
};

fn threatened(id: i32, x: i32, y: i32, count: usize) -> Human {
    Human { entity: Entity { id, position: Position(x, y) }, zombies_facing_human: count }
}

#[test]
fn counts_the_zombies_that_face_a_point() {
    let zombies = vec![
        Zombie::new(1, 0, 0, 10, 0),
        Zombie::new(2, 100, 100, 90, 90),
        Zombie::new(3, 50, 50, 50, 40),
        Zombie::new(4, -20, 0, -10, 0),
    ];
    assert_eq!(count_zombies_facing(&zombies, Position(50, 0)), 3);
    assert_eq!(count_zombies_facing(&zombies, Position(0, 0)), 2);
    assert_eq!(count_zombies_facing(&zombies, Position(51, 1)), 0);
    assert_eq!(count_zombies_facing(&zombies, Position(10, 0)), 2);
    assert_eq!(count_zombies_facing(&vec![], Position(10, 0)), 0);
}

#[test]
fn assess_humans_counts_for_every_human() {
    let humans = vec![
        threatened(0, 50, 0, 9),
        Human::new(1, 7, 8),
        Human::new(2, 0, 0),
    ];
    let zombies = vec![
        Zombie::new(1, 0, 0, 10, 0),
        Zombie::new(2, 100, 100, 90, 90),
        Zombie::new(3, 50, 50, 50, 40),
    ];
    let assessed = assess_humans(&humans, &zombies);
    assert_eq!(
        assessed,
        vec![threatened(0, 50, 0, 2), threatened(1, 7, 8, 0), threatened(2, 0, 0, 1)]
    );
    assert_eq!(assess_humans(&vec![], &zombies), vec![]);
    assert_eq!(assess_humans(&humans, &vec![])[0], threatened(0, 50, 0, 0));
}

fn send(character: Position, humans: &Vec<Human>, ranking: &Vec<Zombie>) -> Position {
    select_destination(character, select_target(character, humans, ranking), ranking)
}

#[test]
fn last_threatened_human_wins() {
    let humans = vec![
        threatened(0, 1, 1, 5),
        threatened(1, 2, 2, 1),
        threatened(2, 3, 3, 0),
    ];
    let ranking = vec![Zombie::new(1, 10, 0, 5, 0)];
    assert_eq!(select_target(Position(0, 0), &humans, &ranking), Some(Position(2, 2)));
    assert_eq!(send(Position(0, 0), &humans, &ranking), Position(2, 2));
    assert_eq!(send(Position(0, 0), &humans, &vec![]), Position(2, 2));
}

#[test]
fn first_zombie_that_faces_the_character_is_met_where_it_stands() {
    let humans = vec![threatened(0, 1, 1, 0)];
    let ranking = vec![
        Zombie::new(1, 500, 500, 500, 600),
        Zombie::new(2, 0, 300, 0, 200),
        Zombie::new(3, 40, 0, 30, 0),
    ];
    assert_eq!(select_target(Position(0, 0), &humans, &ranking), Some(Position(0, 300)));
    assert_eq!(send(Position(0, 0), &humans, &ranking), Position(0, 300));
    assert_eq!(send(Position(0, 0), &vec![], &ranking), Position(0, 300));
}

#[test]
fn without_a_threat_the_most_dangerous_zombie_is_met() {
    let humans = vec![threatened(0, 1, 1, 0), threatened(1, 2, 2, 0)];
    let ranking = vec![Zombie::new(1, 500, 500, 500, 600), Zombie::new(2, 0, 300, 0, 400)];
    assert_eq!(select_target(Position(0, 0), &humans, &ranking), None);
    assert_eq!(send(Position(0, 0), &humans, &ranking), Position(500, 500));
}

#[test]
fn without_zombies_the_character_stays() {
    let humans = vec![threatened(0, 1, 1, 0)];
    assert_eq!(select_target(Position(8000, 4500), &humans, &vec![]), None);
    assert_eq!(send(Position(8000, 4500), &humans, &vec![]), Position(8000, 4500));
    assert_eq!(send(Position(-3, 9), &vec![], &vec![]), Position(-3, 9));
}

#[test]
fn destination_follows_the_target() {
    let ranking = vec![Zombie::new(1, 500, 500, 500, 600)];
    let here = Position(1, 2);
    assert_eq!(select_destination(here, Some(Position(7, 7)), &ranking), Position(7, 7));
    assert_eq!(select_destination(here, Some(Position(7, 7)), &vec![]), Position(7, 7));
    assert_eq!(select_destination(here, None, &ranking), Position(500, 500));
    assert_eq!(select_destination(here, None, &vec![]), here);
}
