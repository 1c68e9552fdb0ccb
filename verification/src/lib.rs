//! Per-turn decision core of a zombie-defence game: distances on the board,
//! threat evaluation of every zombie, and the choice of the square the
//! character walks to.

pub mod entities;
pub mod feed;
pub mod geometry;
pub mod ranking;
pub mod selection;
pub mod threat;
pub mod turn;

pub use entities::{Entity, Human, Zombie};
pub use geometry::{distance, integer_sqrt, is_on_course, pythagorean_theorem, Position};
pub use ranking::sort_by_danger;
pub use selection::{assess_humans, count_zombies_facing, select_destination, select_target};
pub use threat::{assess_zombies, sort_ascending};
pub use turn::{plan_turn, Plan};
