//! An in-memory record of a potluck: an event date and the dishes brought to
//! it, each tagged with a course.

pub mod dish;
pub mod potluck;

pub use dish::{Category, Dish};
pub use potluck::{Potluck, PotluckView};
