//! The verified core of an ant-colony simulation.
//!
//! The geometry of the simulation (positions, distances, food amounts) is
//! floating-point work that this crate leaves to its caller: every type here is
//! generic over the position type `P` and the scalar type `S`, and every
//! decision that depends on a distance or an amount arrives as a plain value
//! (a flag, or an integer key by which distances are ordered).

pub mod constants;
pub mod ant;
pub mod world;
pub mod snapshot;
pub mod protocol;

pub use ant::{Action, Ant, Intent, Memory, Perception, Sighting, closest_food};
pub use protocol::{BackToFront, FrontToBack};
pub use snapshot::{snapshot, AntSnapshot, FoodSnapshot, WorldSnapshot};
pub use world::{shuffled_order, FoodItem, Physics, World};
