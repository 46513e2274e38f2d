use vstd::prelude::*;

use crate::snapshot::WorldSnapshot;

verus! {

/// A message from an observer to the simulation.
#[derive(Clone, Copy, Debug, PartialEq, Eq, Structural)]
pub enum FrontToBack {
    Subscribe,
}

/// A message from the simulation to an observer.
#[derive(Clone, Debug)]
pub enum BackToFront<P, S> {
    WorldStateUpdate(WorldSnapshot<P, S>),
}

} // verus!
