use vstd::prelude::*;

verus! {

/// Number of steps a queen waits after hatching before she may hatch again.
pub const QUEEN_HATCH_COOLDOWN: u32 = 20;

/// Number of ants a queen hatches at a time.
pub const HATCH_BROOD_SIZE: usize = 1;

/// Number of workers a freshly founded colony starts with.
pub const INITIAL_WORKER_COUNT: usize = 20;

/// Number of clusters the initial food is scattered around.
pub const FOOD_CLUSTER_COUNT: usize = 5;

/// Smallest number of steps an ant keeps a freshly drawn wandering direction.
pub const EXPLORE_STEPS_MIN: u32 = 5;

/// Bound (exclusive) on the number of steps an ant keeps a wandering direction.
pub const EXPLORE_STEPS_MAX: u32 = 15;

} // verus!
