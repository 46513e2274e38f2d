use vstd::prelude::*;

use crate::ant::Ant;
use crate::world::{FoodItem, World};

verus! {

/// What an observer is shown of an ant.
#[derive(Clone, Copy, Debug, PartialEq)]
pub struct AntSnapshot<P, S> {
    pub id: usize,
    pub position: P,
    pub queen: bool,
    pub food: S,
}

/// What an observer is shown of a food item.
#[derive(Clone, Copy, Debug, PartialEq)]
pub struct FoodSnapshot<P, S> {
    pub position: P,
    pub amount: S,
}

/// What an observer is shown of the world after a step.
#[derive(Clone, Debug)]
pub struct WorldSnapshot<P, S> {
    pub step_count: u32,
    pub ants: Vec<AntSnapshot<P, S>>,
    pub food: Vec<FoodSnapshot<P, S>>,
}

/// The snapshot of one ant.
pub open spec fn ant_snapshot<P, S>(ant: Ant<P, S>) -> AntSnapshot<P, S> {
    AntSnapshot { id: ant.id, position: ant.position, queen: ant.queen, food: ant.food }
}

/// The snapshot of one food item.
pub open spec fn food_snapshot<P, S>(item: FoodItem<P, S>) -> FoodSnapshot<P, S> {
    FoodSnapshot { position: item.position, amount: item.amount }
}

/// Takes a snapshot of the world: its step count, and each living ant and each
/// food item, in the world's order.
pub fn snapshot<C, P: Copy, S: Copy>(world: &World<C, P, S>) -> (snap: WorldSnapshot<P, S>)
    ensures
        snap.step_count == world.step_count,
        snap.ants@ == world.ants@.map_values(|a: Ant<P, S>| ant_snapshot(a)),
        snap.food@ == world.food@.map_values(|f: FoodItem<P, S>| food_snapshot(f)),
{
    let mut ants: Vec<AntSnapshot<P, S>> = Vec::new();
    let mut i: usize = 0;
    while i < world.ants.len()
        invariant
            i <= world.ants.len(),
            ants@ =~= world.ants@.take(i as int).map_values(|a: Ant<P, S>| ant_snapshot(a)),
        decreases world.ants.len() - i,
    {
        let a = &world.ants[i];
        ants.push(AntSnapshot { id: a.id, position: a.position, queen: a.queen, food: a.food });
        i = i + 1;
    }
    assert(world.ants@.take(i as int) =~= world.ants@);
    let mut food: Vec<FoodSnapshot<P, S>> = Vec::new();
    let mut j: usize = 0;
    while j < world.food.len()
        invariant
            j <= world.food.len(),
            food@ =~= world.food@.take(j as int).map_values(|f: FoodItem<P, S>| food_snapshot(f)),
        decreases world.food.len() - j,
    {
        let f = &world.food[j];
        food.push(FoodSnapshot { position: f.position, amount: f.amount });
        j = j + 1;
    }
    assert(world.food@.take(j as int) =~= world.food@);
    WorldSnapshot { step_count: world.step_count, ants, food }
}

} // verus!
