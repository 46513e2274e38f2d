use ant_colony::constants::{
    EXPLORE_STEPS_MAX, EXPLORE_STEPS_MIN, INITIAL_WORKER_COUNT, QUEEN_HATCH_COOLDOWN,
};
use ant_colony::{
    snapshot, shuffled_order, Action, Ant, FoodItem, FrontToBack, Intent, Memory, Perception, World,
};

type Pos = (f64, f64);

fn colony(workers: usize) -> World<(), Pos, f64> {
    let positions: Vec<Pos> = (0..workers).map(|i| (i as f64, 1.0)).collect();
    let food = vec![
        FoodItem { position: (10.0, 10.0), amount: 1.0 },
        FoodItem { position: (20.0, 20.0), amount: 0.0 },
        FoodItem { position: (30.0, 30.0), amount: 2.0 },
    ];
    World::founded((), food, positions, (50.0, 50.0), 10.0, 25.0)
}

#[test]
fn founded_colony_counts() {
    let positions: Vec<Pos> = (0..INITIAL_WORKER_COUNT).map(|i| (i as f64, 2.0)).collect();
    let food: Vec<FoodItem<Pos, f64>> =
        (0..200).map(|i| FoodItem { position: (i as f64, 3.0), amount: 1.0 }).collect();
    let world: World<(), Pos, f64> = World::founded((), food, positions, (50.0, 50.0), 10.0, 25.0);
    assert_eq!(world.food.len(), 200);
    let queens: Vec<_> = world.ants.iter().filter(|a| a.queen).collect();
    assert_eq!(queens.len(), 1);
    let workers: Vec<_> = world.ants.iter().filter(|a| !a.queen).collect();
    assert_eq!(workers.len(), INITIAL_WORKER_COUNT);
}

#[test]
fn founded_colony_ids_and_roles() {
    let world = colony(3);
    assert_eq!(world.ants.len(), 4);
    for (k, ant) in world.ants.iter().enumerate() {
        assert_eq!(ant.id, k);
    }
    let queen = &world.ants[3];
    assert!(queen.queen);
    assert_eq!(queen.position, (50.0, 50.0));
    assert_eq!(queen.food, 25.0);
    assert_eq!(queen.steps_since_last_hatch, QUEEN_HATCH_COOLDOWN);
    assert_eq!(queen.memory.last_seen_queen, None);
    let worker = &world.ants[1];
    assert!(!worker.queen);
    assert_eq!(worker.position, (1.0, 1.0));
    assert_eq!(worker.food, 10.0);
    assert_eq!(worker.steps_since_last_hatch, 0);
    assert_eq!(worker.memory.last_seen_queen, Some((50.0, 50.0)));
    assert_eq!(worker.memory.explore_steps_remaining, 0);
    assert_eq!(world.next_id, 4);
    assert_eq!(world.step_count, 0);
    assert!(world.cemetery.is_empty());
    assert_eq!(world.queen_count(), 1);
}

#[test]
fn hatch_by_a_worker_is_refused() {
    let mut world = colony(INITIAL_WORKER_COUNT);
    let initial_count = world.ants.len();
    assert!(!world.ants[0].queen);
    let hatched = world.hatch(0, 1, 10.0, &|_count: usize, food: f64| if food < 5.0 { None } else { Some(food - 5.0) });
    assert!(!hatched);
    assert_eq!(world.ants.len(), initial_count);
}

#[test]
fn hatch_adds_workers_at_the_queen() {
    let mut world = colony(2);
    let queen_id = 2;
    let hatched = world.hatch(queen_id, 2, 10.0, &|_count: usize, food: f64| if food < 10.0 { None } else { Some(food - 10.0) });
    assert!(hatched);
    assert_eq!(world.ants.len(), 5);
    assert_eq!(world.ants[2].food, 15.0);
    assert_eq!(world.ants[2].steps_since_last_hatch, 0);
    for k in 3..5 {
        let ant = &world.ants[k];
        assert_eq!(ant.id, k);
        assert!(!ant.queen);
        assert_eq!(ant.position, (50.0, 50.0));
        assert_eq!(ant.food, 10.0);
        assert_eq!(ant.memory.last_seen_queen, Some((50.0, 50.0)));
    }
    assert_eq!(world.queen_count(), 1);
}

#[test]
fn hatch_refused_when_unpaid() {
    let mut world = colony(2);
    let hatched = world.hatch(2, 1, 10.0, &|_count: usize, food: f64| if food < 100.0 { None } else { Some(food - 100.0) });
    assert!(!hatched);
    assert_eq!(world.ants.len(), 3);
    assert_eq!(world.ants[2].food, 25.0);
    assert_eq!(world.ants[2].steps_since_last_hatch, QUEEN_HATCH_COOLDOWN);
}

#[test]
fn hatch_after_a_death_reuses_an_id() {
    let mut world = colony(2);
    // the first worker starves: the queen moves into its place
    world.end_step(&vec![true, true, true], vec![true, false, false]);
    assert_eq!(world.ants.len(), 2);
    let ids: Vec<usize> = world.ants.iter().map(|a| a.id).collect();
    assert_eq!(ids, vec![2, 1]);
    assert!(world.hatch(2, 1, 10.0, &|_count: usize, food: f64| Some(food - 5.0)));
    assert_eq!(world.ants[2].id, 2);
}

#[test]
fn find_ant_and_queen() {
    let world = colony(3);
    assert_eq!(world.find_ant(2), Some(2));
    assert_eq!(world.find_ant(3), Some(3));
    assert_eq!(world.find_ant(9), None);
    assert_eq!(world.find_queen(3), Some(3));
    assert_eq!(world.find_queen(2), None);
}

#[test]
fn end_step_removes_food_and_buries_the_starved() {
    let mut world = colony(3);
    world.end_step(&vec![true, false, true], vec![false, true, false, true]);
    assert_eq!(world.step_count, 1);
    let amounts: Vec<f64> = world.food.iter().map(|f| f.amount).collect();
    assert_eq!(amounts, vec![1.0, 2.0]);
    let living: Vec<usize> = world.ants.iter().map(|a| a.id).collect();
    assert_eq!(living, vec![0, 2]);
    let buried: Vec<usize> = world.cemetery.iter().map(|a| a.id).collect();
    assert_eq!(buried, vec![1, 3]);
    assert_eq!(world.queen_count(), 0);
}

#[test]
fn end_step_swaps_survivors_into_gaps() {
    let mut world = colony(4);
    world.end_step(&vec![true, true, true], vec![true, false, true, false, false]);
    let living: Vec<usize> = world.ants.iter().map(|a| a.id).collect();
    assert_eq!(living, vec![4, 1, 3]);
    let buried: Vec<usize> = world.cemetery.iter().map(|a| a.id).collect();
    assert_eq!(buried, vec![0, 2]);
    assert_eq!(world.ants.len() + world.cemetery.len(), 5);
}

#[test]
fn snapshot_mirrors_the_world() {
    let mut world = colony(2);
    world.end_step(&vec![true, false, true], vec![false, false, false]);
    let snap = snapshot(&world);
    assert_eq!(snap.step_count, 1);
    assert_eq!(snap.ants.len(), 3);
    assert_eq!(snap.ants[2].id, 2);
    assert!(snap.ants[2].queen);
    assert_eq!(snap.ants[2].food, 25.0);
    assert_eq!(snap.ants[0].position, (0.0, 1.0));
    assert_eq!(snap.food.len(), 2);
    assert_eq!(snap.food[1].position, (30.0, 30.0));
    assert_eq!(snap.food[1].amount, 2.0);
}

#[test]
fn shuffled_order_is_a_permutation() {
    let mut saw_reordering = false;
    for _ in 0..20 {
        let order = shuffled_order(12);
        let mut sorted = order.clone();
        sorted.sort();
        assert_eq!(sorted, (0..12).collect::<Vec<usize>>());
        if order != sorted {
            saw_reordering = true;
        }
    }
    assert!(saw_reordering);
    assert!(shuffled_order(0).is_empty());
}

fn worker() -> Ant<Pos, f64> {
    Ant {
        id: 7,
        position: (1.0, 2.0),
        queen: false,
        food: 4.0,
        steps_since_last_hatch: 3,
        memory: Memory::default(),
    }
}

#[test]
fn memory_records_found_food() {
    let mut ant = worker();
    ant.update_memory(&Action::PickFood { at: (5.0, 5.0), amount: 1.0 }, true, &|| 0.5);
    assert_eq!(ant.memory.last_seen_food, Some((5.0, 5.0)));
    ant.update_memory(&Action::Eat { at: (6.0, 6.0), amount: 1.0 }, false, &|| 0.5);
    assert_eq!(ant.memory.last_seen_food, Some((5.0, 5.0)));
    ant.update_memory(&Action::Eat { at: (6.0, 6.0), amount: 1.0 }, true, &|| 0.5);
    assert_eq!(ant.memory.last_seen_food, Some((6.0, 6.0)));
    ant.update_memory(&Action::Move((0.0, 0.0)), true, &|| 0.5);
    assert_eq!(ant.memory.last_seen_food, Some((6.0, 6.0)));
    ant.update_memory(&Action::PickFood { at: (5.0, 5.0), amount: 1.0 }, false, &|| 0.5);
    assert_eq!(ant.memory.last_seen_food, None);
    assert_eq!(ant.id, 7);
    assert_eq!(ant.position, (1.0, 2.0));
    assert_eq!(ant.food, 4.0);
}

#[test]
fn memory_draws_a_new_direction_when_exploring_ends() {
    let mut ant = worker();
    ant.update_memory(&Action::Rest, true, &|| 1.25);
    assert_eq!(ant.memory.wandering_direction, Some(1.25));
    let steps = ant.memory.explore_steps_remaining;
    assert!(EXPLORE_STEPS_MIN <= steps && steps < EXPLORE_STEPS_MAX);
    ant.update_memory(&Action::Rest, true, &|| 9.0);
    assert_eq!(ant.memory.wandering_direction, Some(1.25));
    assert_eq!(ant.memory.explore_steps_remaining, steps - 1);
}

#[test]
fn hatch_counter_counts_steps_without_hatching() {
    let mut ant = worker();
    ant.update_memory(&Action::Rest, true, &|| 0.0);
    assert_eq!(ant.steps_since_last_hatch, 4);
    ant.update_memory(&Action::HatchAnts { count: 1 }, true, &|| 0.0);
    assert_eq!(ant.steps_since_last_hatch, 4);
    ant.steps_since_last_hatch = u32::MAX;
    ant.update_memory(&Action::Rest, true, &|| 0.0);
    assert_eq!(ant.steps_since_last_hatch, u32::MAX);
}

#[test]
fn subscribe_message() {
    let message = FrontToBack::Subscribe;
    assert_eq!(message, FrontToBack::Subscribe);
}

#[test]
fn queen_waits_out_the_cooldown_after_hatching() {
    let mut world = colony(1);
    assert!(world.hatch(1, 1, 10.0, &|_count: usize, food: f64| Some(food - 5.0)));
    let perception = Perception {
        hungry: false,
        surplus: true,
        can_afford_hatch: true,
        sightings: vec![],
        queen_in_reach: None,
        remembered_food_far: None,
    };
    let queen = &mut world.ants[1];
    queen.update_memory(&Action::HatchAnts { count: 1 }, true, &|| 0.0);
    for _ in 0..QUEEN_HATCH_COOLDOWN {
        assert_eq!(queen.decide(&perception), Intent::Rest);
        queen.update_memory(&Action::Rest, true, &|| 0.0);
    }
    assert_eq!(queen.decide(&perception), Intent::Hatch { count: 1 });
}
