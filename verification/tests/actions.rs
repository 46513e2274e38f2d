use ant_colony::{Action, FoodItem, Intent, Perception, Physics, World};

type Pos = (f64, f64);

/// The length of one step in these worlds.
const STEP: f64 = 40.0;

fn dist(a: Pos, b: Pos) -> f64 {
    ((a.0 - b.0).powi(2) + (a.1 - b.1).powi(2)).sqrt()
}

fn physics() -> Physics<
    f64,
    impl Fn(Pos, f64, Pos) -> (Pos, f64),
    impl Fn(Pos, Pos) -> bool,
    impl Fn(Pos, Pos) -> Option<u64>,
    impl Fn(f64, f64, f64) -> (f64, f64),
    impl Fn(f64, f64) -> (f64, f64),
    impl Fn(usize, f64) -> Option<f64>,
> {
    Physics {
        travel: |p: Pos, food: f64, t: Pos| (t, food - 1.0),
        in_reach: |p: Pos, t: Pos| !(dist(p, t) > STEP * 1.5),
        food_key: |f: Pos, t: Pos| {
            let d = dist(f, t);
            if d <= 2.0 { Some(d.to_bits()) } else { None }
        },
        take: |amount: f64, heap: f64, food: f64| {
            let t = amount.min(heap);
            (heap - t, food + t)
        },
        give: |amount: f64, food: f64| {
            let d = amount.min(food);
            (food - d, d)
        },
        pay: |count: usize, food: f64| {
            let cost = 5.0 * count as f64;
            if food < cost { None } else { Some(food - cost) }
        },
        start_food: 10.0,
    }
}

fn colony() -> World<(), Pos, f64> {
    let food = vec![
        FoodItem { position: (0.0, 0.0), amount: 4.0 },
        FoodItem { position: (50.0, 50.0), amount: 10.0 },
        FoodItem { position: (51.0, 50.0), amount: 3.0 },
    ];
    World::founded((), food, vec![(0.0, 0.0), (50.0, 50.0)], (20.0, 20.0), 10.0, 25.0)
}

#[test]
fn test_pick_and_drop() {
    let mut world = colony();
    let ph = physics();
    world.food.clear();
    world.food.push(FoodItem { position: (50.0, 50.0), amount: 10.0 });
    world.ants[0].position = (50.0, 50.0);

    world.execute_action(0, &Action::PickFood { at: (50.0, 50.0), amount: 5.0 }, &ph);
    assert!(world.food[0].amount < 10.0, "food should decrease after pick");
    assert!(world.ants[0].food > 0.0, "ant should carry food after pick");

    let food_count_before = world.food.len();
    let carrying = world.ants[0].food;
    world.execute_action(0, &Action::DropFood { at: (10.0, 10.0), amount: carrying }, &ph);
    assert!(world.food.len() > food_count_before, "food item should be created after drop");
}

#[test]
fn pick_and_drop_amounts() {
    let mut world = colony();
    let ph = physics();
    assert!(world.execute_action(1, &Action::PickFood { at: (50.0, 50.0), amount: 5.0 }, &ph));
    assert_eq!(world.food[1].amount, 5.0);
    assert_eq!(world.ants[1].food, 15.0);
    assert!(world.execute_action(1, &Action::DropFood { at: (51.0, 50.0), amount: 15.0 }, &ph));
    assert_eq!(world.food[3].position, (51.0, 50.0));
    assert_eq!(world.food[3].amount, 15.0);
    assert_eq!(world.ants[1].food, 0.0);
}

#[test]
fn drop_out_of_reach_is_refused() {
    let mut world = colony();
    let ph = physics();
    assert!(!world.execute_action(1, &Action::DropFood { at: (200.0, 200.0), amount: 5.0 }, &ph));
    assert_eq!(world.food.len(), 3);
    assert_eq!(world.ants[1].food, 10.0);
}

#[test]
fn drop_by_an_unknown_ant_answers_true() {
    let mut world = colony();
    let ph = physics();
    assert!(world.execute_action(9, &Action::DropFood { at: (0.0, 0.0), amount: 5.0 }, &ph));
    assert_eq!(world.food.len(), 3);
}

#[test]
fn eat_takes_from_the_closest_heap() {
    let mut world = colony();
    let ph = physics();
    world.ants[1].position = (50.6, 50.0);
    assert!(world.execute_action(1, &Action::Eat { at: (50.6, 50.0), amount: 2.0 }, &ph));
    assert_eq!(world.food[1].amount, 10.0);
    assert_eq!(world.food[2].amount, 1.0);
    assert_eq!(world.ants[1].food, 12.0);
}

#[test]
fn eat_fails_without_food_nearby_or_ant() {
    let mut world = colony();
    let ph = physics();
    world.ants[1].position = (30.0, 30.0);
    assert!(!world.execute_action(1, &Action::Eat { at: (30.0, 30.0), amount: 2.0 }, &ph));
    assert!(!world.execute_action(1, &Action::Eat { at: (100.0, 100.0), amount: 2.0 }, &ph));
    assert!(!world.execute_action(7, &Action::Eat { at: (0.0, 0.0), amount: 2.0 }, &ph));
    assert_eq!(world.ants[1].food, 10.0);
    assert_eq!(world.food[1].amount, 10.0);
}

#[test]
fn move_walks_the_ant_and_always_succeeds() {
    let mut world = colony();
    let ph = physics();
    assert!(world.execute_action(0, &Action::Move((3.0, 4.0)), &ph));
    assert_eq!(world.ants[0].position, (3.0, 4.0));
    assert_eq!(world.ants[0].food, 9.0);
    assert!(world.execute_action(42, &Action::Move((3.0, 4.0)), &ph));
}

#[test]
fn rest_and_pheromone_change_nothing() {
    let mut world = colony();
    let ph = physics();
    assert!(world.execute_action(0, &Action::Rest, &ph));
    assert!(world.execute_action(0, &Action::Pheromone { at: (1.0, 1.0), strength: 1.0 }, &ph));
    assert_eq!(world.ants[0].food, 10.0);
    assert_eq!(world.food.len(), 3);
}

#[test]
fn test_hatch_requires_queen() {
    let mut world = colony();
    let ph = physics();
    let initial_count = world.ants.len();
    assert!(!world.ants[0].queen);
    world.execute_action(0, &Action::HatchAnts { count: 1 }, &ph);
    assert_eq!(world.ants.len(), initial_count);
}

#[test]
fn hatch_action_needs_a_queen_that_can_pay() {
    let mut world = colony();
    let ph = physics();
    assert!(!world.execute_action(0, &Action::HatchAnts { count: 1 }, &ph));
    assert!(!world.execute_action(2, &Action::HatchAnts { count: 6 }, &ph));
    assert!(world.execute_action(2, &Action::HatchAnts { count: 2 }, &ph));
    assert_eq!(world.ants.len(), 5);
    assert_eq!(world.ants[2].food, 15.0);
    assert_eq!(world.ants[3].id, 3);
    assert_eq!(world.ants[4].food, 10.0);
    assert_eq!(world.queen_count(), 1);
}

#[test]
fn a_step_keeps_every_ant_and_the_queen() {
    let mut world = colony();
    let ph = physics();
    let actions = vec![
        Action::Move((1.0, 1.0)),
        Action::PickFood { at: (50.0, 50.0), amount: 20.0 },
        Action::HatchAnts { count: 1 },
    ];
    world.step(actions, &ph, &|| 0.25, &|amount: f64| amount > 0.0, &|food: f64| food <= 0.0);
    assert_eq!(world.step_count, 1);
    assert_eq!(world.ants.len() + world.cemetery.len(), 4);
    assert_eq!(world.queen_count(), 1);
    assert_eq!(world.food.len(), 2);
    assert_eq!(world.ants[1].food, 20.0);
    assert_eq!(world.ants[1].memory.last_seen_food, Some((50.0, 50.0)));
    assert_eq!(world.ants[2].steps_since_last_hatch, 0);
    assert_eq!(world.ants[0].steps_since_last_hatch, 1);
    assert_eq!(world.ants[3].memory.last_seen_queen, Some((20.0, 20.0)));
}

#[test]
fn a_step_buries_the_starved() {
    let mut world = colony();
    world.ants[0].food = 1.0;
    let ph = physics();
    let actions = vec![Action::Move((1.0, 1.0)), Action::Rest, Action::Rest];
    world.step(actions, &ph, &|| 0.25, &|amount: f64| amount > 0.0, &|food: f64| food <= 0.0);
    assert_eq!(world.ants.len(), 2);
    assert_eq!(world.cemetery.len(), 1);
    assert_eq!(world.cemetery[0].id, 0);
    assert_eq!(world.ants[0].id, 2);
    assert_eq!(world.queen_count(), 1);
}

fn pick_action(world: &World<(), Pos, f64>, i: usize) -> Action<Pos, f64> {
    let ant = &world.ants[i];
    let perception = Perception {
        hungry: false,
        surplus: false,
        can_afford_hatch: ant.food >= 15.0,
        sightings: vec![],
        queen_in_reach: None,
        remembered_food_far: None,
    };
    match ant.decide(&perception) {
        Intent::Hatch { count } => Action::HatchAnts { count },
        _ => Action::Move((ant.position.0 + 1.0, ant.position.1)),
    }
}

#[test]
fn test_step_runs() {
    let mut world = colony();
    let ph = physics();
    for _ in 0..100 {
        let actions = world.decide_all(&pick_action);
        world.step(actions, &ph, &|| 0.5, &|amount: f64| amount > 0.0, &|food: f64| food <= 0.0);
    }
    assert_eq!(world.step_count, 100);
    assert_eq!(world.queen_count() + world.cemetery.iter().filter(|a| a.queen).count(), 1);
}

#[test]
fn decisions_are_made_on_the_world_before_the_step() {
    let world = colony();
    let actions = world.decide_all(&pick_action);
    assert_eq!(actions.len(), 3);
    assert_eq!(actions[2], Action::HatchAnts { count: 1 });
    assert_eq!(actions[0], Action::Move((1.0, 0.0)));
}
