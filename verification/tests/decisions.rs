use ant_colony::constants::QUEEN_HATCH_COOLDOWN;
use ant_colony::{closest_food, Ant, Intent, Memory, Perception, Sighting};

fn ant(queen: bool, steps_since_last_hatch: u32) -> Ant<(f64, f64), f64> {
    Ant {
        id: 0,
        position: (0.0, 0.0),
        queen,
        food: 5.0,
        steps_since_last_hatch,
        memory: Memory::default(),
    }
}

fn sighting(distance_key: u64, within_reach: bool, forageable: bool) -> Sighting {
    Sighting { distance_key, within_reach, forageable }
}

fn calm(sightings: Vec<Sighting>) -> Perception {
    Perception {
        hungry: false,
        surplus: false,
        can_afford_hatch: false,
        sightings,
        queen_in_reach: None,
        remembered_food_far: None,
    }
}

#[test]
fn closest_picks_first_of_smallest_keys() {
    assert_eq!(closest_food(&vec![]), None);
    assert_eq!(closest_food(&vec![None, None]), None);
    assert_eq!(closest_food(&vec![Some(9), None, Some(3), Some(3), Some(4)]), Some(2));
    assert_eq!(closest_food(&vec![None, Some(7)]), Some(1));
    assert_eq!(closest_food(&vec![Some(0), Some(0)]), Some(0));
}

#[test]
fn queen_hatches_when_ready_and_fed() {
    let mut p = calm(vec![sighting(1, true, true)]);
    p.can_afford_hatch = true;
    assert_eq!(ant(true, QUEEN_HATCH_COOLDOWN).decide(&p), Intent::Hatch { count: 1 });
    assert_eq!(ant(true, QUEEN_HATCH_COOLDOWN - 1).decide(&p), Intent::PickFood(0));
}

#[test]
fn queen_picks_only_food_in_reach() {
    let p = calm(vec![sighting(5, true, true), sighting(2, false, true)]);
    assert_eq!(ant(true, 0).decide(&p), Intent::Rest);
    let p = calm(vec![sighting(5, false, true), sighting(2, true, false)]);
    assert_eq!(ant(true, 0).decide(&p), Intent::PickFood(1));
    assert_eq!(ant(true, 0).decide(&calm(vec![])), Intent::Rest);
}

#[test]
fn workers_never_hatch() {
    let mut p = calm(vec![]);
    p.can_afford_hatch = true;
    assert_eq!(ant(false, QUEEN_HATCH_COOLDOWN).decide(&p), Intent::Wander);
}

#[test]
fn hungry_worker_eats_or_approaches_nearest_food() {
    let mut p = calm(vec![sighting(8, false, true), sighting(3, true, false)]);
    p.hungry = true;
    assert_eq!(ant(false, 0).decide(&p), Intent::Eat(1));
    let mut p = calm(vec![sighting(8, true, true), sighting(3, false, false)]);
    p.hungry = true;
    assert_eq!(ant(false, 0).decide(&p), Intent::ApproachFood(1));
}

#[test]
fn hungry_worker_without_food_in_sight_goes_on() {
    let mut p = calm(vec![]);
    p.hungry = true;
    p.remembered_food_far = Some(true);
    assert_eq!(ant(false, 0).decide(&p), Intent::RevisitFood);
}

#[test]
fn worker_with_surplus_serves_the_queen() {
    let mut p = calm(vec![sighting(1, true, true)]);
    p.surplus = true;
    p.queen_in_reach = Some(true);
    assert_eq!(ant(false, 0).decide(&p), Intent::DropFood);
    p.queen_in_reach = Some(false);
    assert_eq!(ant(false, 0).decide(&p), Intent::ReturnToQueen);
    p.queen_in_reach = None;
    assert_eq!(ant(false, 0).decide(&p), Intent::Wander);
}

#[test]
fn foraging_ignores_food_near_the_queen() {
    let p = calm(vec![sighting(1, true, false), sighting(6, false, true), sighting(4, true, true)]);
    assert_eq!(ant(false, 0).decide(&p), Intent::PickFood(2));
    let p = calm(vec![sighting(1, true, false), sighting(6, false, true)]);
    assert_eq!(ant(false, 0).decide(&p), Intent::ApproachFood(1));
}

#[test]
fn worker_revisits_or_wanders() {
    let mut p = calm(vec![sighting(1, true, false)]);
    p.remembered_food_far = Some(true);
    assert_eq!(ant(false, 0).decide(&p), Intent::RevisitFood);
    p.remembered_food_far = Some(false);
    assert_eq!(ant(false, 0).decide(&p), Intent::Wander);
    p.remembered_food_far = None;
    assert_eq!(ant(false, 0).decide(&p), Intent::Wander);
}
