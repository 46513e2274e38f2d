use rand::seq::SliceRandom;
use vstd::prelude::*;

use crate::ant::{closest_food, is_closest, remembered, spec_closest, Action, Ant, Memory};
use crate::constants::QUEEN_HATCH_COOLDOWN;

verus! {

/// A heap of food lying in the world.
#[derive(Clone, Copy, Debug)]
pub struct FoodItem<P, S> {
    pub position: P,
    pub amount: S,
}

/// The colony and its surroundings.
///
/// `C` is the type of the world's configuration, `P` that of a position and
/// `S` that of a scalar (an amount of food, a direction).
pub struct World<C, P, S> {
    pub config: C,
    pub food: Vec<FoodItem<P, S>>,
    pub ants: Vec<Ant<P, S>>,
    /// The ants that starved, in the order in which they were buried.
    pub cemetery: Vec<Ant<P, S>>,
    pub step_count: u32,
    /// The id the colony was founded to give out next.
    pub next_id: usize,
}

/// A worker fresh from its egg: it carries `food`, stands at `position` and
/// knows where its queen is, and remembers nothing else.
pub open spec fn newborn<P, S>(id: usize, position: P, queen_position: P, food: S) -> Ant<P, S> {
    Ant {
        id,
        position,
        queen: false,
        food,
        steps_since_last_hatch: 0,
        memory: Memory {
            wandering_direction: None,
            explore_steps_remaining: 0,
            last_seen_food: None,
            last_seen_queen: Some(queen_position),
        },
    }
}

/// The queen of a new colony, ready to hatch at once.
pub open spec fn founding_queen<P, S>(id: usize, position: P, food: S) -> Ant<P, S> {
    Ant {
        id,
        position,
        queen: true,
        food,
        steps_since_last_hatch: QUEEN_HATCH_COOLDOWN,
        memory: Memory::blank(),
    }
}

/// The ants of a new colony: one worker at each of the given positions, with
/// the ids `0, 1, ...` in that order, and then the queen with the next id.
pub open spec fn founding_ants<P, S>(
    worker_positions: Seq<P>,
    queen_position: P,
    start_food: S,
    queen_food: S,
) -> Seq<Ant<P, S>> {
    Seq::new(
        worker_positions.len(),
        |i: int| newborn(i as usize, worker_positions[i], queen_position, start_food),
    ).push(founding_queen(worker_positions.len() as usize, queen_position, queen_food))
}

/// `ant` is the one asked for by `id` (and, when `queen_only`, is a queen).
pub open spec fn answers<P, S>(ant: Ant<P, S>, id: usize, queen_only: bool) -> bool {
    ant.id == id && (queen_only ==> ant.queen)
}

/// `k` is the first position of an ant that answers the request.
pub open spec fn is_first_answer<P, S>(ants: Seq<Ant<P, S>>, id: usize, queen_only: bool, k: int) -> bool {
    &&& 0 <= k < ants.len()
    &&& answers(ants[k], id, queen_only)
    &&& forall|j: int| 0 <= j < k ==> !answers(#[trigger] ants[j], id, queen_only)
}

/// The first position of an ant that answers the request, if any does.
pub open spec fn first_answer<P, S>(ants: Seq<Ant<P, S>>, id: usize, queen_only: bool) -> Option<int> {
    if exists|k: int| is_first_answer(ants, id, queen_only, k) {
        Some(choose|k: int| is_first_answer(ants, id, queen_only, k))
    } else {
        None
    }
}

/// The ants after the queen at `q` has paid for `count` eggs and kept `rest`:
/// her hatch counter starts over, and the newborns follow the other ants, with
/// ids that count on from the number of ants, all at the queen's position.
pub open spec fn brood<P, S>(ants: Seq<Ant<P, S>>, q: int, count: nat, start_food: S, rest: S) -> Seq<Ant<P, S>> {
    let queen = ants[q];
    ants.update(
        q,
        Ant { food: rest, steps_since_last_hatch: 0, ..queen },
    ) + Seq::new(
        count,
        |k: int| newborn((ants.len() + k) as usize, queen.position, queen.position, start_food),
    )
}

/// The ants before and after a queen at `q` asked to hatch `count` ants and
/// her payment came back as `paid`: no payment leaves everything as it was.
pub open spec fn hatch_outcome<P, S>(
    before: Seq<Ant<P, S>>,
    q: int,
    count: nat,
    start_food: S,
    paid: Option<S>,
    hatched: bool,
    after: Seq<Ant<P, S>>,
) -> bool {
    match paid {
        None => !hatched && after == before,
        Some(rest) => hatched && after == brood(before, q, count, start_food, rest),
    }
}

/// The queen at `q` was asked to hatch `count` ants, `pay` could answer her
/// food with `paid`, and the ants went from `before` to `after` accordingly.
pub open spec fn paid_hatch<P, S, FP: Fn(usize, S) -> Option<S>>(
    before: Seq<Ant<P, S>>,
    q: int,
    count: usize,
    start_food: S,
    pay: FP,
    hatched: bool,
    after: Seq<Ant<P, S>>,
) -> bool {
    exists|paid: Option<S>|
        call_ensures(pay, (count, before[q].food), paid) && hatch_outcome(
            before,
            q,
            count as nat,
            start_food,
            paid,
            hatched,
            after,
        )
}

/// The floating-point work of a step, each piece given as a closure.
pub struct Physics<S, FT, FR, FK, FX, FG, FP> {
    /// Given an ant's position, its food and a target, where the ant ends up
    /// and how much food it has left after walking toward the target.
    pub travel: FT,
    /// Given an ant's position and a place, whether the place is within reach.
    pub in_reach: FR,
    /// Given a food item's position and a place, the order key of the item as a
    /// candidate for being taken from at that place, or `None` when it is too far.
    pub food_key: FK,
    /// Given the amount asked for, a heap's amount and an ant's food, what the
    /// heap and the ant hold after the ant takes its share.
    pub take: FX,
    /// Given the amount asked for and an ant's food, what the ant keeps and
    /// what it drops.
    pub give: FG,
    /// Given a number of eggs and a queen's food, what she has left after paying
    /// for them, or `None` when she cannot pay.
    pub pay: FP,
    /// The food a newborn carries.
    pub start_food: S,
}

/// Every closure of `physics` accepts every input.
pub open spec fn physics_ready<
    P,
    S,
    FT: Fn(P, S, P) -> (P, S),
    FR: Fn(P, P) -> bool,
    FK: Fn(P, P) -> Option<u64>,
    FX: Fn(S, S, S) -> (S, S),
    FG: Fn(S, S) -> (S, S),
    FP: Fn(usize, S) -> Option<S>,
>(physics: Physics<S, FT, FR, FK, FX, FG, FP>) -> bool {
    &&& forall|p: P, s: S, t: P| call_requires(physics.travel, (p, s, t))
    &&& forall|p: P, t: P| call_requires(physics.in_reach, (p, t))
    &&& forall|p: P, t: P| call_requires(physics.food_key, (p, t))
    &&& forall|a: S, h: S, f: S| call_requires(physics.take, (a, h, f))
    &&& forall|a: S, f: S| call_requires(physics.give, (a, f))
    &&& forall|n: usize, f: S| call_requires(physics.pay, (n, f))
}

/// The ants before and after the ant with id `id` walked toward `target`:
/// the first ant with that id takes the position and food `travel` gives it;
/// without such an ant nothing changes.
pub open spec fn travelled<P, S, FT: Fn(P, S, P) -> (P, S)>(
    before: Seq<Ant<P, S>>,
    id: usize,
    target: P,
    travel: FT,
    after: Seq<Ant<P, S>>,
) -> bool {
    match first_answer(before, id, false) {
        None => after == before,
        Some(k) => exists|r: (P, S)|
            call_ensures(travel, (before[k].position, before[k].food, target), r) && after
                == before.update(k, Ant { position: r.0, food: r.1, ..before[k] }),
    }
}

/// The heap chosen for taking food at `at`, given the keys `food_key` gave the
/// heaps, and the outcome of taking from it.
pub open spec fn took_from_heap<P, S, FX: Fn(S, S, S) -> (S, S)>(
    ants: Seq<Ant<P, S>>,
    food: Seq<FoodItem<P, S>>,
    k: int,
    keys: Seq<Option<u64>>,
    amount: S,
    take: FX,
    taken: bool,
    after_ants: Seq<Ant<P, S>>,
    after_food: Seq<FoodItem<P, S>>,
) -> bool {
    match spec_closest(keys) {
        None => !taken && after_ants == ants && after_food == food,
        Some(j) => taken && exists|r: (S, S)|
            call_ensures(take, (amount, food[j].amount, ants[k].food), r) && after_food
                == food.update(j, FoodItem { amount: r.0, ..food[j] }) && after_ants == ants.update(
                k,
                Ant { food: r.1, ..ants[k] },
            ),
    }
}

/// The ants and food before and after the ant with id `id` tried to take
/// `amount` of food at `at`: it fails without such an ant, when `at` is out of
/// its reach, or when no heap is a candidate; otherwise the closest candidate
/// heap and the ant hold what `take` says.
pub open spec fn took_food<
    P,
    S,
    FR: Fn(P, P) -> bool,
    FK: Fn(P, P) -> Option<u64>,
    FX: Fn(S, S, S) -> (S, S),
>(
    ants: Seq<Ant<P, S>>,
    food: Seq<FoodItem<P, S>>,
    id: usize,
    at: P,
    amount: S,
    in_reach: FR,
    food_key: FK,
    take: FX,
    taken: bool,
    after_ants: Seq<Ant<P, S>>,
    after_food: Seq<FoodItem<P, S>>,
) -> bool {
    match first_answer(ants, id, false) {
        None => !taken && after_ants == ants && after_food == food,
        Some(k) => exists|reach: bool|
            call_ensures(in_reach, (ants[k].position, at), reach) && if !reach {
                !taken && after_ants == ants && after_food == food
            } else {
                exists|keys: Seq<Option<u64>>|
                    keys.len() == food.len() && (forall|j: int|
                        0 <= j < food.len() ==> call_ensures(
                            food_key,
                            (food[j].position, at),
                            #[trigger] keys[j],
                        )) && took_from_heap(
                        ants,
                        food,
                        k,
                        keys,
                        amount,
                        take,
                        taken,
                        after_ants,
                        after_food,
                    )
            },
    }
}

/// The ants and food before and after the ant with id `id` tried to drop
/// `amount` of food at `at`: without such an ant nothing changes and the answer
/// is `true`; when `at` is out of its reach nothing changes and the answer is
/// `false`; otherwise the ant keeps what `give` says and a new heap of what it
/// dropped lies at `at`.
pub open spec fn dropped_food<P, S, FR: Fn(P, P) -> bool, FG: Fn(S, S) -> (S, S)>(
    ants: Seq<Ant<P, S>>,
    food: Seq<FoodItem<P, S>>,
    id: usize,
    at: P,
    amount: S,
    in_reach: FR,
    give: FG,
    done: bool,
    after_ants: Seq<Ant<P, S>>,
    after_food: Seq<FoodItem<P, S>>,
) -> bool {
    match first_answer(ants, id, false) {
        None => done && after_ants == ants && after_food == food,
        Some(k) => exists|reach: bool|
            call_ensures(in_reach, (ants[k].position, at), reach) && if !reach {
                !done && after_ants == ants && after_food == food
            } else {
                done && exists|r: (S, S)|
                    call_ensures(give, (amount, ants[k].food), r) && after_ants == ants.update(
                        k,
                        Ant { food: r.0, ..ants[k] },
                    ) && after_food == food.push(FoodItem { position: at, amount: r.1 })
            },
    }
}

/// The number of eggs an action asks for.
pub open spec fn hatch_request<P, S>(action: Action<P, S>) -> nat {
    match action {
        Action::HatchAnts { count } => count as nat,
        _ => 0,
    }
}

/// The number of eggs the actions ask for in all.
pub open spec fn hatch_requests<P, S>(actions: Seq<Action<P, S>>) -> nat
    decreases actions.len(),
{
    if actions.len() == 0 {
        0
    } else {
        hatch_requests(actions.drop_last()) + hatch_request(actions.last())
    }
}

/// The number of eggs asked for by the actions whose flag is set.
pub open spec fn requests_where<P, S>(actions: Seq<Action<P, S>>, pending: Seq<bool>) -> nat
    decreases actions.len(),
{
    if actions.len() == 0 {
        0
    } else {
        requests_where(actions.drop_last(), pending) + if pending[actions.len() - 1] {
            hatch_request(actions.last())
        } else {
            0
        }
    }
}

proof fn lemma_requests_all<P, S>(actions: Seq<Action<P, S>>, pending: Seq<bool>)
    requires
        forall|k: int| 0 <= k < actions.len() ==> #[trigger] pending[k],
    ensures
        requests_where(actions, pending) == hatch_requests(actions),
    decreases actions.len(),
{
    if actions.len() > 0 {
        lemma_requests_all(actions.drop_last(), pending);
    }
}

proof fn lemma_requests_unset<P, S>(actions: Seq<Action<P, S>>, pending: Seq<bool>, i: int)
    requires
        0 <= i < actions.len(),
        pending.len() == actions.len(),
        pending[i],
    ensures
        requests_where(actions, pending.update(i, false)) + hatch_request(actions[i])
            == requests_where(actions, pending),
    decreases actions.len(),
{
    let u = pending.update(i, false);
    if i < actions.len() - 1 {
        lemma_requests_unset(actions.drop_last(), pending.take(actions.len() - 1), i);
        lemma_requests_same(actions.drop_last(), pending, pending.take(actions.len() - 1));
        lemma_requests_same(actions.drop_last(), u, pending.take(actions.len() - 1).update(i, false));
    } else {
        lemma_requests_same(actions.drop_last(), pending, u);
    }
}

proof fn lemma_requests_same<P, S>(actions: Seq<Action<P, S>>, a: Seq<bool>, b: Seq<bool>)
    requires
        forall|k: int| 0 <= k < actions.len() ==> a[k] == b[k],
    ensures
        requests_where(actions, a) == requests_where(actions, b),
    decreases actions.len(),
{
    if actions.len() > 0 {
        lemma_requests_same(actions.drop_last(), a, b);
    }
}

proof fn lemma_requests_none<P, S>(actions: Seq<Action<P, S>>, flags: Seq<bool>)
    requires
        forall|k: int| 0 <= k < actions.len() ==> !#[trigger] flags[k],
    ensures
        requests_where(actions, flags) == 0,
    decreases actions.len(),
{
    if actions.len() > 0 {
        lemma_requests_none(actions.drop_last(), flags);
    }
}

proof fn lemma_requests_set<P, S>(actions: Seq<Action<P, S>>, flags: Seq<bool>, i: int, flag: bool)
    requires
        0 <= i < actions.len(),
        flags.len() == actions.len(),
        !flags[i],
    ensures
        requests_where(actions, flags.update(i, flag)) == requests_where(actions, flags) + if flag {
            hatch_request(actions[i])
        } else {
            0
        },
{
    let u = flags.update(i, flag);
    if flag {
        lemma_requests_unset(actions, u, i);
        lemma_requests_same(actions, u.update(i, false), flags);
    } else {
        lemma_requests_same(actions, u, flags);
    }
}

/// The ants of `before` keep their ids and roles, at the same positions, in `after`.
pub open spec fn roles_kept<P, S>(before: Seq<Ant<P, S>>, after: Seq<Ant<P, S>>) -> bool {
    &&& before.len() <= after.len()
    &&& forall|k: int|
        0 <= k < before.len() ==> (#[trigger] after[k]).id == before[k].id && after[k].queen
            == before[k].queen
}

proof fn lemma_update_keeps_roles<P, S>(ants: Seq<Ant<P, S>>, k: int, ant: Ant<P, S>)
    requires
        0 <= k < ants.len(),
        ant.id == ants[k].id,
        ant.queen == ants[k].queen,
    ensures
        roles_kept(ants, ants.update(k, ant)),
        ants.update(k, ant).len() == ants.len(),
        count_queens(ants.update(k, ant)) == count_queens(ants),
{
    lemma_count_queens_same_roles(ants.update(k, ant), ants);
}

proof fn lemma_first_answer_in_range<P, S>(ants: Seq<Ant<P, S>>, id: usize, queen_only: bool)
    ensures
        first_answer(ants, id, queen_only) matches Some(k) ==> is_first_answer(ants, id, queen_only, k),
{
}

proof fn lemma_travelled_keeps_roles<P, S, FT: Fn(P, S, P) -> (P, S)>(
    before: Seq<Ant<P, S>>,
    id: usize,
    target: P,
    travel: FT,
    after: Seq<Ant<P, S>>,
)
    requires
        travelled(before, id, target, travel, after),
    ensures
        roles_kept(before, after),
        after.len() == before.len(),
        count_queens(after) == count_queens(before),
{
    lemma_first_answer_in_range(before, id, false);
    match first_answer(before, id, false) {
        None => {
            lemma_count_queens_same_roles(after, before);
        },
        Some(k) => {
            let r = choose|r: (P, S)|
                call_ensures(travel, (before[k].position, before[k].food, target), r) && after
                    == before.update(k, Ant { position: r.0, food: r.1, ..before[k] });
            lemma_update_keeps_roles(before, k, Ant { position: r.0, food: r.1, ..before[k] });
        },
    }
}

proof fn lemma_took_food_keeps_roles<
    P,
    S,
    FR: Fn(P, P) -> bool,
    FK: Fn(P, P) -> Option<u64>,
    FX: Fn(S, S, S) -> (S, S),
>(
    ants: Seq<Ant<P, S>>,
    food: Seq<FoodItem<P, S>>,
    id: usize,
    at: P,
    amount: S,
    in_reach: FR,
    food_key: FK,
    take: FX,
    taken: bool,
    after_ants: Seq<Ant<P, S>>,
    after_food: Seq<FoodItem<P, S>>,
)
    requires
        took_food(ants, food, id, at, amount, in_reach, food_key, take, taken, after_ants, after_food),
    ensures
        roles_kept(ants, after_ants),
        after_ants.len() == ants.len(),
        count_queens(after_ants) == count_queens(ants),
{
    lemma_first_answer_in_range(ants, id, false);
    lemma_count_queens_same_roles(ants, ants);
    match first_answer(ants, id, false) {
        None => {},
        Some(k) => {
            let reach = choose|reach: bool|
                call_ensures(in_reach, (ants[k].position, at), reach) && if !reach {
                    !taken && after_ants == ants && after_food == food
                } else {
                    exists|keys: Seq<Option<u64>>|
                        keys.len() == food.len() && (forall|j: int|
                            0 <= j < food.len() ==> call_ensures(
                                food_key,
                                (food[j].position, at),
                                #[trigger] keys[j],
                            )) && took_from_heap(
                            ants,
                            food,
                            k,
                            keys,
                            amount,
                            take,
                            taken,
                            after_ants,
                            after_food,
                        )
                };
            if reach {
                let keys = choose|keys: Seq<Option<u64>>|
                    keys.len() == food.len() && (forall|j: int|
                        0 <= j < food.len() ==> call_ensures(
                            food_key,
                            (food[j].position, at),
                            #[trigger] keys[j],
                        )) && took_from_heap(
                        ants,
                        food,
                        k,
                        keys,
                        amount,
                        take,
                        taken,
                        after_ants,
                        after_food,
                    );
                match spec_closest(keys) {
                    None => {},
                    Some(j) => {
                        let r = choose|r: (S, S)|
                            call_ensures(take, (amount, food[j].amount, ants[k].food), r)
                                && after_food == food.update(j, FoodItem { amount: r.0, ..food[j] })
                                && after_ants == ants.update(k, Ant { food: r.1, ..ants[k] });
                        lemma_update_keeps_roles(ants, k, Ant { food: r.1, ..ants[k] });
                    },
                }
            }
        },
    }
}

proof fn lemma_dropped_food_keeps_roles<P, S, FR: Fn(P, P) -> bool, FG: Fn(S, S) -> (S, S)>(
    ants: Seq<Ant<P, S>>,
    food: Seq<FoodItem<P, S>>,
    id: usize,
    at: P,
    amount: S,
    in_reach: FR,
    give: FG,
    done: bool,
    after_ants: Seq<Ant<P, S>>,
    after_food: Seq<FoodItem<P, S>>,
)
    requires
        dropped_food(ants, food, id, at, amount, in_reach, give, done, after_ants, after_food),
    ensures
        roles_kept(ants, after_ants),
        after_ants.len() == ants.len(),
        count_queens(after_ants) == count_queens(ants),
{
    lemma_first_answer_in_range(ants, id, false);
    lemma_count_queens_same_roles(ants, ants);
    match first_answer(ants, id, false) {
        None => {},
        Some(k) => {
            let reach = choose|reach: bool|
                call_ensures(in_reach, (ants[k].position, at), reach) && if !reach {
                    !done && after_ants == ants && after_food == food
                } else {
                    done && exists|r: (S, S)|
                        call_ensures(give, (amount, ants[k].food), r) && after_ants == ants.update(
                            k,
                            Ant { food: r.0, ..ants[k] },
                        ) && after_food == food.push(FoodItem { position: at, amount: r.1 })
                };
            if reach {
                let r = choose|r: (S, S)|
                    call_ensures(give, (amount, ants[k].food), r) && after_ants == ants.update(
                        k,
                        Ant { food: r.0, ..ants[k] },
                    ) && after_food == food.push(FoodItem { position: at, amount: r.1 });
                lemma_update_keeps_roles(ants, k, Ant { food: r.0, ..ants[k] });
            }
        },
    }
}

proof fn lemma_hatch_keeps_roles<P, S, FP: Fn(usize, S) -> Option<S>>(
    before: Seq<Ant<P, S>>,
    q: int,
    count: usize,
    start_food: S,
    pay: FP,
    hatched: bool,
    after: Seq<Ant<P, S>>,
)
    requires
        0 <= q < before.len(),
        paid_hatch(before, q, count, start_food, pay, hatched, after),
    ensures
        roles_kept(before, after),
        after.len() == before.len() + if hatched { count as nat } else { 0 },
        count_queens(after) == count_queens(before),
{
    let paid = choose|paid: Option<S>|
        call_ensures(pay, (count, before[q].food), paid) && hatch_outcome(
            before,
            q,
            count as nat,
            start_food,
            paid,
            hatched,
            after,
        );
    lemma_count_queens_same_roles(before, before);
    match paid {
        None => {},
        Some(rest) => {
            lemma_brood_keeps_queens(before, q, count as nat, start_food, rest);
        },
    }
}

/// The ants and food before and after the ant with id `id` carried out
/// `action`, with the floating-point work done by `physics`; `done` is the
/// answer. A walk always succeeds; eating and picking up food take from the
/// closest heap; a hatch needs a queen with that id who can pay; resting and
/// laying pheromone change nothing and succeed.
pub open spec fn executed<
    P,
    S,
    FT: Fn(P, S, P) -> (P, S),
    FR: Fn(P, P) -> bool,
    FK: Fn(P, P) -> Option<u64>,
    FX: Fn(S, S, S) -> (S, S),
    FG: Fn(S, S) -> (S, S),
    FP: Fn(usize, S) -> Option<S>,
>(
    ants: Seq<Ant<P, S>>,
    food: Seq<FoodItem<P, S>>,
    id: usize,
    action: Action<P, S>,
    physics: Physics<S, FT, FR, FK, FX, FG, FP>,
    done: bool,
    after_ants: Seq<Ant<P, S>>,
    after_food: Seq<FoodItem<P, S>>,
) -> bool {
    match action {
        Action::Move(target) => done && after_food == food && travelled(
            ants,
            id,
            target,
            physics.travel,
            after_ants,
        ),
        Action::Eat { at, amount } => took_food(
            ants,
            food,
            id,
            at,
            amount,
            physics.in_reach,
            physics.food_key,
            physics.take,
            done,
            after_ants,
            after_food,
        ),
        Action::PickFood { at, amount } => took_food(
            ants,
            food,
            id,
            at,
            amount,
            physics.in_reach,
            physics.food_key,
            physics.take,
            done,
            after_ants,
            after_food,
        ),
        Action::DropFood { at, amount } => dropped_food(
            ants,
            food,
            id,
            at,
            amount,
            physics.in_reach,
            physics.give,
            done,
            after_ants,
            after_food,
        ),
        Action::HatchAnts { count } => after_food == food && match first_answer(ants, id, true) {
            None => !done && after_ants == ants,
            Some(q) => paid_hatch(ants, q, count, physics.start_food, physics.pay, done, after_ants),
        },
        Action::Rest => done && after_ants == ants && after_food == food,
        Action::Pheromone { .. } => done && after_ants == ants && after_food == food,
    }
}

/// The roster facts of an executed action: every ant keeps its id, role and
/// place; only a successful hatch adds ants, as many as it asked for; the
/// number of queens stays.
pub proof fn lemma_executed_keeps_roles<
    P,
    S,
    FT: Fn(P, S, P) -> (P, S),
    FR: Fn(P, P) -> bool,
    FK: Fn(P, P) -> Option<u64>,
    FX: Fn(S, S, S) -> (S, S),
    FG: Fn(S, S) -> (S, S),
    FP: Fn(usize, S) -> Option<S>,
>(
    ants: Seq<Ant<P, S>>,
    food: Seq<FoodItem<P, S>>,
    id: usize,
    action: Action<P, S>,
    physics: Physics<S, FT, FR, FK, FX, FG, FP>,
    done: bool,
    after_ants: Seq<Ant<P, S>>,
    after_food: Seq<FoodItem<P, S>>,
)
    requires
        executed(ants, food, id, action, physics, done, after_ants, after_food),
    ensures
        roles_kept(ants, after_ants),
        after_ants.len() == ants.len() + if done {
            hatch_request(action)
        } else {
            0
        },
        count_queens(after_ants) == count_queens(ants),
{
    lemma_count_queens_same_roles(ants, ants);
    lemma_first_answer_in_range(ants, id, true);
    match action {
        Action::Move(target) => {
            lemma_travelled_keeps_roles(ants, id, target, physics.travel, after_ants);
        },
        Action::Eat { at, amount } => {
            lemma_took_food_keeps_roles(
                ants,
                food,
                id,
                at,
                amount,
                physics.in_reach,
                physics.food_key,
                physics.take,
                done,
                after_ants,
                after_food,
            );
        },
        Action::PickFood { at, amount } => {
            lemma_took_food_keeps_roles(
                ants,
                food,
                id,
                at,
                amount,
                physics.in_reach,
                physics.food_key,
                physics.take,
                done,
                after_ants,
                after_food,
            );
        },
        Action::DropFood { at, amount } => {
            lemma_dropped_food_keeps_roles(
                ants,
                food,
                id,
                at,
                amount,
                physics.in_reach,
                physics.give,
                done,
                after_ants,
                after_food,
            );
        },
        Action::HatchAnts { count } => {
            match first_answer(ants, id, true) {
                Some(q) => {
                    lemma_hatch_keeps_roles(ants, q, count, physics.start_food, physics.pay, done, after_ants);
                },
                None => {},
            }
        },
        _ => {},
    }
}

/// `order` lists each position `0..n` exactly once.
pub open spec fn is_order(order: Seq<usize>, n: nat) -> bool {
    &&& order.len() == n
    &&& order.no_duplicates()
    &&& forall|k: int| 0 <= k < n ==> order[k] < n
}

/// The actions were carried out in `order`: `trace[k]` holds the ants and the
/// food before the `k`-th action and `trace[k + 1]` after it, where the `k`-th
/// action is the one chosen for the ant at position `order[k]` at the start,
/// carried out under that ant's id with `successes[order[k]]` as its answer.
pub open spec fn ran_in_order<
    P,
    S,
    FT: Fn(P, S, P) -> (P, S),
    FR: Fn(P, P) -> bool,
    FK: Fn(P, P) -> Option<u64>,
    FX: Fn(S, S, S) -> (S, S),
    FG: Fn(S, S) -> (S, S),
    FP: Fn(usize, S) -> Option<S>,
>(
    ants: Seq<Ant<P, S>>,
    food: Seq<FoodItem<P, S>>,
    actions: Seq<Action<P, S>>,
    physics: Physics<S, FT, FR, FK, FX, FG, FP>,
    order: Seq<usize>,
    successes: Seq<bool>,
    trace: Seq<(Seq<Ant<P, S>>, Seq<FoodItem<P, S>>)>,
) -> bool {
    &&& trace.len() == order.len() + 1
    &&& trace[0] == (ants, food)
    &&& successes.len() == order.len()
    &&& forall|k: int|
        #![trigger order[k]]
        0 <= k < order.len() ==> executed(
            trace[k].0,
            trace[k].1,
            ants[order[k] as int].id,
            actions[order[k] as int],
            physics,
            successes[order[k] as int],
            trace[k + 1].0,
            trace[k + 1].1,
        )
}

/// `after` is `before` where each ant at a position below `actions.len()`
/// has updated its memory from its own action and success, with `draw` as its
/// source of directions, and the other ants are as they were.
pub open spec fn minded<P, S, F: Fn() -> S>(
    before: Seq<Ant<P, S>>,
    actions: Seq<Action<P, S>>,
    successes: Seq<bool>,
    draw: F,
    after: Seq<Ant<P, S>>,
) -> bool {
    &&& after.len() == before.len()
    &&& actions.len() <= before.len()
    &&& forall|i: int|
        0 <= i < before.len() ==> if i < actions.len() {
            remembered(before[i], actions[i], successes[i], draw, #[trigger] after[i])
        } else {
            after[i] == before[i]
        }
}

/// `flags[j]` is an answer `judge` gives for `amounts[j]`.
pub open spec fn judged<S, F: Fn(S) -> bool>(amounts: Seq<S>, judge: F, flags: Seq<bool>) -> bool {
    &&& flags.len() == amounts.len()
    &&& forall|j: int| 0 <= j < amounts.len() ==> call_ensures(judge, (amounts[j],), #[trigger] flags[j])
}

/// Some slot of `items` whose flag is set holds `item`.
pub open spec fn kept_from<T>(items: Seq<T>, flags: Seq<bool>, item: T) -> bool {
    exists|j: int| 0 <= j < items.len() && items[j] == item && flags[j]
}

/// The parts of one step, given the order the actions ran in, their answers,
/// the states in between (`trace`), the ants after their memory updates
/// (`minds`), and the answers of `food_left` on the food (`left`) and of
/// `starved` on the ants (`dead`).
pub open spec fn step_parts<
    P,
    S,
    FT: Fn(P, S, P) -> (P, S),
    FR: Fn(P, P) -> bool,
    FK: Fn(P, P) -> Option<u64>,
    FX: Fn(S, S, S) -> (S, S),
    FG: Fn(S, S) -> (S, S),
    FP: Fn(usize, S) -> Option<S>,
    FD: Fn() -> S,
    FL: Fn(S) -> bool,
    FS: Fn(S) -> bool,
>(
    ants0: Seq<Ant<P, S>>,
    food0: Seq<FoodItem<P, S>>,
    cemetery0: Seq<Ant<P, S>>,
    actions: Seq<Action<P, S>>,
    physics: Physics<S, FT, FR, FK, FX, FG, FP>,
    draw: FD,
    food_left: FL,
    starved: FS,
    order: Seq<usize>,
    successes: Seq<bool>,
    trace: Seq<(Seq<Ant<P, S>>, Seq<FoodItem<P, S>>)>,
    minds: Seq<Ant<P, S>>,
    left: Seq<bool>,
    dead: Seq<bool>,
    ants: Seq<Ant<P, S>>,
    food: Seq<FoodItem<P, S>>,
    cemetery: Seq<Ant<P, S>>,
) -> bool {
    let acted = trace.last();
    let swept = sweep(minds, dead, 0);
    &&& is_order(order, ants0.len())
    &&& ran_in_order(ants0, food0, actions, physics, order, successes, trace)
    &&& minded(acted.0, actions, successes, draw, minds)
    &&& judged(acted.1.map_values(|f: FoodItem<P, S>| f.amount), food_left, left)
    &&& judged(minds.map_values(|a: Ant<P, S>| a.food), starved, dead)
    &&& food == kept(acted.1, left)
    &&& ants == swept.0
    &&& cemetery == cemetery0 + swept.1
    &&& ants.len() + cemetery.len() == ants0.len() + cemetery0.len() + requests_where(actions, successes)
    &&& forall|i: int| 0 <= i < food.len() ==> kept_from(acted.1, left, #[trigger] food[i])
    &&& forall|i: int| 0 <= i < ants.len() ==> came_from(minds, dead, #[trigger] ants[i], false)
    &&& forall|i: int| 0 <= i < swept.1.len() ==> came_from(minds, dead, #[trigger] swept.1[i], true)
}

/// The ants, food and cemetery before and after one step: there are an order
/// and answers such that the step went as `step_parts` describes.
pub open spec fn stepped<
    P,
    S,
    FT: Fn(P, S, P) -> (P, S),
    FR: Fn(P, P) -> bool,
    FK: Fn(P, P) -> Option<u64>,
    FX: Fn(S, S, S) -> (S, S),
    FG: Fn(S, S) -> (S, S),
    FP: Fn(usize, S) -> Option<S>,
    FD: Fn() -> S,
    FL: Fn(S) -> bool,
    FS: Fn(S) -> bool,
>(
    ants0: Seq<Ant<P, S>>,
    food0: Seq<FoodItem<P, S>>,
    cemetery0: Seq<Ant<P, S>>,
    actions: Seq<Action<P, S>>,
    physics: Physics<S, FT, FR, FK, FX, FG, FP>,
    draw: FD,
    food_left: FL,
    starved: FS,
    ants: Seq<Ant<P, S>>,
    food: Seq<FoodItem<P, S>>,
    cemetery: Seq<Ant<P, S>>,
) -> bool {
    exists|
        order: Seq<usize>,
        successes: Seq<bool>,
        trace: Seq<(Seq<Ant<P, S>>, Seq<FoodItem<P, S>>)>,
        minds: Seq<Ant<P, S>>,
        left: Seq<bool>,
        dead: Seq<bool>,
    |
        step_parts(
            ants0,
            food0,
            cemetery0,
            actions,
            physics,
            draw,
            food_left,
            starved,
            order,
            successes,
            trace,
            minds,
            left,
            dead,
            ants,
            food,
            cemetery,
        )
}

proof fn lemma_kept_from<T>(items: Seq<T>, keep: Seq<bool>)
    requires
        keep.len() == items.len(),
    ensures
        forall|i: int|
            0 <= i < kept(items, keep).len() ==> kept_from(items, keep, #[trigger] kept(items, keep)[i]),
    decreases items.len(),
{
    if items.len() > 0 {
        let n = items.len() - 1;
        let front = items.drop_last();
        let flags = keep.take(n);
        lemma_kept_from(front, flags);
        let r = kept(front, flags);
        assert forall|i: int| 0 <= i < kept(items, keep).len() implies kept_from(
            items,
            keep,
            #[trigger] kept(items, keep)[i],
        ) by {
            if i < r.len() {
                assert(kept(items, keep)[i] == r[i]);
                assert(kept_from(front, flags, r[i]));
                let j = choose|j: int| 0 <= j < front.len() && front[j] == r[i] && flags[j];
                assert(items[j] == r[i] && keep[j]);
            } else {
                assert(keep[n] && kept(items, keep)[i] == items[n]);
            }
        }
    }
}

/// The smaller of two amounts.
pub open spec fn least(a: u64, b: u64) -> u64 {
    if a <= b {
        a
    } else {
        b
    }
}

/// Taking food (eating or picking up) happens at the place the ant names.
/// Say each heap is a candidate exactly when `key` gives it a key for its
/// position and the named place `at` (its distance rank from `at`), and taking
/// moves the smaller of the asked amount and the heap's amount from the heap
/// to the ant. Then a successful take is by the ant with the given id, from
/// the first heap closest to `at` among the candidates; exactly that amount
/// moves, nothing is lost, and no other heap or ant changes. When no heap is a
/// candidate for `at`, when no ant has the id, or when `at` is out of the
/// ant's reach, the take fails and nothing changes.
pub proof fn taking_food_at_the_named_place<
    P,
    FR: Fn(P, P) -> bool,
    FK: Fn(P, P) -> Option<u64>,
    FX: Fn(u64, u64, u64) -> (u64, u64),
>(
    ants: Seq<Ant<P, u64>>,
    food: Seq<FoodItem<P, u64>>,
    id: usize,
    at: P,
    amount: u64,
    in_reach: FR,
    food_key: FK,
    take: FX,
    key: spec_fn(P, P) -> Option<u64>,
    reach: spec_fn(P, P) -> bool,
    taken: bool,
    after_ants: Seq<Ant<P, u64>>,
    after_food: Seq<FoodItem<P, u64>>,
)
    requires
        took_food(ants, food, id, at, amount, in_reach, food_key, take, taken, after_ants, after_food),
        forall|p: P, t: P, r: bool| call_ensures(in_reach, (p, t), r) ==> r == reach(p, t),
        forall|p: P, t: P, r: Option<u64>| call_ensures(food_key, (p, t), r) ==> r == key(p, t),
        forall|a: u64, h: u64, f: u64, r: (u64, u64)|
            call_ensures(take, (a, h, f), r) ==> r.0 == h - least(a, h) && r.1 == f + least(a, h),
    ensures
        after_ants.len() == ants.len(),
        after_food.len() == food.len(),
        !taken ==> after_ants == ants && after_food == food,
        (forall|j: int| 0 <= j < food.len() ==> key((#[trigger] food[j]).position, at) is None)
            ==> !taken,
        first_answer(ants, id, false) is None ==> !taken,
        first_answer(ants, id, false) matches Some(k) && !reach(ants[k].position, at) ==> !taken,
        taken ==> exists|k: int, j: int|
            #![trigger ants[k], food[j]]
            {
                &&& 0 <= k < ants.len()
                &&& ants[k].id == id
                &&& forall|m: int| 0 <= m < k ==> (#[trigger] ants[m]).id != id
                &&& reach(ants[k].position, at)
                &&& is_closest(food.map_values(|f: FoodItem<P, u64>| key(f.position, at)), j)
                &&& after_food == food.update(
                    j,
                    FoodItem { amount: (food[j].amount - least(amount, food[j].amount)) as u64, ..food[j] },
                )
                &&& after_ants[k].food == ants[k].food + least(amount, food[j].amount)
                &&& after_food[j].amount + after_ants[k].food == food[j].amount + ants[k].food
                &&& after_ants == ants.update(k, Ant { food: after_ants[k].food, ..ants[k] })
            },
{
    let keyed = food.map_values(|f: FoodItem<P, u64>| key(f.position, at));
    lemma_first_answer_in_range(ants, id, false);
    match first_answer(ants, id, false) {
        None => {},
        Some(k) => {
            let reach = choose|reach: bool|
                call_ensures(in_reach, (ants[k].position, at), reach) && if !reach {
                    !taken && after_ants == ants && after_food == food
                } else {
                    exists|keys: Seq<Option<u64>>|
                        keys.len() == food.len() && (forall|j: int|
                            0 <= j < food.len() ==> call_ensures(
                                food_key,
                                (food[j].position, at),
                                #[trigger] keys[j],
                            )) && took_from_heap(
                            ants,
                            food,
                            k,
                            keys,
                            amount,
                            take,
                            taken,
                            after_ants,
                            after_food,
                        )
                };
            if reach {
                let keys = choose|keys: Seq<Option<u64>>|
                    keys.len() == food.len() && (forall|j: int|
                        0 <= j < food.len() ==> call_ensures(
                            food_key,
                            (food[j].position, at),
                            #[trigger] keys[j],
                        )) && took_from_heap(
                        ants,
                        food,
                        k,
                        keys,
                        amount,
                        take,
                        taken,
                        after_ants,
                        after_food,
                    );
                assert(keys =~= keyed) by {
                    assert forall|j: int| 0 <= j < keys.len() implies keys[j] == keyed[j] by {
                        assert(call_ensures(food_key, (food[j].position, at), keys[j]));
                    }
                }
                match spec_closest(keys) {
                    None => {},
                    Some(j) => {
                        assert(is_closest(keys, j));
                        let r = choose|r: (u64, u64)|
                            call_ensures(take, (amount, food[j].amount, ants[k].food), r)
                                && after_food == food.update(j, FoodItem { amount: r.0, ..food[j] })
                                && after_ants == ants.update(k, Ant { food: r.1, ..ants[k] });
                        assert(ants[k] == ants[k] && food[j] == food[j]);
                        assert(after_ants[k].food == r.1);
                        assert(after_ants == ants.update(k, Ant { food: after_ants[k].food, ..ants[k] }));
                    },
                }
                if forall|j: int| 0 <= j < food.len() ==> key((#[trigger] food[j]).position, at) is None {
                    assert(!exists|c: int| is_closest(keys, c)) by {
                        assert forall|c: int| !is_closest(keys, c) by {
                            if 0 <= c < keys.len() {
                                assert(food[c].position == food[c].position);
                            }
                        }
                    }
                }
            }
        },
    }
}

/// Dropping food hands over part of what the ant carries. Say `give` drops
/// the smaller of the asked amount and the ant's food, and the ant keeps the
/// rest. Then a drop that succeeds by an ant with the given id leaves a new
/// heap of exactly that smaller amount at the named place, and the ant's food
/// and the new heap together make what the ant carried before; no other ant
/// or heap changes. Without such an ant the drop succeeds and changes
/// nothing; a refused drop changes nothing; with such an ant, the drop
/// succeeds exactly when the named place is within its reach.
pub proof fn dropping_food_keeps_the_total<P, FR: Fn(P, P) -> bool, FG: Fn(u64, u64) -> (u64, u64)>(
    ants: Seq<Ant<P, u64>>,
    food: Seq<FoodItem<P, u64>>,
    id: usize,
    at: P,
    amount: u64,
    in_reach: FR,
    give: FG,
    reach: spec_fn(P, P) -> bool,
    done: bool,
    after_ants: Seq<Ant<P, u64>>,
    after_food: Seq<FoodItem<P, u64>>,
)
    requires
        dropped_food(ants, food, id, at, amount, in_reach, give, done, after_ants, after_food),
        forall|p: P, t: P, r: bool| call_ensures(in_reach, (p, t), r) ==> r == reach(p, t),
        forall|a: u64, f: u64, r: (u64, u64)|
            call_ensures(give, (a, f), r) ==> r.1 == least(a, f) && r.0 + r.1 == f,
    ensures
        after_ants.len() == ants.len(),
        first_answer(ants, id, false) is None ==> done && after_ants == ants && after_food == food,
        !done ==> after_ants == ants && after_food == food,
        first_answer(ants, id, false) matches Some(k) ==> (done <==> reach(ants[k].position, at)),
        done && first_answer(ants, id, false) is Some ==> exists|k: int|
            #![trigger ants[k]]
            {
                &&& 0 <= k < ants.len()
                &&& ants[k].id == id
                &&& forall|m: int| 0 <= m < k ==> (#[trigger] ants[m]).id != id
                &&& after_food == food.push(FoodItem { position: at, amount: least(amount, ants[k].food) })
                &&& after_ants[k].food + least(amount, ants[k].food) == ants[k].food
                &&& after_ants == ants.update(k, Ant { food: after_ants[k].food, ..ants[k] })
            },
{
    lemma_first_answer_in_range(ants, id, false);
    match first_answer(ants, id, false) {
        None => {},
        Some(k) => {
            let reach = choose|reach: bool|
                call_ensures(in_reach, (ants[k].position, at), reach) && if !reach {
                    !done && after_ants == ants && after_food == food
                } else {
                    done && exists|r: (u64, u64)|
                        call_ensures(give, (amount, ants[k].food), r) && after_ants == ants.update(
                            k,
                            Ant { food: r.0, ..ants[k] },
                        ) && after_food == food.push(FoodItem { position: at, amount: r.1 })
                };
            if reach {
                let r = choose|r: (u64, u64)|
                    call_ensures(give, (amount, ants[k].food), r) && after_ants == ants.update(
                        k,
                        Ant { food: r.0, ..ants[k] },
                    ) && after_food == food.push(FoodItem { position: at, amount: r.1 });
                assert(ants[k] == ants[k]);
                assert(after_ants[k].food == r.0);
            }
        },
    }
}

/// Walking: say `travel` always answers as `go`. Then the first ant with the
/// given id takes the position and food `go` gives for its position, its
/// food and the target, and keeps everything else; no other ant changes.
/// Without such an ant nothing changes.
pub proof fn walking_law<P, S, FT: Fn(P, S, P) -> (P, S)>(
    ants: Seq<Ant<P, S>>,
    id: usize,
    target: P,
    travel: FT,
    go: spec_fn(P, S, P) -> (P, S),
    after: Seq<Ant<P, S>>,
)
    requires
        travelled(ants, id, target, travel, after),
        forall|p: P, f: S, t: P, r: (P, S)| call_ensures(travel, (p, f, t), r) ==> r == go(p, f, t),
    ensures
        after.len() == ants.len(),
        (forall|m: int| 0 <= m < ants.len() ==> (#[trigger] ants[m]).id != id) ==> after == ants,
        forall|k: int|
            0 <= k < ants.len() && (#[trigger] ants[k]).id == id && (forall|m: int|
                0 <= m < k ==> (#[trigger] ants[m]).id != id) ==> after == ants.update(
                k,
                Ant {
                    position: go(ants[k].position, ants[k].food, target).0,
                    food: go(ants[k].position, ants[k].food, target).1,
                    ..ants[k]
                },
            ),
{
    lemma_first_answer_in_range(ants, id, false);
    assert forall|k: int|
        0 <= k < ants.len() && (#[trigger] ants[k]).id == id && (forall|m: int|
            0 <= m < k ==> (#[trigger] ants[m]).id != id) implies after == ants.update(
        k,
        Ant {
            position: go(ants[k].position, ants[k].food, target).0,
            food: go(ants[k].position, ants[k].food, target).1,
            ..ants[k]
        },
    ) by {
        assert(is_first_answer(ants, id, false, k));
        let c = choose|c: int| is_first_answer(ants, id, false, c);
        lemma_first_answer_unique(ants, id, false, k, c);
    }
    if forall|m: int| 0 <= m < ants.len() ==> (#[trigger] ants[m]).id != id {
        assert forall|c: int| !is_first_answer(ants, id, false, c) by {
            if 0 <= c < ants.len() {
                assert(ants[c].id != id);
            }
        }
    }
}

/// Hatching: say `pay` always answers as `charge`. Then a hatch succeeds
/// exactly when some queen has the given id and `charge` accepts the count
/// for her food. The first such queen keeps what `charge` leaves her, her
/// hatch counter starts over, and `count` workers follow the other ants:
/// each at the queen's position, knowing where she is, carrying `start_food`,
/// with ids counting on from the number of ants before. Ants before keep
/// everything else; a failed hatch changes nothing.
pub proof fn hatching_law<P, S, FP: Fn(usize, S) -> Option<S>>(
    before: Seq<Ant<P, S>>,
    queen_id: usize,
    count: usize,
    start_food: S,
    pay: FP,
    charge: spec_fn(usize, S) -> Option<S>,
    hatched: bool,
    after: Seq<Ant<P, S>>,
)
    requires
        first_answer(before, queen_id, true) is None ==> !hatched && after == before,
        first_answer(before, queen_id, true) matches Some(q) ==> paid_hatch(
            before,
            q,
            count,
            start_food,
            pay,
            hatched,
            after,
        ),
        forall|n: usize, f: S, r: Option<S>| call_ensures(pay, (n, f), r) ==> r == charge(n, f),
    ensures
        !hatched ==> after == before,
        hatched <==> exists|q: int|
            0 <= q < before.len() && (#[trigger] before[q]).id == queen_id && before[q].queen && charge(
                count,
                before[q].food,
            ) is Some && forall|m: int|
                0 <= m < q ==> !((#[trigger] before[m]).id == queen_id && before[m].queen),
        hatched ==> exists|q: int|
            #![trigger before[q]]
            {
                &&& 0 <= q < before.len()
                &&& before[q].id == queen_id
                &&& before[q].queen
                &&& after.len() == before.len() + count
                &&& charge(count, before[q].food) == Some(after[q].food)
                &&& after[q].steps_since_last_hatch == 0
                &&& after[q].id == before[q].id && after[q].queen && after[q].position == before[q].position
                    && after[q].memory == before[q].memory
                &&& forall|m: int| 0 <= m < before.len() && m != q ==> #[trigger] after[m] == before[m]
                &&& forall|m: int|
                    before.len() <= m < after.len() ==> {
                        &&& (#[trigger] after[m]).id == m as usize
                        &&& !after[m].queen
                        &&& after[m].position == before[q].position
                        &&& after[m].food == start_food
                        &&& after[m].memory.last_seen_queen == Some(before[q].position)
                        &&& after[m].steps_since_last_hatch == 0
                    }
            },
{
    lemma_first_answer_in_range(before, queen_id, true);
    match first_answer(before, queen_id, true) {
        None => {
            assert forall|q: int|
                0 <= q < before.len() && (#[trigger] before[q]).id == queen_id && before[q].queen
                    && charge(count, before[q].food) is Some implies !(forall|m: int|
                0 <= m < q ==> !((#[trigger] before[m]).id == queen_id && before[m].queen)) by {
                if forall|m: int| 0 <= m < q ==> !((#[trigger] before[m]).id == queen_id && before[m].queen) {
                    assert(is_first_answer(before, queen_id, true, q));
                }
            }
        },
        Some(q) => {
            let paid = choose|paid: Option<S>|
                call_ensures(pay, (count, before[q].food), paid) && hatch_outcome(
                    before,
                    q,
                    count as nat,
                    start_food,
                    paid,
                    hatched,
                    after,
                );
            assert forall|c: int|
                0 <= c < before.len() && (#[trigger] before[c]).id == queen_id && before[c].queen
                    && charge(count, before[c].food) is Some && (forall|m: int|
                    0 <= m < c ==> !((#[trigger] before[m]).id == queen_id && before[m].queen)) implies c
                == q by {
                assert(is_first_answer(before, queen_id, true, c));
                lemma_first_answer_unique(before, queen_id, true, c, q);
            }
            assert(before[q] == before[q]);
            if hatched {
                let rest = paid->0;
                assert(after == brood(before, q, count as nat, start_food, rest));
                assert(after.len() == before.len() + count);
                assert(after[q].food == rest);
                assert(charge(count, before[q].food) == Some(after[q].food));
                assert forall|m: int| 0 <= m < before.len() && m != q implies #[trigger] after[m] == before[m] by {}
                assert forall|m: int| before.len() <= m < after.len() implies {
                    &&& (#[trigger] after[m]).id == m as usize
                    &&& !after[m].queen
                    &&& after[m].position == before[q].position
                    &&& after[m].food == start_food
                    &&& after[m].memory.last_seen_queen == Some(before[q].position)
                    &&& after[m].steps_since_last_hatch == 0
                } by {
                    assert(after[m] == newborn(m as usize, before[q].position, before[q].position, start_food));
                }
            }
        },
    }
}

/// Each item paired with its flag.
pub open spec fn tagged<T>(items: Seq<T>, flags: Seq<bool>) -> Seq<(T, bool)> {
    Seq::new(items.len(), |k: int| (items[k], flags[k]))
}

/// Each item paired with the same flag.
pub open spec fn tag_all<T>(items: Seq<T>, flag: bool) -> Seq<(T, bool)> {
    items.map_values(|item: T| (item, flag))
}

/// The items whose flag is set, in their order.
pub open spec fn kept<T>(items: Seq<T>, keep: Seq<bool>) -> Seq<T>
    decreases items.len(),
{
    if items.len() == 0 {
        Seq::empty()
    } else {
        let rest = kept(items.drop_last(), keep.take(items.len() - 1));
        if keep[items.len() - 1] {
            rest.push(items.last())
        } else {
            rest
        }
    }
}

/// The starved ants taken out of `items` by a sweep from position `i` on:
/// a starved ant is taken out and the last ant moves into its place, to be
/// looked at next; an ant that did not starve stays where it is. The result is
/// the ants that stay, in their final order, and the ants taken out, in the
/// order in which they were taken out.
pub open spec fn sweep<T>(items: Seq<T>, starved: Seq<bool>, i: int) -> (Seq<T>, Seq<T>)
    decreases items.len() - i,
{
    if i < 0 || i >= items.len() || starved.len() != items.len() {
        (items, Seq::empty())
    } else if starved[i] {
        let rest = sweep(
            items.update(i, items.last()).drop_last(),
            starved.update(i, starved.last()).drop_last(),
            i,
        );
        (rest.0, seq![items[i]] + rest.1)
    } else {
        sweep(items, starved, i + 1)
    }
}

proof fn lemma_sweep_keeps_count<T>(items: Seq<T>, starved: Seq<bool>, i: int)
    ensures
        sweep(items, starved, i).0.len() + sweep(items, starved, i).1.len() == items.len(),
    decreases items.len() - i,
{
    if i < 0 || i >= items.len() || starved.len() != items.len() {
    } else if starved[i] {
        lemma_sweep_keeps_count(
            items.update(i, items.last()).drop_last(),
            starved.update(i, starved.last()).drop_last(),
            i,
        );
    } else {
        lemma_sweep_keeps_count(items, starved, i + 1);
    }
}

/// One for a queen, zero for a worker.
pub open spec fn queen_weight<P, S>(ant: Ant<P, S>) -> nat {
    if ant.queen {
        1nat
    } else {
        0nat
    }
}

/// The number of queens among the ants.
pub open spec fn count_queens<P, S>(ants: Seq<Ant<P, S>>) -> nat
    decreases ants.len(),
{
    if ants.len() == 0 {
        0
    } else {
        count_queens(ants.drop_last()) + queen_weight(ants.last())
    }
}

proof fn lemma_count_queens_concat<P, S>(a: Seq<Ant<P, S>>, b: Seq<Ant<P, S>>)
    ensures
        count_queens(a + b) == count_queens(a) + count_queens(b),
    decreases b.len(),
{
    if b.len() == 0 {
        assert(a + b =~= a);
    } else {
        lemma_count_queens_concat(a, b.drop_last());
        assert((a + b).drop_last() =~= a + b.drop_last());
    }
}

proof fn lemma_count_queens_same_roles<P, S>(a: Seq<Ant<P, S>>, b: Seq<Ant<P, S>>)
    requires
        a.len() == b.len(),
        forall|k: int| 0 <= k < a.len() ==> #[trigger] a[k].queen == b[k].queen,
    ensures
        count_queens(a) == count_queens(b),
    decreases a.len(),
{
    if a.len() > 0 {
        lemma_count_queens_same_roles(a.drop_last(), b.drop_last());
    }
}

proof fn lemma_count_queens_update<P, S>(ants: Seq<Ant<P, S>>, i: int, ant: Ant<P, S>)
    requires
        0 <= i < ants.len(),
    ensures
        count_queens(ants.update(i, ant)) + queen_weight(ants[i]) == count_queens(ants) + queen_weight(ant),
    decreases ants.len(),
{
    let u = ants.update(i, ant);
    if i == ants.len() - 1 {
        assert(u.drop_last() =~= ants.drop_last());
    } else {
        lemma_count_queens_update(ants.drop_last(), i, ant);
        assert(u.drop_last() =~= ants.drop_last().update(i, ant));
    }
}

proof fn lemma_no_queens<P, S>(ants: Seq<Ant<P, S>>)
    requires
        forall|k: int| 0 <= k < ants.len() ==> !(#[trigger] ants[k]).queen,
    ensures
        count_queens(ants) == 0,
    decreases ants.len(),
{
    if ants.len() > 0 {
        lemma_no_queens(ants.drop_last());
    }
}

/// A sweep neither makes nor loses a queen: the queens that stay and the queens
/// taken out are all the queens there were.
proof fn lemma_sweep_keeps_queens<P, S>(items: Seq<Ant<P, S>>, starved: Seq<bool>, i: int)
    ensures
        count_queens(sweep(items, starved, i).0) + count_queens(sweep(items, starved, i).1)
            == count_queens(items),
    decreases items.len() - i,
{
    if i < 0 || i >= items.len() || starved.len() != items.len() {
        assert(count_queens(Seq::<Ant<P, S>>::empty()) == 0);
    } else if starved[i] {
        let u = items.update(i, items.last());
        let t = u.drop_last();
        lemma_sweep_keeps_queens(t, starved.update(i, starved.last()).drop_last(), i);
        let rest = sweep(t, starved.update(i, starved.last()).drop_last(), i);
        lemma_count_queens_concat(seq![items[i]], rest.1);
        assert(seq![items[i]].drop_last() =~= Seq::<Ant<P, S>>::empty());
        lemma_count_queens_update(items, i, items.last());
        assert(u.last() == items.last());
        assert(count_queens(u) == count_queens(t) + queen_weight(u.last()));
        assert(count_queens(seq![items[i]]) == queen_weight(items[i])) by {
            let one = seq![items[i]];
            assert(one.drop_last() =~= Seq::<Ant<P, S>>::empty());
            assert(one.last() == items[i]);
            assert(count_queens(one.drop_last()) == 0);
        }
        assert(sweep(items, starved, i) == (rest.0, seq![items[i]] + rest.1));
    } else {
        lemma_sweep_keeps_queens(items, starved, i + 1);
    }
}

/// A hatch neither makes nor loses a queen: the newborns are workers.
proof fn lemma_brood_keeps_queens<P, S>(ants: Seq<Ant<P, S>>, q: int, count: nat, start_food: S, rest: S)
    requires
        0 <= q < ants.len(),
    ensures
        count_queens(brood(ants, q, count, start_food, rest)) == count_queens(ants),
{
    let queen = ants[q];
    let paid = ants.update(q, Ant { food: rest, steps_since_last_hatch: 0, ..queen });
    let young = Seq::new(
        count,
        |k: int| newborn((ants.len() + k) as usize, queen.position, queen.position, start_food),
    );
    lemma_count_queens_concat(paid, young);
    lemma_no_queens(young);
    lemma_count_queens_same_roles(paid, ants);
}

proof fn lemma_swap_remove_multiset<T>(s: Seq<T>, i: int)
    requires
        0 <= i < s.len(),
    ensures
        s.update(i, s.last()).drop_last().to_multiset() =~= s.to_multiset().remove(s[i]),
{
    broadcast use vstd::seq_lib::group_to_multiset_ensures, vstd::multiset::group_multiset_axioms;

    let t = s.update(i, s.last());
    assert(t.drop_last() =~= t.remove(t.len() - 1));
    assert(t.to_multiset() == s.to_multiset().insert(s.last()).remove(s[i]));
    assert(t.remove(t.len() - 1).to_multiset() == t.to_multiset().remove(t[t.len() - 1]));
    assert(t[t.len() - 1] == s.last() || (i == s.len() - 1 && t[t.len() - 1] == s[i]));
    assert(s.to_multiset().count(s[i]) > 0) by {
        assert(s.contains(s[i]));
    }
}

proof fn lemma_count_queens_push<P, S>(ants: Seq<Ant<P, S>>, ant: Ant<P, S>)
    ensures
        count_queens(ants.push(ant)) == count_queens(ants) + queen_weight(ant),
{
    assert(ants.push(ant).drop_last() =~= ants);
}

proof fn lemma_no_queens_among_newborns<P, S>(
    worker_positions: Seq<P>,
    queen_position: P,
    start_food: S,
    n: nat,
)
    requires
        n <= worker_positions.len(),
    ensures
        count_queens(
            Seq::new(n, |i: int| newborn(i as usize, worker_positions[i], queen_position, start_food)),
        ) == 0,
    decreases n,
{
    let ws = Seq::new(n, |i: int| newborn(i as usize, worker_positions[i], queen_position, start_food));
    if n > 0 {
        lemma_no_queens_among_newborns(worker_positions, queen_position, start_food, (n - 1) as nat);
        assert(ws.drop_last() =~= Seq::new(
            (n - 1) as nat,
            |i: int| newborn(i as usize, worker_positions[i], queen_position, start_food),
        ));
    }
}

/// A founded colony has exactly one queen, which comes last, and one worker per
/// given position; every ant's id is its position in the colony, so no two ants
/// share an id.
pub proof fn founded_colony_roster<P, S>(
    worker_positions: Seq<P>,
    queen_position: P,
    start_food: S,
    queen_food: S,
)
    requires
        worker_positions.len() < usize::MAX,
    ensures
        ({
            let ants = founding_ants(worker_positions, queen_position, start_food, queen_food);
            &&& ants.len() == worker_positions.len() + 1
            &&& count_queens(ants) == 1
            &&& forall|k: int| 0 <= k < ants.len() ==> #[trigger] ants[k].id == k
            &&& forall|k: int| 0 <= k < ants.len() ==> (#[trigger] ants[k].queen <==> k == worker_positions.len())
        }),
{
    let n = worker_positions.len();
    let workers = Seq::new(n, |i: int| newborn(i as usize, worker_positions[i], queen_position, start_food));
    lemma_no_queens_among_newborns(worker_positions, queen_position, start_food, n);
    lemma_count_queens_push(workers, founding_queen(n as usize, queen_position, queen_food));
}

/// When the ants' ids are distinct and each is below the number of ants, a
/// hatch keeps them so: the newborns' ids count on from the number of ants.
pub proof fn hatch_keeps_ids_distinct<P, S>(
    ants: Seq<Ant<P, S>>,
    q: int,
    count: nat,
    start_food: S,
    rest: S,
)
    requires
        0 <= q < ants.len(),
        forall|j: int, k: int| 0 <= j < k < ants.len() ==> #[trigger] ants[j].id != #[trigger] ants[k].id,
        forall|k: int| 0 <= k < ants.len() ==> #[trigger] ants[k].id < ants.len(),
        ants.len() + count <= usize::MAX,
    ensures
        ({
            let after = brood(ants, q, count, start_food, rest);
            &&& after.len() == ants.len() + count
            &&& forall|j: int, k: int| 0 <= j < k < after.len() ==> #[trigger] after[j].id != #[trigger] after[k].id
            &&& forall|k: int| 0 <= k < after.len() ==> #[trigger] after[k].id < after.len()
        }),
{
    let after = brood(ants, q, count, start_food, rest);
    assert forall|j: int, k: int| 0 <= j < k < after.len() implies #[trigger] after[j].id != #[trigger] after[k].id by {
        if k < ants.len() {
            assert(after[j].id == ants[j].id);
            assert(after[k].id == ants[k].id);
        } else if j < ants.len() {
            assert(after[j].id == ants[j].id);
            assert(after[k].id == ants.len() + (k - ants.len()));
        } else {
            assert(after[j].id == ants.len() + (j - ants.len()));
            assert(after[k].id == ants.len() + (k - ants.len()));
        }
    }
    assert forall|k: int| 0 <= k < after.len() implies #[trigger] after[k].id < after.len() by {
        if k < ants.len() {
            assert(after[k].id == ants[k].id);
        } else {
            assert(after[k].id == ants.len() + (k - ants.len()));
        }
    }
}

/// Some slot held `ant` with its starved mark equal to `flag`.
pub open spec fn came_from<P, S>(before: Seq<Ant<P, S>>, starved: Seq<bool>, ant: Ant<P, S>, flag: bool) -> bool {
    exists|k: int| 0 <= k < before.len() && before[k] == ant && starved[k] == flag
}

/// What `end_step` states of the ants, read slot by slot: every ant that stays
/// stood in a slot not marked starved, every ant it buries stood in a slot
/// marked starved, and together they are as many as there were ants.
pub proof fn burial_is_exact<P, S>(
    before: Seq<Ant<P, S>>,
    starved: Seq<bool>,
    survivors: Seq<Ant<P, S>>,
    buried: Seq<Ant<P, S>>,
)
    requires
        starved.len() == before.len(),
        tagged(before, starved).to_multiset() == tag_all(survivors, false).to_multiset().add(
            tag_all(buried, true).to_multiset(),
        ),
    ensures
        survivors.len() + buried.len() == before.len(),
        forall|i: int| 0 <= i < survivors.len() ==> came_from(before, starved, #[trigger] survivors[i], false),
        forall|i: int| 0 <= i < buried.len() ==> came_from(before, starved, #[trigger] buried[i], true),
{
    broadcast use vstd::seq_lib::group_to_multiset_ensures, vstd::multiset::group_multiset_axioms;

    let t = tagged(before, starved);
    let a = tag_all(survivors, false);
    let b = tag_all(buried, true);
    assert(t.to_multiset().len() == a.to_multiset().len() + b.to_multiset().len());
    assert forall|i: int| 0 <= i < survivors.len() implies came_from(before, starved, #[trigger] survivors[i], false) by {
        let x = (survivors[i], false);
        assert(a[i] == x);
        assert(a.contains(x));
        vstd::seq_lib::to_multiset_contains(a, x);
        vstd::seq_lib::to_multiset_contains(t, x);
        let k = choose|k: int| 0 <= k < t.len() && t[k] == x;
        assert(before[k] == survivors[i] && starved[k] == false);
    }
    assert forall|i: int| 0 <= i < buried.len() implies came_from(before, starved, #[trigger] buried[i], true) by {
        let x = (buried[i], true);
        assert(b[i] == x);
        assert(b.contains(x));
        vstd::seq_lib::to_multiset_contains(b, x);
        vstd::seq_lib::to_multiset_contains(t, x);
        let k = choose|k: int| 0 <= k < t.len() && t[k] == x;
        assert(before[k] == buried[i] && starved[k] == true);
    }
}

/// There is at most one first answer to a request.
pub proof fn lemma_first_answer_unique<P, S>(ants: Seq<Ant<P, S>>, id: usize, queen_only: bool, k: int, l: int)
    requires
        is_first_answer(ants, id, queen_only, k),
        is_first_answer(ants, id, queen_only, l),
    ensures
        k == l,
{
    if k < l {
        assert(!answers(ants[k], id, queen_only));
    } else if l < k {
        assert(!answers(ants[l], id, queen_only));
    }
}

fn hatchling<P, S>(id: usize, position: P, queen_position: P, food: S) -> (ant: Ant<P, S>)
    ensures
        ant == newborn(id, position, queen_position, food),
{
    Ant {
        id,
        position,
        queen: false,
        food,
        steps_since_last_hatch: 0,
        memory: Memory {
            wandering_direction: None,
            explore_steps_remaining: 0,
            last_seen_food: None,
            last_seen_queen: Some(queen_position),
        },
    }
}

impl<C, P, S> World<C, P, S> {
    /// Founds a colony: one worker at each of `worker_positions`, each with
    /// `start_food` and knowing where the queen is, and the queen at
    /// `queen_position` with `queen_food`, ready to hatch.
    pub fn founded(
        config: C,
        food: Vec<FoodItem<P, S>>,
        worker_positions: Vec<P>,
        queen_position: P,
        start_food: S,
        queen_food: S,
    ) -> (world: Self) where P: Copy, S: Copy
        requires
            worker_positions.len() < usize::MAX,
        ensures
            world.config == config,
            world.food == food,
            world.ants@ == founding_ants(worker_positions@, queen_position, start_food, queen_food),
            world.cemetery@ == Seq::<Ant<P, S>>::empty(),
            world.step_count == 0,
            world.next_id == worker_positions.len() + 1,
    {
        let n = worker_positions.len();
        let mut ants: Vec<Ant<P, S>> = Vec::new();
        let mut i: usize = 0;
        while i < n
            invariant
                n == worker_positions.len(),
                i <= n,
                ants@ =~= Seq::new(
                    i as nat,
                    |k: int| newborn(k as usize, worker_positions@[k], queen_position, start_food),
                ),
            decreases n - i,
        {
            ants.push(hatchling(i, worker_positions[i], queen_position, start_food));
            i = i + 1;
        }
        ants.push(
            Ant {
                id: n,
                position: queen_position,
                queen: true,
                food: queen_food,
                steps_since_last_hatch: QUEEN_HATCH_COOLDOWN,
                memory: Memory {
                    wandering_direction: None,
                    explore_steps_remaining: 0,
                    last_seen_food: None,
                    last_seen_queen: None,
                },
            },
        );
        assert(ants@ =~= founding_ants(worker_positions@, queen_position, start_food, queen_food));
        World { config, food, ants, cemetery: Vec::new(), step_count: 0, next_id: n + 1 }
    }

    fn search(&self, id: usize, queen_only: bool) -> (found: Option<usize>)
        ensures
            match found {
                Some(k) => first_answer(self.ants@, id, queen_only) == Some(k as int),
                None => first_answer(self.ants@, id, queen_only) is None,
            },
            found matches Some(k) ==> is_first_answer(self.ants@, id, queen_only, k as int),
            found is None ==> forall|j: int|
                0 <= j < self.ants.len() ==> !answers(#[trigger] self.ants@[j], id, queen_only),
    {
        let mut k: usize = 0;
        while k < self.ants.len()
            invariant
                k <= self.ants.len(),
                forall|j: int| 0 <= j < k ==> !answers(#[trigger] self.ants@[j], id, queen_only),
            decreases self.ants.len() - k,
        {
            let ant = &self.ants[k];
            if ant.id == id && (!queen_only || ant.queen) {
                proof {
                    assert(is_first_answer(self.ants@, id, queen_only, k as int));
                    let c = choose|c: int| is_first_answer(self.ants@, id, queen_only, c);
                    lemma_first_answer_unique(self.ants@, id, queen_only, k as int, c);
                }
                return Some(k);
            }
            k = k + 1;
        }
        proof {
            assert forall|c: int| !is_first_answer(self.ants@, id, queen_only, c) by {
                if 0 <= c < self.ants@.len() {
                    assert(!answers(self.ants@[c], id, queen_only));
                }
            }
        }
        None
    }

    /// The position of the first ant with the given id.
    pub fn find_ant(&self, id: usize) -> (found: Option<usize>)
        ensures
            match found {
                Some(k) => first_answer(self.ants@, id, false) == Some(k as int),
                None => first_answer(self.ants@, id, false) is None,
            },
            found matches Some(k) ==> k < self.ants.len() && self.ants@[k as int].id == id,
            found is None <==> forall|j: int| 0 <= j < self.ants.len() ==> #[trigger] self.ants@[j].id != id,
    {
        let found = self.search(id, false);
        proof {
            if found is None {
                assert forall|j: int| 0 <= j < self.ants.len() implies #[trigger] self.ants@[j].id != id by {
                    assert(!answers(self.ants@[j], id, false));
                }
            }
        }
        found
    }

    /// The position of the first ant that has the given id and is a queen.
    pub fn find_queen(&self, id: usize) -> (found: Option<usize>)
        ensures
            match found {
                Some(k) => first_answer(self.ants@, id, true) == Some(k as int),
                None => first_answer(self.ants@, id, true) is None,
            },
            found matches Some(k) ==> k < self.ants.len() && self.ants@[k as int].id == id
                && self.ants@[k as int].queen,
    {
        self.search(id, true)
    }

    /// The queen with id `queen_id` hatches `count` workers, each carrying
    /// `start_food`, when `pay`, given the count and her food, says what she
    /// has left after paying for them. Without such a queen, or when `pay`
    /// refuses, nothing changes and the answer is `false`.
    pub fn hatch<FP>(&mut self, queen_id: usize, count: usize, start_food: S, pay: &FP) -> (hatched: bool) where
        P: Copy,
        S: Copy,
        FP: Fn(usize, S) -> Option<S>,

        requires
            first_answer(old(self).ants@, queen_id, true) is Some ==> old(self).ants.len() + count
                <= usize::MAX,
            forall|n: usize, food: S| call_requires(*pay, (n, food)),
        ensures
            final(self).config == old(self).config,
            final(self).food@ == old(self).food@,
            final(self).cemetery@ == old(self).cemetery@,
            final(self).step_count == old(self).step_count,
            final(self).next_id == old(self).next_id,
            first_answer(old(self).ants@, queen_id, true) is None ==> !hatched && final(self).ants@
                == old(self).ants@,
            first_answer(old(self).ants@, queen_id, true) matches Some(q) ==> paid_hatch(
                old(self).ants@,
                q,
                count,
                start_food,
                *pay,
                hatched,
                final(self).ants@,
            ),
    {
        let q = match self.find_queen(queen_id) {
            Some(q) => q,
            None => return false,
        };
        let ghost before = self.ants@;
        let food = self.ants[q].food;
        let paid = pay(count, food);
        let rest = match paid {
            Some(rest) => rest,
            None => {
                assert(call_ensures(*pay, (count, before[q as int].food), paid) && hatch_outcome(
                    before,
                    q as int,
                    count as nat,
                    start_food,
                    paid,
                    false,
                    self.ants@,
                ));
                assert(paid_hatch(before, q as int, count, start_food, *pay, false, self.ants@));
                return false;
            },
        };
        self.ants[q].food = rest;
        self.ants[q].steps_since_last_hatch = 0;
        let queen_position = self.ants[q].position;
        let start_id = self.ants.len();
        let ghost paid_queen = self.ants@;
        assert(paid_queen =~= before.update(q as int, Ant { food: rest, steps_since_last_hatch: 0, ..before[q as int] }));
        let mut i: usize = 0;
        while i < count
            invariant
                i <= count,
                start_id == paid_queen.len(),
                start_id + count <= usize::MAX,
                queen_position == before[q as int].position,
                self.ants@ =~= paid_queen + Seq::new(
                    i as nat,
                    |k: int| newborn((start_id + k) as usize, queen_position, queen_position, start_food),
                ),
                self.config == old(self).config,
                self.food@ == old(self).food@,
                self.cemetery@ == old(self).cemetery@,
                self.step_count == old(self).step_count,
                self.next_id == old(self).next_id,
            decreases count - i,
        {
            self.ants.push(hatchling(start_id + i, queen_position, queen_position, start_food));
            i = i + 1;
        }
        assert(self.ants@ =~= brood(before, q as int, count as nat, start_food, rest));
        assert(call_ensures(*pay, (count, before[q as int].food), paid) && hatch_outcome(
            before,
            q as int,
            count as nat,
            start_food,
            paid,
            true,
            self.ants@,
        ));
        assert(paid_hatch(before, q as int, count, start_food, *pay, true, self.ants@));
        true
    }
    /// The ant with id `ant_id` walks toward `target`, ending where `travel`
    /// says and with the food it says. Always answers `true`, also when there
    /// is no such ant.
    pub fn move_ant<FT>(&mut self, ant_id: usize, target: P, travel: &FT) -> (moved: bool) where
        P: Copy,
        S: Copy,
        FT: Fn(P, S, P) -> (P, S),

        requires
            forall|p: P, s: S, t: P| call_requires(*travel, (p, s, t)),
        ensures
            moved,
            travelled(old(self).ants@, ant_id, target, *travel, final(self).ants@),
            final(self).food@ == old(self).food@,
            final(self).config == old(self).config,
            final(self).cemetery@ == old(self).cemetery@,
            final(self).step_count == old(self).step_count,
            final(self).next_id == old(self).next_id,
    {
        let ghost before = self.ants@;
        match self.find_ant(ant_id) {
            Some(k) => {
                let r = travel(self.ants[k].position, self.ants[k].food, target);
                self.ants[k].position = r.0;
                self.ants[k].food = r.1;
                assert(self.ants@ =~= before.update(
                    k as int,
                    Ant { position: r.0, food: r.1, ..before[k as int] },
                ));
            },
            None => {},
        }
        true
    }

    /// The ant with id `ant_id` takes up to `amount` of food from the heap at
    /// `at` closest to it, when `at` is within its reach (eating and picking up
    /// food both work this way).
    pub fn take_food<FR, FK, FX>(
        &mut self,
        ant_id: usize,
        at: P,
        amount: S,
        in_reach: &FR,
        food_key: &FK,
        take: &FX,
    ) -> (taken: bool) where
        P: Copy,
        S: Copy,
        FR: Fn(P, P) -> bool,
        FK: Fn(P, P) -> Option<u64>,
        FX: Fn(S, S, S) -> (S, S),

        requires
            forall|p: P, t: P| call_requires(*in_reach, (p, t)),
            forall|p: P, t: P| call_requires(*food_key, (p, t)),
            forall|a: S, h: S, f: S| call_requires(*take, (a, h, f)),
        ensures
            took_food(
                old(self).ants@,
                old(self).food@,
                ant_id,
                at,
                amount,
                *in_reach,
                *food_key,
                *take,
                taken,
                final(self).ants@,
                final(self).food@,
            ),
            final(self).config == old(self).config,
            final(self).cemetery@ == old(self).cemetery@,
            final(self).step_count == old(self).step_count,
            final(self).next_id == old(self).next_id,
    {
        let ghost ants0 = self.ants@;
        let ghost food0 = self.food@;
        let k = match self.find_ant(ant_id) {
            Some(k) => k,
            None => return false,
        };
        let reach = in_reach(self.ants[k].position, at);
        if !reach {
            assert(call_ensures(*in_reach, (ants0[k as int].position, at), reach));
            return false;
        }
        let mut keys: Vec<Option<u64>> = Vec::new();
        let mut j: usize = 0;
        while j < self.food.len()
            invariant
                j <= self.food.len(),
                keys.len() == j,
                self.food@ == food0,
                forall|p: P, t: P| call_requires(*food_key, (p, t)),
                forall|m: int|
                    0 <= m < j ==> call_ensures(*food_key, (food0[m].position, at), #[trigger] keys@[m]),
            decreases self.food.len() - j,
        {
            keys.push(food_key(self.food[j].position, at));
            j = j + 1;
        }
        match closest_food(&keys) {
            Some(h) => {
                let r = take(amount, self.food[h].amount, self.ants[k].food);
                self.food[h].amount = r.0;
                self.ants[k].food = r.1;
                assert(self.food@ =~= food0.update(h as int, FoodItem { amount: r.0, ..food0[h as int] }));
                assert(self.ants@ =~= ants0.update(k as int, Ant { food: r.1, ..ants0[k as int] }));
                assert(took_from_heap(ants0, food0, k as int, keys@, amount, *take, true, self.ants@, self.food@));
                assert(call_ensures(*in_reach, (ants0[k as int].position, at), reach));
                true
            },
            None => {
                assert(took_from_heap(ants0, food0, k as int, keys@, amount, *take, false, self.ants@, self.food@));
                assert(call_ensures(*in_reach, (ants0[k as int].position, at), reach));
                false
            },
        }
    }

    /// The ant with id `ant_id` drops food at `at`, when `at` is within its
    /// reach: it keeps what `give` says and a new heap of the rest lies at `at`.
    pub fn drop_food<FR, FG>(&mut self, ant_id: usize, at: P, amount: S, in_reach: &FR, give: &FG) -> (done: bool) where
        P: Copy,
        S: Copy,
        FR: Fn(P, P) -> bool,
        FG: Fn(S, S) -> (S, S),

        requires
            forall|p: P, t: P| call_requires(*in_reach, (p, t)),
            forall|a: S, f: S| call_requires(*give, (a, f)),
        ensures
            dropped_food(
                old(self).ants@,
                old(self).food@,
                ant_id,
                at,
                amount,
                *in_reach,
                *give,
                done,
                final(self).ants@,
                final(self).food@,
            ),
            final(self).config == old(self).config,
            final(self).cemetery@ == old(self).cemetery@,
            final(self).step_count == old(self).step_count,
            final(self).next_id == old(self).next_id,
    {
        let ghost ants0 = self.ants@;
        let ghost food0 = self.food@;
        match self.find_ant(ant_id) {
            Some(k) => {
                let reach = in_reach(self.ants[k].position, at);
                if !reach {
                    assert(call_ensures(*in_reach, (ants0[k as int].position, at), reach));
                    return false;
                }
                let r = give(amount, self.ants[k].food);
                self.ants[k].food = r.0;
                self.food.push(FoodItem { position: at, amount: r.1 });
                assert(self.ants@ =~= ants0.update(k as int, Ant { food: r.0, ..ants0[k as int] }));
                assert(call_ensures(*in_reach, (ants0[k as int].position, at), reach));
                assert(call_ensures(*give, (amount, ants0[k as int].food), r));
                true
            },
            None => true,
        }
    }

    /// The ant with id `ant_id` carries out `action`, the floating-point work
    /// done by `physics`; the answer says whether the action succeeded.
    /// Eating and picking up food both take food from the closest heap.
    /// Every ant keeps its id, its role and its place, and only a hatch adds ants.
    pub fn execute_action<FT, FR, FK, FX, FG, FP>(
        &mut self,
        ant_id: usize,
        action: &Action<P, S>,
        physics: &Physics<S, FT, FR, FK, FX, FG, FP>,
    ) -> (done: bool) where
        P: Copy,
        S: Copy,
        FT: Fn(P, S, P) -> (P, S),
        FR: Fn(P, P) -> bool,
        FK: Fn(P, P) -> Option<u64>,
        FX: Fn(S, S, S) -> (S, S),
        FG: Fn(S, S) -> (S, S),
        FP: Fn(usize, S) -> Option<S>,

        requires
            physics_ready(*physics),
            action is HatchAnts && first_answer(old(self).ants@, ant_id, true) is Some
                ==> old(self).ants.len() + hatch_request(*action) <= usize::MAX,
        ensures
            roles_kept(old(self).ants@, final(self).ants@),
            final(self).ants.len() == old(self).ants.len() + if done {
                hatch_request(*action)
            } else {
                0
            },
            count_queens(final(self).ants@) == count_queens(old(self).ants@),
            final(self).config == old(self).config,
            final(self).cemetery@ == old(self).cemetery@,
            final(self).step_count == old(self).step_count,
            final(self).next_id == old(self).next_id,
            executed(
                old(self).ants@,
                old(self).food@,
                ant_id,
                *action,
                *physics,
                done,
                final(self).ants@,
                final(self).food@,
            ),
    {
        let ghost ants0 = self.ants@;
        let ghost food0 = self.food@;
        let done = match action {
            Action::Move(target) => self.move_ant(ant_id, *target, &physics.travel),
            Action::Eat { at, amount } => self.take_food(
                ant_id,
                *at,
                *amount,
                &physics.in_reach,
                &physics.food_key,
                &physics.take,
            ),
            Action::PickFood { at, amount } => self.take_food(
                ant_id,
                *at,
                *amount,
                &physics.in_reach,
                &physics.food_key,
                &physics.take,
            ),
            Action::DropFood { at, amount } => self.drop_food(
                ant_id,
                *at,
                *amount,
                &physics.in_reach,
                &physics.give,
            ),
            Action::HatchAnts { count } => self.hatch(ant_id, *count, physics.start_food, &physics.pay),
            Action::Rest => true,
            Action::Pheromone { .. } => true,
        };
        proof {
            lemma_executed_keeps_roles(ants0, food0, ant_id, *action, *physics, done, self.ants@, self.food@);
        }
        done
    }

    fn drop_depleted(&mut self, left: &Vec<bool>) where P: Copy, S: Copy
        requires
            left.len() == old(self).food.len(),
        ensures
            final(self).food@ == kept(old(self).food@, left@),
            final(self).config == old(self).config,
            final(self).ants@ == old(self).ants@,
            final(self).cemetery@ == old(self).cemetery@,
            final(self).step_count == old(self).step_count,
            final(self).next_id == old(self).next_id,
    {
        let mut remaining: Vec<FoodItem<P, S>> = Vec::new();
        let mut i: usize = 0;
        while i < self.food.len()
            invariant
                i <= self.food.len(),
                left.len() == self.food.len(),
                remaining@ == kept(self.food@.take(i as int), left@.take(i as int)),
            decreases self.food.len() - i,
        {
            if left[i] {
                remaining.push(self.food[i]);
            }
            proof {
                assert(self.food@.take(i + 1).drop_last() =~= self.food@.take(i as int));
                assert(left@.take(i + 1).take(i as int) =~= left@.take(i as int));
            }
            i = i + 1;
        }
        assert(self.food@.take(i as int) =~= self.food@);
        assert(left@.take(i as int) =~= left@);
        self.food = remaining;
    }

    fn bury_starved(&mut self, starved: Vec<bool>)
        requires
            starved.len() == old(self).ants.len(),
        ensures
            final(self).food@ == old(self).food@,
            final(self).config == old(self).config,
            final(self).step_count == old(self).step_count,
            final(self).next_id == old(self).next_id,
            final(self).ants@ == sweep(old(self).ants@, starved@, 0).0,
            final(self).cemetery@ == old(self).cemetery@ + sweep(old(self).ants@, starved@, 0).1,
            tagged(old(self).ants@, starved@).to_multiset() == tag_all(final(self).ants@, false).to_multiset().add(
                tag_all(sweep(old(self).ants@, starved@, 0).1, true).to_multiset(),
            ),
    {
        broadcast use vstd::seq_lib::group_to_multiset_ensures, vstd::multiset::group_multiset_axioms;

        let ghost flags0 = starved@;
        let mut starved = starved;
        let ghost c0 = self.cemetery@.len() as int;
        let ghost t0 = tagged(self.ants@, starved@);
        let ghost whole = sweep(self.ants@, starved@, 0);
        assert(self.cemetery@.skip(c0) =~= Seq::<Ant<P, S>>::empty());
        assert(tag_all(self.cemetery@.skip(c0), true) =~= Seq::<(Ant<P, S>, bool)>::empty());
        assert(t0.to_multiset() =~= tagged(self.ants@, starved@).to_multiset().add(
            tag_all(self.cemetery@.skip(c0), true).to_multiset(),
        ));
        assert(self.cemetery@.take(c0) =~= old(self).cemetery@);
        assert(whole.1 =~= self.cemetery@.skip(c0) + sweep(self.ants@, starved@, 0).1);
        let mut i: usize = 0;
        while i < self.ants.len()
            invariant
                starved.len() == self.ants.len(),
                i <= self.ants.len(),
                forall|k: int| 0 <= k < i ==> !starved@[k],
                c0 == old(self).cemetery.len(),
                c0 <= self.cemetery.len(),
                self.cemetery@.take(c0) == old(self).cemetery@,
                whole == sweep(old(self).ants@, flags0, 0),
                whole.0 == sweep(self.ants@, starved@, i as int).0,
                whole.1 == self.cemetery@.skip(c0) + sweep(self.ants@, starved@, i as int).1,
                t0.to_multiset() == tagged(self.ants@, starved@).to_multiset().add(
                    tag_all(self.cemetery@.skip(c0), true).to_multiset(),
                ),
                self.config == old(self).config,
                self.food@ == old(self).food@,
                self.step_count == old(self).step_count,
                self.next_id == old(self).next_id,
            decreases self.ants.len() - i,
        {
            if starved[i] {
                let ghost ta = tagged(self.ants@, starved@);
                let ghost cem = self.cemetery@;
                let ghost before = self.ants@;
                let ghost flags = starved@;
                let dead = self.ants.swap_remove(i);
                let _ = starved.swap_remove(i);
                self.cemetery.push(dead);
                proof {
                    assert(self.ants@ =~= before.update(i as int, before.last()).drop_last());
                    assert(starved@ =~= flags.update(i as int, flags.last()).drop_last());
                    assert(sweep(before, flags, i as int).1 =~= seq![dead] + sweep(self.ants@, starved@, i as int).1);
                    assert(self.cemetery@.skip(c0) =~= cem.skip(c0).push(dead));
                    assert(whole.1 =~= self.cemetery@.skip(c0) + sweep(self.ants@, starved@, i as int).1);
                    assert(tagged(self.ants@, starved@) =~= ta.update(i as int, ta.last()).drop_last());
                    lemma_swap_remove_multiset(ta, i as int);
                    assert(ta[i as int] == (dead, true));
                    assert(tag_all(self.cemetery@.skip(c0), true) =~= tag_all(cem.skip(c0), true).push(
                        (dead, true),
                    ));
                    assert(ta.to_multiset().count((dead, true)) > 0) by {
                        assert(ta.contains(ta[i as int]));
                        vstd::seq_lib::to_multiset_contains(ta, (dead, true));
                    }
                    let ghost old_tags = tag_all(cem.skip(c0), true);
                    assert(tag_all(self.cemetery@.skip(c0), true).to_multiset() == old_tags.push(
                        (dead, true),
                    ).to_multiset());
                    vstd::seq_lib::to_multiset_build(old_tags, (dead, true));
                    assert(old_tags.push((dead, true)).to_multiset() == old_tags.to_multiset().insert(
                        (dead, true),
                    ));
                    assert(tagged(self.ants@, starved@).to_multiset() == ta.to_multiset().remove(
                        (dead, true),
                    ));
                    assert(t0.to_multiset() =~= tagged(self.ants@, starved@).to_multiset().add(
                        tag_all(self.cemetery@.skip(c0), true).to_multiset(),
                    ));
                    assert(self.cemetery@.take(c0) =~= cem.take(c0));
                }
            } else {
                i = i + 1;
            }
        }
        assert(tagged(self.ants@, starved@) =~= tag_all(self.ants@, false));
        assert(sweep(self.ants@, starved@, i as int).1 =~= Seq::<Ant<P, S>>::empty());
        assert(self.cemetery@ =~= self.cemetery@.take(c0) + self.cemetery@.skip(c0));
    }

    /// Ends a step: the food that is used up (`food_left` false) disappears,
    /// the ants that starved (`starved` true) are moved to the cemetery, and
    /// the step counter goes up by one. No ant is lost: each ant either stays
    /// or lies in the cemetery, and only starved ants are buried.
    pub fn end_step(&mut self, food_left: &Vec<bool>, starved: Vec<bool>) where P: Copy, S: Copy
        requires
            food_left.len() == old(self).food.len(),
            starved.len() == old(self).ants.len(),
            old(self).step_count < u32::MAX,
        ensures
            final(self).food@ == kept(old(self).food@, food_left@),
            final(self).step_count == old(self).step_count + 1,
            final(self).config == old(self).config,
            final(self).next_id == old(self).next_id,
            final(self).ants@ == sweep(old(self).ants@, starved@, 0).0,
            final(self).cemetery@ == old(self).cemetery@ + sweep(old(self).ants@, starved@, 0).1,
            tagged(old(self).ants@, starved@).to_multiset() == tag_all(final(self).ants@, false).to_multiset().add(
                tag_all(sweep(old(self).ants@, starved@, 0).1, true).to_multiset(),
            ),
            final(self).ants.len() + final(self).cemetery.len() == old(self).ants.len()
                + old(self).cemetery.len(),
    {
        proof {
            lemma_sweep_keeps_count(old(self).ants@, starved@, 0);
        }
        self.drop_depleted(food_left);
        self.bury_starved(starved);
        self.step_count = self.step_count + 1;
    }

    /// The actions the ants choose, all on this same world before any of
    /// them acts: `actions[i]` is what `pick` answers for the ant at
    /// position `i`.
    pub fn decide_all<FC>(&self, pick: &FC) -> (actions: Vec<Action<P, S>>) where
        FC: Fn(&World<C, P, S>, usize) -> Action<P, S>,

        requires
            forall|i: usize| i < self.ants.len() ==> call_requires(*pick, (self, i)),
        ensures
            actions.len() == self.ants.len(),
            forall|i: int|
                0 <= i < self.ants.len() ==> call_ensures(*pick, (self, i as usize), #[trigger] actions@[i]),
    {
        let mut actions: Vec<Action<P, S>> = Vec::new();
        let mut i: usize = 0;
        while i < self.ants.len()
            invariant
                i <= self.ants.len(),
                actions.len() == i,
                forall|k: usize| k < self.ants.len() ==> call_requires(*pick, (self, k)),
                forall|k: int| 0 <= k < i ==> call_ensures(*pick, (self, k as usize), #[trigger] actions@[k]),
            decreases self.ants.len() - i,
        {
            actions.push(pick(self, i));
            i = i + 1;
        }
        actions
    }

    /// One step of the colony. Every ant carries out the action chosen for it
    /// (`actions[i]` for the ant at position `i`), in a random order, with the
    /// floating-point work done by `physics`; then each of those ants updates
    /// its memory with the outcome of its action, drawing new directions from
    /// `draw_direction`; then the food whose amount `food_left` refuses
    /// disappears, the ants whose food `starved` accepts are buried, and the
    /// step counter goes up by one (`stepped` says all of this exactly).
    ///
    /// No ant is lost and no queen is made or lost: the living and the buried
    /// ants together grow by exactly the eggs of the hatches that succeeded,
    /// and their queens stay as many as they were.
    pub fn step<FT, FR, FK, FX, FG, FP, FD, FL, FS>(
        &mut self,
        actions: Vec<Action<P, S>>,
        physics: &Physics<S, FT, FR, FK, FX, FG, FP>,
        draw_direction: &FD,
        food_left: &FL,
        starved: &FS,
    ) where
        P: Copy,
        S: Copy,
        FT: Fn(P, S, P) -> (P, S),
        FR: Fn(P, P) -> bool,
        FK: Fn(P, P) -> Option<u64>,
        FX: Fn(S, S, S) -> (S, S),
        FG: Fn(S, S) -> (S, S),
        FP: Fn(usize, S) -> Option<S>,
        FD: Fn() -> S,
        FL: Fn(S) -> bool,
        FS: Fn(S) -> bool,

        requires
            actions.len() == old(self).ants.len(),
            old(self).step_count < u32::MAX,
            old(self).ants.len() + hatch_requests(actions@) <= usize::MAX,
            physics_ready(*physics),
            call_requires(*draw_direction, ()),
            forall|amount: S| call_requires(*food_left, (amount,)),
            forall|food: S| call_requires(*starved, (food,)),
        ensures
            stepped(
                old(self).ants@,
                old(self).food@,
                old(self).cemetery@,
                actions@,
                *physics,
                *draw_direction,
                *food_left,
                *starved,
                final(self).ants@,
                final(self).food@,
                final(self).cemetery@,
            ),
            final(self).step_count == old(self).step_count + 1,
            final(self).config == old(self).config,
            final(self).next_id == old(self).next_id,
            final(self).cemetery@.take(old(self).cemetery.len() as int) == old(self).cemetery@,
            old(self).ants.len() + old(self).cemetery.len() <= final(self).ants.len()
                + final(self).cemetery.len(),
            final(self).ants.len() + final(self).cemetery.len() <= old(self).ants.len()
                + old(self).cemetery.len() + hatch_requests(actions@),
            count_queens(final(self).ants@ + final(self).cemetery@) == count_queens(
                old(self).ants@ + old(self).cemetery@,
            ),
    {
        let n = self.ants.len();
        let ghost ants0 = self.ants@;
        let ghost food0 = self.food@;
        let ghost cemetery0 = self.cemetery@;
        let ghost total = hatch_requests(actions@);
        let mut ids: Vec<usize> = Vec::new();
        let mut k: usize = 0;
        while k < n
            invariant
                n == self.ants.len(),
                k <= n,
                ids.len() == k,
                forall|m: int| 0 <= m < k ==> ids@[m] == self.ants@[m].id,
            decreases n - k,
        {
            ids.push(self.ants[k].id);
            k = k + 1;
        }
        let order = shuffled_order(n);
        let mut successes: Vec<bool> = Vec::new();
        let mut k: usize = 0;
        while k < n
            invariant
                k <= n,
                successes.len() == k,
                forall|m: int| 0 <= m < k ==> !successes@[m],
            decreases n - k,
        {
            successes.push(false);
            k = k + 1;
        }
        let ghost mut pending: Seq<bool> = Seq::new(n as nat, |m: int| true);
        let ghost mut trace: Seq<(Seq<Ant<P, S>>, Seq<FoodItem<P, S>>)> = seq![(ants0, food0)];
        proof {
            lemma_requests_all(actions@, pending);
            lemma_count_queens_same_roles(ants0, ants0);
            assert(requests_where(actions@, successes@) == 0) by {
                lemma_requests_same(actions@, successes@, Seq::new(n as nat, |m: int| false));
                lemma_requests_none(actions@, Seq::new(n as nat, |m: int| false));
            }
        }
        let mut idx: usize = 0;
        while idx < n
            invariant
                n == actions.len(),
                n == ants0.len(),
                n + total <= usize::MAX,
                total == hatch_requests(actions@),
                idx <= n,
                order.len() == n,
                order@.no_duplicates(),
                forall|m: int| 0 <= m < n ==> order@[m] < n,
                successes.len() == n,
                ids.len() == n,
                forall|m: int| 0 <= m < n ==> ids@[m] == ants0[m].id,
                pending.len() == n,
                forall|m: int|
                    0 <= m < n ==> (#[trigger] pending[m] == !order@.take(idx as int).contains(
                        m as usize,
                    )),
                forall|m: int| 0 <= m < n && pending[m] ==> !successes@[m],
                trace.len() == idx + 1,
                trace[0] == (ants0, food0),
                trace.last() == (self.ants@, self.food@),
                forall|k: int|
                    #![trigger order@[k]]
                    0 <= k < idx ==> executed(
                        trace[k].0,
                        trace[k].1,
                        ants0[order@[k] as int].id,
                        actions@[order@[k] as int],
                        *physics,
                        successes@[order@[k] as int],
                        trace[k + 1].0,
                        trace[k + 1].1,
                    ),
                roles_kept(ants0, self.ants@),
                count_queens(self.ants@) == count_queens(ants0),
                self.ants.len() == n + requests_where(actions@, successes@),
                self.ants.len() + requests_where(actions@, pending) <= n + total,
                self.cemetery@ == cemetery0,
                cemetery0 == old(self).cemetery@,
                self.config == old(self).config,
                self.step_count == old(self).step_count,
                self.next_id == old(self).next_id,
                physics_ready(*physics),
            decreases n - idx,
        {
            let i = order[idx];
            proof {
                if order@.take(idx as int).contains(i) {
                    let j = choose|j: int| 0 <= j < idx && order@.take(idx as int)[j] == i;
                    assert(order@[j] == order@[idx as int]);
                }
                assert(pending[i as int]);
                lemma_requests_unset(actions@, pending, i as int);
                lemma_first_answer_in_range(self.ants@, ids@[i as int], true);
            }
            let ghost before_successes = successes@;
            let done = self.execute_action(ids[i], &actions[i], physics);
            proof {
                lemma_requests_set(actions@, successes@, i as int, done);
            }
            successes.set(i, done);
            proof {
                assert(roles_kept(ants0, self.ants@));
                pending = pending.update(i as int, false);
                trace = trace.push((self.ants@, self.food@));
                let seen = order@.take(idx as int);
                assert(order@.take(idx + 1) =~= seen.push(i));
                assert forall|m: int| 0 <= m < n implies (#[trigger] pending[m] == !order@.take(
                    idx + 1,
                ).contains(m as usize)) by {
                    if seen.push(i).contains(m as usize) {
                        let j = choose|j: int| 0 <= j < seen.len() + 1 && seen.push(i)[j] == m as usize;
                        if j < seen.len() {
                            assert(seen.contains(m as usize));
                        }
                    }
                    if seen.contains(m as usize) {
                        let j = choose|j: int| 0 <= j < seen.len() && seen[j] == m as usize;
                        assert(seen.push(i)[j] == m as usize);
                    }
                    if m == i as int {
                        assert(seen.push(i)[seen.len() as int] == i);
                    }
                }
                assert forall|k: int|
                    #![trigger order@[k]]
                    0 <= k < idx + 1 implies executed(
                        trace[k].0,
                        trace[k].1,
                        ants0[order@[k] as int].id,
                        actions@[order@[k] as int],
                        *physics,
                        successes@[order@[k] as int],
                        trace[k + 1].0,
                        trace[k + 1].1,
                    ) by {
                    if k < idx {
                        assert(order@[k] != order@[idx as int]);
                        assert(successes@[order@[k] as int] == before_successes[order@[k] as int]);
                    }
                }
            }
            idx = idx + 1;
        }
        let ghost acted = self.ants@;
        let ghost acted_food = self.food@;
        let mid_len = self.ants.len();
        let mut i: usize = 0;
        while i < n
            invariant
                n == actions.len(),
                n == ants0.len(),
                i <= n,
                successes.len() == n,
                acted.len() == mid_len,
                self.ants.len() == mid_len,
                n <= mid_len,
                roles_kept(ants0, self.ants@),
                count_queens(self.ants@) == count_queens(ants0),
                forall|m: int|
                    0 <= m < i ==> remembered(
                        acted[m],
                        actions@[m],
                        successes@[m],
                        *draw_direction,
                        #[trigger] self.ants@[m],
                    ),
                forall|m: int| i <= m < mid_len ==> #[trigger] self.ants@[m] == acted[m],
                self.food@ == acted_food,
                self.cemetery@ == old(self).cemetery@,
                self.config == old(self).config,
                self.step_count == old(self).step_count,
                self.next_id == old(self).next_id,
                call_requires(*draw_direction, ()),
            decreases n - i,
        {
            let ghost before = self.ants@;
            self.ants[i].update_memory(&actions[i], successes[i], draw_direction);
            proof {
                lemma_update_keeps_roles(before, i as int, self.ants@[i as int]);
                assert(self.ants@ =~= before.update(i as int, self.ants@[i as int]));
            }
            i = i + 1;
        }
        let ghost minds = self.ants@;
        assert(minded(acted, actions@, successes@, *draw_direction, minds));
        let mut left: Vec<bool> = Vec::new();
        let mut j: usize = 0;
        while j < self.food.len()
            invariant
                j <= self.food.len(),
                left.len() == j,
                forall|amount: S| call_requires(*food_left, (amount,)),
                forall|m: int| 0 <= m < j ==> call_ensures(*food_left, (self.food@[m].amount,), #[trigger] left@[m]),
            decreases self.food.len() - j,
        {
            left.push(food_left(self.food[j].amount));
            j = j + 1;
        }
        let mut dead: Vec<bool> = Vec::new();
        let mut j: usize = 0;
        while j < self.ants.len()
            invariant
                j <= self.ants.len(),
                dead.len() == j,
                forall|food: S| call_requires(*starved, (food,)),
                forall|m: int| 0 <= m < j ==> call_ensures(*starved, (self.ants@[m].food,), #[trigger] dead@[m]),
            decreases self.ants.len() - j,
        {
            dead.push(starved(self.ants[j].food));
            j = j + 1;
        }
        let ghost left_flags = left@;
        let ghost dead_flags = dead@;
        assert(judged(acted_food.map_values(|f: FoodItem<P, S>| f.amount), *food_left, left_flags));
        assert(judged(minds.map_values(|a: Ant<P, S>| a.food), *starved, dead_flags));
        self.end_step(&left, dead);
        proof {
            let swept = sweep(minds, dead_flags, 0);
            lemma_sweep_keeps_queens(minds, dead_flags, 0);
            lemma_count_queens_concat(self.ants@, self.cemetery@);
            lemma_count_queens_concat(cemetery0, swept.1);
            lemma_count_queens_concat(minds, cemetery0);
            lemma_count_queens_concat(ants0, cemetery0);
            lemma_count_queens_same_roles(minds, acted);
            assert(self.cemetery@.take(cemetery0.len() as int) =~= cemetery0);
            lemma_kept_from(acted_food, left_flags);
            burial_is_exact(minds, dead_flags, self.ants@, swept.1);
            assert(trace.last() == (acted, acted_food));
            assert(step_parts(
                ants0,
                food0,
                cemetery0,
                actions@,
                *physics,
                *draw_direction,
                *food_left,
                *starved,
                order@,
                successes@,
                trace,
                minds,
                left_flags,
                dead_flags,
                self.ants@,
                self.food@,
                self.cemetery@,
            ));
        }
    }

    /// The number of queens in the colony.
    pub fn queen_count(&self) -> (n: usize)
        ensures
            n == count_queens(self.ants@),
    {
        let mut n: usize = 0;
        let mut i: usize = 0;
        while i < self.ants.len()
            invariant
                i <= self.ants.len(),
                n <= i,
                n == count_queens(self.ants@.take(i as int)),
            decreases self.ants.len() - i,
        {
            if self.ants[i].queen {
                n = n + 1;
            }
            assert(self.ants@.take(i + 1).drop_last() =~= self.ants@.take(i as int));
            i = i + 1;
        }
        assert(self.ants@.take(i as int) =~= self.ants@);
        n
    }
}

/// The indices `0, 1, ..., n - 1` in their order.
pub open spec fn identity_order(n: nat) -> Seq<usize> {
    Seq::new(n, |i: int| i as usize)
}

/// Shuffles the indices in place with `rand`'s `SliceRandom::shuffle`, driven by
/// the thread-local generator. Claimed: the result holds the same indices, each
/// as often as before (a permutation, which the shuffle's swaps keep); which
/// permutation comes out rests on chance and is not stated.
#[verifier::external_body]
fn shuffle_indices(order: &mut Vec<usize>)
    ensures
        final(order)@.to_multiset() == old(order)@.to_multiset(),
{
    order.shuffle(&mut rand::rng());
}

/// The indices `0..n` in a random order: each index exactly once.
pub fn shuffled_order(n: usize) -> (order: Vec<usize>)
    ensures
        order@.to_multiset() == identity_order(n as nat).to_multiset(),
        order.len() == n,
        forall|i: usize| i < n ==> #[trigger] order@.contains(i),
        forall|k: int| 0 <= k < n ==> order@[k] < n,
        order@.no_duplicates(),
{
    broadcast use vstd::seq_lib::group_to_multiset_ensures;

    let mut order: Vec<usize> = Vec::new();
    let mut i: usize = 0;
    while i < n
        invariant
            i <= n,
            order@ =~= identity_order(i as nat),
        decreases n - i,
    {
        order.push(i);
        i = i + 1;
    }
    shuffle_indices(&mut order);
    proof {
        let ids = identity_order(n as nat);
        assert(order@.len() == ids.len()) by {
            assert(order@.to_multiset().len() == ids.to_multiset().len());
        }
        assert forall|i: usize| i < n implies #[trigger] order@.contains(i) by {
            assert(ids[i as int] == i);
            assert(ids.contains(i));
            vstd::seq_lib::to_multiset_contains(ids, i);
            vstd::seq_lib::to_multiset_contains(order@, i);
        }
        assert forall|k: int| 0 <= k < n implies order@[k] < n by {
            assert(order@.contains(order@[k]));
            vstd::seq_lib::to_multiset_contains(ids, order@[k]);
            vstd::seq_lib::to_multiset_contains(order@, order@[k]);
            let j = choose|j: int| 0 <= j < ids.len() && ids[j] == order@[k];
        }
        assert(ids.no_duplicates());
        ids.lemma_multiset_has_no_duplicates();
        order@.lemma_multiset_has_no_duplicates_conv();
    }
    order
}

} // verus!
