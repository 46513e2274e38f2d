use rand::RngExt;
use vstd::prelude::*;

use crate::constants::{EXPLORE_STEPS_MAX, EXPLORE_STEPS_MIN, HATCH_BROOD_SIZE, QUEEN_HATCH_COOLDOWN};

verus! {

/// What an ant remembers between steps.
///
/// `P` is the type of a position in the world and `S` the type of a scalar
/// (a direction, an amount of food).
#[derive(Clone, Copy, Debug)]
pub struct Memory<P, S> {
    /// The direction the ant walks in when it has nothing better to do.
    pub wandering_direction: Option<S>,
    /// How many more steps the ant keeps its current wandering direction.
    pub explore_steps_remaining: u32,
    /// Where the ant last found food.
    pub last_seen_food: Option<P>,
    /// Where the ant believes its queen to be.
    pub last_seen_queen: Option<P>,
}

impl<P, S> Memory<P, S> {
    /// The memory of an ant that has seen nothing yet.
    pub open spec fn blank() -> Self {
        Memory {
            wandering_direction: None,
            explore_steps_remaining: 0,
            last_seen_food: None,
            last_seen_queen: None,
        }
    }
}

impl<P, S> Default for Memory<P, S> {
    fn default() -> (m: Self)
        ensures
            m == Self::blank(),
    {
        Memory {
            wandering_direction: None,
            explore_steps_remaining: 0,
            last_seen_food: None,
            last_seen_queen: None,
        }
    }
}

/// Something an ant tries to do during one step.
#[derive(Clone, Copy, Debug, PartialEq)]
pub enum Action<P, S> {
    Move(P),
    Eat { at: P, amount: S },
    PickFood { at: P, amount: S },
    DropFood { at: P, amount: S },
    HatchAnts { count: usize },
    Rest,
    Pheromone { at: P, strength: S },
}

/// An ant: a worker, or a queen that hatches new workers.
#[derive(Clone, Debug)]
pub struct Ant<P, S> {
    pub id: usize,
    pub position: P,
    pub queen: bool,
    pub food: S,
    pub steps_since_last_hatch: u32,
    pub memory: Memory<P, S>,
}

/// One food item in an ant's field of vision, as the ant sees it.
#[derive(Clone, Copy, Debug, PartialEq, Eq, Structural)]
pub struct Sighting {
    /// A key that orders the sightings by their distance from the ant:
    /// nearer food has a smaller key, food at the same distance the same key.
    pub distance_key: u64,
    /// The food lies within one and a half steps of the ant.
    pub within_reach: bool,
    /// The food is not near the place where the ant believes its queen to be
    /// (always true for an ant that does not know where its queen is).
    pub forageable: bool,
}

/// Everything an ant's decision depends on besides its own counters.
#[derive(Clone, Debug)]
pub struct Perception {
    /// The ant carries less food than it needs to feel fed.
    pub hungry: bool,
    /// The ant carries more food than an ant starts with.
    pub surplus: bool,
    /// The ant carries enough food to hatch a new ant and feed it.
    pub can_afford_hatch: bool,
    /// The visible food, in the order in which the world lists it.
    pub sightings: Vec<Sighting>,
    /// `None` when the ant does not know where its queen is; otherwise whether
    /// the queen's place lies within one and a half steps.
    pub queen_in_reach: Option<bool>,
    /// `None` when the ant remembers no food; otherwise whether the remembered
    /// place lies farther than one and a half steps.
    pub remembered_food_far: Option<bool>,
}

/// What an ant decides to do, before the decision is given a position and an amount.
#[derive(Clone, Copy, Debug, PartialEq, Eq, Structural)]
pub enum Intent {
    /// Hatch this many new ants (a queen hatches `HATCH_BROOD_SIZE` at a time).
    Hatch { count: usize },
    /// Pick up the sighted food with this index.
    PickFood(usize),
    /// Eat from the sighted food with this index.
    Eat(usize),
    /// Drop the surplus food where the ant stands.
    DropFood,
    /// Do nothing.
    Rest,
    /// Walk one step toward the sighted food with this index.
    ApproachFood(usize),
    /// Walk one step toward the queen.
    ReturnToQueen,
    /// Walk one step toward the remembered food.
    RevisitFood,
    /// Walk one step in the wandering direction.
    Wander,
}

/// `i` is the first index of a smallest key among the present keys.
pub open spec fn is_closest(keys: Seq<Option<u64>>, i: int) -> bool {
    &&& 0 <= i < keys.len()
    &&& keys[i] is Some
    &&& forall|j: int| 0 <= j < keys.len() && #[trigger] keys[j] is Some ==> keys[i]->0 <= keys[j]->0
    &&& forall|j: int| 0 <= j < i && #[trigger] keys[j] is Some ==> keys[i]->0 < keys[j]->0
}

/// The index of the closest candidate, where a candidate is a present key;
/// `None` when there is no candidate.
pub open spec fn spec_closest(keys: Seq<Option<u64>>) -> Option<int> {
    if exists|i: int| is_closest(keys, i) {
        Some(choose|i: int| is_closest(keys, i))
    } else {
        None
    }
}

/// There is at most one closest candidate.
pub proof fn lemma_closest_unique(keys: Seq<Option<u64>>, i: int, j: int)
    requires
        is_closest(keys, i),
        is_closest(keys, j),
    ensures
        i == j,
{
    if i < j {
        assert(keys[j] is Some);
        assert(keys[i] is Some);
    } else if j < i {
        assert(keys[j] is Some);
        assert(keys[i] is Some);
    }
}

/// Finds the closest candidate: the first of the present keys that no other
/// present key is smaller than.
pub fn closest_food(keys: &Vec<Option<u64>>) -> (closest: Option<usize>)
    ensures
        match closest {
            Some(i) => spec_closest(keys@) == Some(i as int),
            None => spec_closest(keys@) is None,
        },
        closest matches Some(i) ==> is_closest(keys@, i as int),
        closest is None <==> forall|j: int| 0 <= j < keys.len() ==> #[trigger] keys@[j] is None,
{
    let mut best: Option<usize> = None;
    let mut i: usize = 0;
    while i < keys.len()
        invariant
            i <= keys.len(),
            best matches Some(b) ==> {
                &&& b < i
                &&& keys@[b as int] is Some
                &&& forall|j: int|
                    0 <= j < i && #[trigger] keys@[j] is Some ==> keys@[b as int]->0 <= keys@[j]->0
                &&& forall|j: int|
                    0 <= j < b && #[trigger] keys@[j] is Some ==> keys@[b as int]->0 < keys@[j]->0
            },
            best is None ==> forall|j: int| 0 <= j < i ==> #[trigger] keys@[j] is None,
        decreases keys.len() - i,
    {
        match keys[i] {
            Some(k) => {
                match best {
                    None => {
                        best = Some(i);
                    },
                    Some(b) => {
                        match keys[b] {
                            Some(kb) => {
                                if k < kb {
                                    best = Some(i);
                                }
                            },
                            None => {},
                        }
                    },
                }
            },
            None => {},
        }
        i = i + 1;
    }
    proof {
        match best {
            Some(b) => {
                assert(is_closest(keys@, b as int));
                let c = choose|c: int| is_closest(keys@, c);
                lemma_closest_unique(keys@, b as int, c);
            },
            None => {
                assert(!exists|c: int| is_closest(keys@, c));
            },
        }
    }
    best
}

/// The keys of all sightings, each a candidate.
pub open spec fn sighting_keys(sightings: Seq<Sighting>) -> Seq<Option<u64>> {
    sightings.map_values(|s: Sighting| Some(s.distance_key))
}

/// The keys of the sightings, where only forageable food is a candidate.
pub open spec fn forage_keys(sightings: Seq<Sighting>) -> Seq<Option<u64>> {
    sightings.map_values(|s: Sighting| if s.forageable { Some(s.distance_key) } else { None })
}

fn candidate_keys(sightings: &Vec<Sighting>, forage_only: bool) -> (keys: Vec<Option<u64>>)
    ensures
        keys@ == (if forage_only { forage_keys(sightings@) } else { sighting_keys(sightings@) }),
{
    let mut keys: Vec<Option<u64>> = Vec::new();
    let mut i: usize = 0;
    while i < sightings.len()
        invariant
            i <= sightings.len(),
            keys.len() == i,
            forall|j: int|
                0 <= j < i ==> #[trigger] keys@[j] == (if forage_only && !sightings@[j].forageable {
                    None
                } else {
                    Some(sightings@[j].distance_key)
                }),
        decreases sightings.len() - i,
    {
        let s = sightings[i];
        if forage_only && !s.forageable {
            keys.push(None);
        } else {
            keys.push(Some(s.distance_key));
        }
        i = i + 1;
    }
    if forage_only {
        assert(keys@ =~= forage_keys(sightings@));
    } else {
        assert(keys@ =~= sighting_keys(sightings@));
    }
    keys
}

/// What a queen decides: hatch when the cooldown is over and she can afford
/// it, else pick up the closest visible food when it is within reach, else rest.
pub open spec fn queen_intent(steps_since_last_hatch: u32, p: Perception) -> Intent {
    if steps_since_last_hatch >= QUEEN_HATCH_COOLDOWN && p.can_afford_hatch {
        Intent::Hatch { count: HATCH_BROOD_SIZE }
    } else {
        match spec_closest(sighting_keys(p.sightings@)) {
            Some(i) => if p.sightings@[i].within_reach {
                Intent::PickFood(i as usize)
            } else {
                Intent::Rest
            },
            None => Intent::Rest,
        }
    }
}

/// What a worker decides, in this order of precedence: when hungry, eat the
/// closest visible food (or walk toward it); when carrying a surplus, bring it
/// to the queen (or wander when the queen's place is unknown); forage the
/// closest forageable food; walk back to remembered food that is far; wander.
pub open spec fn worker_intent(p: Perception) -> Intent {
    let nearest = spec_closest(sighting_keys(p.sightings@));
    let forage = spec_closest(forage_keys(p.sightings@));
    if p.hungry && nearest is Some {
        let i = nearest->0;
        if p.sightings@[i].within_reach {
            Intent::Eat(i as usize)
        } else {
            Intent::ApproachFood(i as usize)
        }
    } else if p.surplus {
        match p.queen_in_reach {
            Some(true) => Intent::DropFood,
            Some(false) => Intent::ReturnToQueen,
            None => Intent::Wander,
        }
    } else if forage is Some {
        let i = forage->0;
        if p.sightings@[i].within_reach {
            Intent::PickFood(i as usize)
        } else {
            Intent::ApproachFood(i as usize)
        }
    } else if p.remembered_food_far == Some(true) {
        Intent::RevisitFood
    } else {
        Intent::Wander
    }
}

/// What an ant with the given role and hatch counter decides.
pub open spec fn spec_decide(queen: bool, steps_since_last_hatch: u32, p: Perception) -> Intent {
    if queen {
        queen_intent(steps_since_last_hatch, p)
    } else {
        worker_intent(p)
    }
}

/// Where the ant remembers food after trying `action`: a pick records where it
/// found food, or forgets the place when it found none; a successful meal
/// records its place; anything else leaves the memory as it was.
pub open spec fn remembered_food<P, S>(previous: Option<P>, action: Action<P, S>, success: bool) -> Option<P> {
    match action {
        Action::PickFood { at, .. } => if success {
            Some(at)
        } else {
            None
        },
        Action::Eat { at, .. } => if success {
            Some(at)
        } else {
            previous
        },
        _ => previous,
    }
}

/// The hatch counter after an ant tried `action`: a hatch leaves it as it
/// was; anything else counts one more step, up to the largest `u32`.
pub open spec fn next_hatch_counter<P, S>(steps: u32, action: Action<P, S>) -> u32 {
    if action is HatchAnts {
        steps
    } else if steps == u32::MAX {
        steps
    } else {
        (steps + 1) as u32
    }
}

/// The hatch counter after the ant tried each of `actions` in turn.
pub open spec fn hatch_counter_after<P, S>(steps: u32, actions: Seq<Action<P, S>>) -> u32
    decreases actions.len(),
{
    if actions.len() == 0 {
        steps
    } else {
        next_hatch_counter(hatch_counter_after(steps, actions.drop_last()), actions.last())
    }
}

proof fn lemma_hatch_counter_bound<P, S>(actions: Seq<Action<P, S>>)
    ensures
        hatch_counter_after(0, actions) <= actions.len(),
    decreases actions.len(),
{
    if actions.len() > 0 {
        lemma_hatch_counter_bound(actions.drop_last());
    }
}

/// A queen whose hatch counter has just started over (as a hatch leaves it)
/// does not decide to hatch again, whatever she perceives, before her memory
/// has been updated `QUEEN_HATCH_COOLDOWN` times.
pub proof fn hatch_cooldown<P, S>(actions: Seq<Action<P, S>>, perception: Perception)
    requires
        actions.len() < QUEEN_HATCH_COOLDOWN,
    ensures
        hatch_counter_after(0, actions) <= actions.len(),
        !(spec_decide(true, hatch_counter_after(0, actions), perception) is Hatch),
{
    lemma_hatch_counter_bound(actions);
}

/// What an ant is after updating its memory from `before`, having tried
/// `action` with the given success, with `draw` as its source of directions:
/// only its memory and hatch counter change; it remembers food as
/// `remembered_food` says; its exploring countdown goes down by one, or, when it
/// has run out, starts over somewhere in `EXPLORE_STEPS_MIN..EXPLORE_STEPS_MAX`
/// with a direction from `draw`; its hatch counter moves on as
/// `next_hatch_counter` says.
pub open spec fn remembered<P, S, F: Fn() -> S>(
    before: Ant<P, S>,
    action: Action<P, S>,
    success: bool,
    draw: F,
    after: Ant<P, S>,
) -> bool {
    &&& after.id == before.id
    &&& after.position == before.position
    &&& after.queen == before.queen
    &&& after.food == before.food
    &&& after.memory.last_seen_queen == before.memory.last_seen_queen
    &&& after.memory.last_seen_food == remembered_food(before.memory.last_seen_food, action, success)
    &&& before.memory.explore_steps_remaining == 0 ==> {
        &&& EXPLORE_STEPS_MIN <= after.memory.explore_steps_remaining
        &&& after.memory.explore_steps_remaining < EXPLORE_STEPS_MAX
        &&& exists|d: S| call_ensures(draw, (), d) && after.memory.wandering_direction == Some(d)
    }
    &&& before.memory.explore_steps_remaining > 0 ==> {
        &&& after.memory.explore_steps_remaining == before.memory.explore_steps_remaining - 1
        &&& after.memory.wandering_direction == before.memory.wandering_direction
    }
    &&& after.steps_since_last_hatch == next_hatch_counter(before.steps_since_last_hatch, action)
}

/// When one key is present, there is a closest candidate.
pub proof fn lemma_closest_exists(keys: Seq<Option<u64>>, j: int)
    requires
        0 <= j < keys.len(),
        keys[j] is Some,
    ensures
        exists|i: int| is_closest(keys, i),
    decreases keys.len(),
{
    let n = keys.len() - 1;
    let front = keys.drop_last();
    let m = if j < n {
        j
    } else if exists|m: int| 0 <= m < n && #[trigger] front[m] is Some {
        choose|m: int| 0 <= m < n && #[trigger] front[m] is Some
    } else {
        -1
    };
    if m < 0 {
        assert forall|l: int| 0 <= l < keys.len() && #[trigger] keys[l] is Some implies keys[n]->0
            <= keys[l]->0 by {
            if l < n {
                assert(front[l] is Some);
            }
        }
        assert forall|l: int| 0 <= l < n && #[trigger] keys[l] is Some implies keys[n]->0 < keys[l]->0 by {
            assert(front[l] is Some);
        }
        assert(j == n);
        assert(is_closest(keys, n));
    } else {
        lemma_closest_exists(front, m);
        let c = choose|c: int| is_closest(front, c);
        assert(front[c] == keys[c]);
        if keys[n] is Some && keys[n]->0 < keys[c]->0 {
            assert forall|l: int| 0 <= l < keys.len() && #[trigger] keys[l] is Some implies keys[n]->0
                <= keys[l]->0 by {
                if l < n {
                    assert(front[l] is Some);
                }
            }
            assert forall|l: int| 0 <= l < n && #[trigger] keys[l] is Some implies keys[n]->0
                < keys[l]->0 by {
                assert(front[l] is Some);
            }
            assert(is_closest(keys, n));
        } else {
            assert forall|l: int| 0 <= l < keys.len() && #[trigger] keys[l] is Some implies keys[c]->0
                <= keys[l]->0 by {
                if l < n {
                    assert(front[l] is Some);
                }
            }
            assert forall|l: int| 0 <= l < c && #[trigger] keys[l] is Some implies keys[c]->0
                < keys[l]->0 by {
                assert(front[l] is Some);
            }
            assert(is_closest(keys, c));
        }
    }
}

/// The closest candidate holds a key, no candidate has a smaller key, and
/// every candidate before it has a larger one; with no candidate there is none.
pub proof fn closest_is_first_minimum(keys: Seq<Option<u64>>)
    ensures
        spec_closest(keys) matches Some(i) ==> {
            &&& 0 <= i < keys.len()
            &&& keys[i] is Some
            &&& forall|j: int| 0 <= j < keys.len() && #[trigger] keys[j] is Some ==> keys[i]->0 <= keys[j]->0
            &&& forall|j: int| 0 <= j < i && #[trigger] keys[j] is Some ==> keys[i]->0 < keys[j]->0
        },
        spec_closest(keys) is None <==> forall|j: int| 0 <= j < keys.len() ==> #[trigger] keys[j] is None,
{
    if !(forall|j: int| 0 <= j < keys.len() ==> #[trigger] keys[j] is None) {
        let j = choose|j: int| 0 <= j < keys.len() && !(#[trigger] keys[j] is None);
        lemma_closest_exists(keys, j);
    }
}

/// What a worker decides, case by case.
/// A hungry worker that sees food eats the closest food it sees when that is
/// within reach, and otherwise walks toward it. Otherwise a worker with a
/// surplus drops it when its queen is within reach, walks toward her when she
/// is known but far, and wanders when she is unknown. Otherwise it forages
/// (see `worker_forages_before_revisiting`), walks back to remembered far
/// food, or wanders. A worker never hatches and never rests.
pub proof fn worker_decisions(steps: u32, p: Perception)
    ensures
        !(spec_decide(false, steps, p) is Hatch),
        spec_decide(false, steps, p) != Intent::Rest,
        p.hungry ==> forall|i: int|
            is_closest(sighting_keys(p.sightings@), i) ==> spec_decide(false, steps, p) == (if p.sightings@[i].within_reach {
                Intent::Eat(i as usize)
            } else {
                Intent::ApproachFood(i as usize)
            }),
        (!p.hungry || p.sightings.len() == 0) && p.surplus ==> spec_decide(false, steps, p) == match p.queen_in_reach {
            Some(true) => Intent::DropFood,
            Some(false) => Intent::ReturnToQueen,
            None => Intent::Wander,
        },
        (!p.hungry || p.sightings.len() == 0) && !p.surplus && (forall|j: int|
            0 <= j < p.sightings.len() ==> !(#[trigger] p.sightings@[j]).forageable) ==> spec_decide(
            false,
            steps,
            p,
        ) == (if p.remembered_food_far == Some(true) {
            Intent::RevisitFood
        } else {
            Intent::Wander
        }),
{
    let s = p.sightings@;
    let all = sighting_keys(s);
    let forage = forage_keys(s);
    if p.sightings.len() > 0 {
        assert(all[0] is Some);
        lemma_closest_exists(all, 0);
    }
    assert forall|i: int| p.hungry && is_closest(all, i) implies spec_decide(false, steps, p) == (if s[i].within_reach {
        Intent::Eat(i as usize)
    } else {
        Intent::ApproachFood(i as usize)
    }) by {
        let c = choose|c: int| is_closest(all, c);
        lemma_closest_unique(all, i, c);
    }
    if forall|j: int| 0 <= j < p.sightings.len() ==> !(#[trigger] s[j]).forageable {
        assert forall|c: int| !is_closest(forage, c) by {
            if 0 <= c < forage.len() {
                assert(!s[c].forageable);
            }
        }
    }
}

/// What a queen decides: she hatches `HATCH_BROOD_SIZE` ants exactly when
/// her cooldown is over and she can afford it; otherwise she picks up the
/// closest food she sees when it is within reach, and otherwise rests.
pub proof fn queen_decisions(steps: u32, p: Perception)
    ensures
        (spec_decide(true, steps, p) is Hatch) <==> (steps >= QUEEN_HATCH_COOLDOWN && p.can_afford_hatch),
        spec_decide(true, steps, p) is Hatch ==> spec_decide(true, steps, p) == (Intent::Hatch { count: HATCH_BROOD_SIZE }),
        !(steps >= QUEEN_HATCH_COOLDOWN && p.can_afford_hatch) ==> forall|i: int|
            is_closest(sighting_keys(p.sightings@), i) ==> spec_decide(true, steps, p) == (if p.sightings@[i].within_reach {
                Intent::PickFood(i as usize)
            } else {
                Intent::Rest
            }),
        !(steps >= QUEEN_HATCH_COOLDOWN && p.can_afford_hatch) && p.sightings.len() == 0 ==> spec_decide(
            true,
            steps,
            p,
        ) == Intent::Rest,
{
    let all = sighting_keys(p.sightings@);
    assert forall|i: int|
        !(steps >= QUEEN_HATCH_COOLDOWN && p.can_afford_hatch) && is_closest(all, i) implies spec_decide(
        true,
        steps,
        p,
    ) == (if p.sightings@[i].within_reach {
        Intent::PickFood(i as usize)
    } else {
        Intent::Rest
    }) by {
        let c = choose|c: int| is_closest(all, c);
        lemma_closest_unique(all, i, c);
    }
}

/// Updating its memory changes nothing of an ant but its memory and its hatch
/// counter. Its wandering countdown goes down by one while it lasts, keeping
/// the direction; when it has run out, the ant takes a direction `draw` gives
/// and a new countdown of at least `EXPLORE_STEPS_MIN` and below
/// `EXPLORE_STEPS_MAX` steps. It keeps knowing where its queen is.
pub proof fn memory_update_law<P, S, F: Fn() -> S>(
    before: Ant<P, S>,
    action: Action<P, S>,
    success: bool,
    draw: F,
    after: Ant<P, S>,
)
    requires
        remembered(before, action, success, draw, after),
    ensures
        after.id == before.id && after.position == before.position && after.queen == before.queen
            && after.food == before.food,
        after.memory.last_seen_queen == before.memory.last_seen_queen,
        before.memory.explore_steps_remaining > 0 ==> after.memory.explore_steps_remaining + 1
            == before.memory.explore_steps_remaining && after.memory.wandering_direction
            == before.memory.wandering_direction,
        before.memory.explore_steps_remaining == 0 ==> EXPLORE_STEPS_MIN
            <= after.memory.explore_steps_remaining < EXPLORE_STEPS_MAX && (exists|d: S|
            call_ensures(draw, (), d) && after.memory.wandering_direction == Some(d)),
{
}

/// A worker that is not about to eat (it is not hungry, or sees no food) and
/// carries no surplus forages: it picks up the closest forageable food it
/// sees when that food is within reach, and otherwise walks toward it,
/// whatever it remembers. It walks back to remembered food only when it sees
/// no forageable food at all, carries no surplus, and the remembered food is far.
pub proof fn worker_forages_before_revisiting(steps: u32, p: Perception)
    ensures
        (!p.hungry || p.sightings.len() == 0) && !p.surplus ==> forall|i: int|
            is_closest(forage_keys(p.sightings@), i) ==> spec_decide(false, steps, p) == (if p.sightings@[i].within_reach {
                Intent::PickFood(i as usize)
            } else {
                Intent::ApproachFood(i as usize)
            }),
        (!p.hungry || p.sightings.len() == 0) && !p.surplus && (exists|j: int|
            0 <= j < p.sightings.len() && (#[trigger] p.sightings@[j]).forageable)
            ==> spec_decide(false, steps, p) is PickFood || spec_decide(false, steps, p) is ApproachFood,
        spec_decide(false, steps, p) == Intent::RevisitFood ==> {
            &&& !p.surplus
            &&& p.remembered_food_far == Some(true)
            &&& forall|j: int| 0 <= j < p.sightings.len() ==> !(#[trigger] p.sightings@[j]).forageable
        },
{
    let s = p.sightings@;
    let all = sighting_keys(s);
    let forage = forage_keys(s);
    if p.sightings.len() > 0 {
        assert(all[0] is Some);
        lemma_closest_exists(all, 0);
    }
    assert forall|i: int|
        (!p.hungry || p.sightings.len() == 0) && !p.surplus && is_closest(forage, i) implies spec_decide(
        false,
        steps,
        p,
    ) == (if s[i].within_reach {
        Intent::PickFood(i as usize)
    } else {
        Intent::ApproachFood(i as usize)
    }) by {
        let c = choose|c: int| is_closest(forage, c);
        lemma_closest_unique(forage, i, c);
    }
    if exists|j: int| 0 <= j < p.sightings.len() && (#[trigger] s[j]).forageable {
        let j = choose|j: int| 0 <= j < p.sightings.len() && (#[trigger] s[j]).forageable;
        assert(forage[j] is Some);
        lemma_closest_exists(forage, j);
    }
    if spec_decide(false, steps, p) == Intent::RevisitFood {
        assert forall|j: int| 0 <= j < p.sightings.len() implies !(#[trigger] s[j]).forageable by {
            if s[j].forageable {
                assert(forage[j] is Some);
                lemma_closest_exists(forage, j);
            }
        }
    }
}

/// What an ant remembers of food after trying an action: a successful pick
/// or meal remembers the place it named; a failed pick forgets; a failed
/// meal, and every other action (walking, dropping, hatching, resting,
/// laying pheromone), leaves the remembered place as it was.
pub proof fn memory_of_food<P, S, F: Fn() -> S>(
    before: Ant<P, S>,
    action: Action<P, S>,
    success: bool,
    draw: F,
    after: Ant<P, S>,
)
    requires
        remembered(before, action, success, draw, after),
    ensures
        !(action is PickFood) && !(action is Eat) ==> after.memory.last_seen_food
            == before.memory.last_seen_food,
        action matches Action::PickFood { at, .. } ==> after.memory.last_seen_food == (if success {
            Some(at)
        } else {
            None
        }),
        action matches Action::Eat { at, .. } ==> after.memory.last_seen_food == (if success {
            Some(at)
        } else {
            before.memory.last_seen_food
        }),
{
}

/// Every action but a hatch counts one more step since the last hatch (up to
/// the largest `u32`); a hatch leaves the count as it was.
pub proof fn hatch_counter_counts_steps<P, S, F: Fn() -> S>(
    before: Ant<P, S>,
    action: Action<P, S>,
    success: bool,
    draw: F,
    after: Ant<P, S>,
)
    requires
        remembered(before, action, success, draw, after),
    ensures
        action is HatchAnts ==> after.steps_since_last_hatch == before.steps_since_last_hatch,
        !(action is HatchAnts) && before.steps_since_last_hatch < u32::MAX ==> after.steps_since_last_hatch
            == before.steps_since_last_hatch + 1,
        !(action is HatchAnts) && before.steps_since_last_hatch == u32::MAX ==> after.steps_since_last_hatch
            == u32::MAX,
{
}

/// Draws an integer uniformly from `low..high` with `rand`'s thread-local
/// generator (`rand::rng()` and `RngExt::random_range`). Claimed of the result:
/// only that it lies in the range, as `random_range` documents for every outcome.
/// `random_range` panics on an empty range, which `requires` rules out.
#[verifier::external_body]
fn random_in_range(low: u32, high: u32) -> (n: u32)
    requires
        low < high,
    ensures
        low <= n < high,
{
    rand::rng().random_range(low..high)
}

fn queen_decide(steps_since_last_hatch: u32, perception: &Perception) -> (intent: Intent)
    ensures
        intent == queen_intent(steps_since_last_hatch, *perception),
{
    if steps_since_last_hatch >= QUEEN_HATCH_COOLDOWN && perception.can_afford_hatch {
        return Intent::Hatch { count: HATCH_BROOD_SIZE };
    }
    let keys = candidate_keys(&perception.sightings, false);
    match closest_food(&keys) {
        Some(i) => {
            if perception.sightings[i].within_reach {
                Intent::PickFood(i)
            } else {
                Intent::Rest
            }
        },
        None => Intent::Rest,
    }
}

fn worker_decide(perception: &Perception) -> (intent: Intent)
    ensures
        intent == worker_intent(*perception),
{
    if perception.hungry {
        let keys = candidate_keys(&perception.sightings, false);
        match closest_food(&keys) {
            Some(i) => {
                if perception.sightings[i].within_reach {
                    return Intent::Eat(i);
                }
                return Intent::ApproachFood(i);
            },
            None => {},
        }
    }
    if perception.surplus {
        return match perception.queen_in_reach {
            Some(true) => Intent::DropFood,
            Some(false) => Intent::ReturnToQueen,
            None => Intent::Wander,
        };
    }
    let forage = candidate_keys(&perception.sightings, true);
    match closest_food(&forage) {
        Some(i) => {
            if perception.sightings[i].within_reach {
                return Intent::PickFood(i);
            }
            return Intent::ApproachFood(i);
        },
        None => {},
    }
    match perception.remembered_food_far {
        Some(true) => Intent::RevisitFood,
        _ => Intent::Wander,
    }
}

impl<P, S> Ant<P, S> {
    /// Decides what the ant does next, given what it perceives.
    pub fn decide(&self, perception: &Perception) -> (intent: Intent)
        ensures
            intent == spec_decide(self.queen, self.steps_since_last_hatch, *perception),
            (intent is Hatch) <==> (self.queen && perception.can_afford_hatch
                && self.steps_since_last_hatch >= QUEEN_HATCH_COOLDOWN),
            (intent is Hatch) ==> intent == (Intent::Hatch { count: HATCH_BROOD_SIZE }),
            intent matches Intent::PickFood(i) ==> i < perception.sightings.len(),
            intent matches Intent::Eat(i) ==> i < perception.sightings.len() && !self.queen,
            intent matches Intent::ApproachFood(i) ==> i < perception.sightings.len() && !self.queen,
    {
        if self.queen {
            queen_decide(self.steps_since_last_hatch, perception)
        } else {
            worker_decide(perception)
        }
    }

    /// Updates the ant's memory and counters after it tried `action`, which
    /// succeeded or not. When the current wandering direction has run out, the
    /// ant takes a new one from `draw_direction` and keeps it for a random
    /// number of steps.
    pub fn update_memory<F>(&mut self, action: &Action<P, S>, success: bool, draw_direction: &F) where
        P: Copy,
        F: Fn() -> S,

        requires
            call_requires(*draw_direction, ()),
        ensures
            remembered(*old(self), *action, success, *draw_direction, *final(self)),
    {
        match action {
            Action::PickFood { at, .. } => {
                self.memory.last_seen_food = if success {
                    Some(*at)
                } else {
                    None
                };
            },
            Action::Eat { at, .. } => {
                if success {
                    self.memory.last_seen_food = Some(*at);
                }
            },
            _ => {},
        }
        if self.memory.explore_steps_remaining == 0 {
            let direction = draw_direction();
            self.memory.wandering_direction = Some(direction);
            self.memory.explore_steps_remaining = random_in_range(EXPLORE_STEPS_MIN, EXPLORE_STEPS_MAX);
        } else {
            self.memory.explore_steps_remaining = self.memory.explore_steps_remaining - 1;
        }
        let hatching = match action {
            Action::HatchAnts { .. } => true,
            _ => false,
        };
        if !hatching {
            self.steps_since_last_hatch = self.steps_since_last_hatch.saturating_add(1);
        }
    }
}

} // verus!
