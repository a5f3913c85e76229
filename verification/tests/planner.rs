use goap::{ActionPlanner, PlanningError, WorldState};

// Condition keys.
const NEAR_ENEMY: u64 = 0;
const HAS_WEAPON: u64 = 1;
const ENEMY_ALIVE: u64 = 2;

// Action identifiers.
const EXPLODE: u64 = 1;
const ATTACK: u64 = 2;
const FLEE: u64 = 3;
const FIND_WEAPON: u64 = 4;
const APPROACH: u64 = 5;

const ALL_ACTIONS: [u64; 5] = [EXPLODE, ATTACK, FLEE, FIND_WEAPON, APPROACH];

/// The five-action combat library over three boolean conditions.
fn combat_planner() -> ActionPlanner {
    let mut p = ActionPlanner::new();
    p.add_action(
        EXPLODE,
        vec![(NEAR_ENEMY, true)],
        vec![(ENEMY_ALIVE, false)],
        100,
    )
    .unwrap();
    p.add_action(
        ATTACK,
        vec![(HAS_WEAPON, true), (NEAR_ENEMY, true)],
        vec![(ENEMY_ALIVE, false)],
        10,
    )
    .unwrap();
    p.add_action(
        FLEE,
        vec![(HAS_WEAPON, false), (NEAR_ENEMY, true)],
        vec![(NEAR_ENEMY, false)],
        10,
    )
    .unwrap();
    p.add_action(
        FIND_WEAPON,
        vec![(HAS_WEAPON, false), (NEAR_ENEMY, false)],
        vec![(HAS_WEAPON, true)],
        10,
    )
    .unwrap();
    p.add_action(APPROACH, vec![(HAS_WEAPON, true)], vec![(NEAR_ENEMY, true)], 10)
        .unwrap();
    p
}

/// Replays `ids` from the planner's current state; `None` when an action is
/// unregistered or its preconditions are not matched by the state preceding
/// it.
fn replay(planner: &ActionPlanner, ids: &[u64]) -> Option<WorldState> {
    let lib = planner.library();
    let mut s = planner.current_state().clone();
    for &id in ids {
        let act = lib.get(id)?;
        if !s.matches(&act.preconditions) {
            return None;
        }
        s = s.apply(&act.effects);
    }
    Some(s)
}

/// The total cost of a sequence of registered actions.
fn sequence_cost(planner: &ActionPlanner, ids: &[u64]) -> usize {
    let lib = planner.library();
    let mut c: usize = 0;
    for &id in ids {
        c += lib.get(id).unwrap().cost;
    }
    c
}

/// The minimum cost over every action sequence of length at most `max_len`
/// that reaches the goal, by exhaustive enumeration.
fn best_cost_by_enumeration(planner: &ActionPlanner, max_len: usize) -> Option<usize> {
    let mut best: Option<usize> = None;
    if planner.current_state().matches(planner.current_goal()) {
        best = Some(0);
    }
    let mut seqs: Vec<Vec<u64>> = vec![vec![]];
    for _ in 0..max_len {
        let mut next: Vec<Vec<u64>> = Vec::new();
        for s in &seqs {
            for &id in ALL_ACTIONS.iter() {
                let mut t = s.clone();
                t.push(id);
                next.push(t);
            }
        }
        for t in &next {
            if let Some(end) = replay(planner, t) {
                if end.matches(planner.current_goal()) {
                    let c = sequence_cost(planner, t);
                    best = Some(match best {
                        None => c,
                        Some(b) => {
                            if c < b {
                                c
                            } else {
                                b
                            }
                        }
                    });
                }
            }
        }
        seqs = next;
    }
    best
}

#[test]
fn combat_scenario_attacks() {
    let mut p = combat_planner();
    p.set_state((NEAR_ENEMY, true));
    p.set_state((HAS_WEAPON, true));
    p.set_state((ENEMY_ALIVE, true));
    p.set_goal((ENEMY_ALIVE, false));
    let plan = p.plan().unwrap();
    assert_eq!(plan, vec![ATTACK]);
    assert_eq!(sequence_cost(&p, &plan), 10);
}

#[test]
fn returned_plan_replays_to_goal() {
    let mut p = combat_planner();
    p.set_state((NEAR_ENEMY, true));
    p.set_state((HAS_WEAPON, false));
    p.set_state((ENEMY_ALIVE, true));
    p.set_goal((ENEMY_ALIVE, false));
    let plan = p.plan().unwrap();
    let end = replay(&p, &plan).expect("every step of the plan must be applicable");
    assert!(end.matches(p.current_goal()));
}

#[test]
fn plan_cost_is_optimal_weaponless() {
    let mut p = combat_planner();
    p.set_state((NEAR_ENEMY, true));
    p.set_state((HAS_WEAPON, false));
    p.set_state((ENEMY_ALIVE, true));
    p.set_goal((ENEMY_ALIVE, false));
    let plan = p.plan().unwrap();
    let best = best_cost_by_enumeration(&p, 4).unwrap();
    assert_eq!(best, 40);
    assert_eq!(sequence_cost(&p, &plan), best);
}

#[test]
fn plan_cost_is_optimal_armed() {
    let mut p = combat_planner();
    p.set_state((NEAR_ENEMY, true));
    p.set_state((HAS_WEAPON, true));
    p.set_state((ENEMY_ALIVE, true));
    p.set_goal((ENEMY_ALIVE, false));
    let plan = p.plan().unwrap();
    let best = best_cost_by_enumeration(&p, 4).unwrap();
    assert_eq!(best, 10);
    assert_eq!(sequence_cost(&p, &plan), best);
}

#[test]
fn bundled_effects_stay_optimal() {
    // One dear action sets both goal conditions at once; a cheaper two-step
    // route must still win, which requires the heuristic never to
    // overestimate the remaining cost.
    let mut p = ActionPlanner::new();
    // keys: 0 = ready, 1 = first goal condition, 2 = second goal condition
    p.add_action(1, vec![(0, false)], vec![(1, true), (2, true)], 3).unwrap();
    p.add_action(2, vec![(0, false)], vec![(0, true)], 1).unwrap();
    p.add_action(3, vec![(0, true)], vec![(1, true), (2, true)], 1).unwrap();
    p.set_state((0, false));
    p.set_state((1, false));
    p.set_state((2, false));
    p.set_goal((1, true));
    p.set_goal((2, true));
    let plan = p.plan().unwrap();
    assert_eq!(plan, vec![2, 3]);
    assert_eq!(sequence_cost(&p, &plan), 2);
}

#[test]
fn repeated_planning_costs_agree() {
    let mut p = combat_planner();
    p.set_state((NEAR_ENEMY, true));
    p.set_state((HAS_WEAPON, false));
    p.set_state((ENEMY_ALIVE, true));
    p.set_goal((ENEMY_ALIVE, false));
    let first = p.plan().unwrap();
    let second = p.plan().unwrap();
    assert_eq!(sequence_cost(&p, &first), sequence_cost(&p, &second));
}

#[test]
fn satisfied_goal_yields_empty_plan() {
    let mut p = combat_planner();
    p.set_state((ENEMY_ALIVE, false));
    p.set_goal((ENEMY_ALIVE, false));
    let plan = p.plan().unwrap();
    assert!(plan.is_empty());
}

#[test]
fn empty_planner_with_empty_goal_plans_nothing() {
    let p = ActionPlanner::new();
    let plan = p.plan().unwrap();
    assert!(plan.is_empty());
}

#[test]
fn empty_library_fails_unmatched_goal() {
    let mut p = ActionPlanner::new();
    p.set_goal((ENEMY_ALIVE, false));
    assert_eq!(p.plan(), Err(PlanningError::NoPlanFound));
}

#[test]
fn unproducible_condition_fails() {
    let mut p = combat_planner();
    p.set_state((NEAR_ENEMY, true));
    p.set_state((HAS_WEAPON, true));
    p.set_state((ENEMY_ALIVE, true));
    p.set_goal((9, true));
    assert_eq!(p.plan(), Err(PlanningError::NoPlanFound));
}

#[test]
fn zero_cost_action_is_rejected() {
    let mut p = ActionPlanner::new();
    let r = p.add_action(EXPLODE, vec![(NEAR_ENEMY, true)], vec![(ENEMY_ALIVE, false)], 0);
    assert_eq!(r, Err(PlanningError::InvalidAction));
    assert!(p.library().get(EXPLODE).is_none());
}

#[test]
fn re_registration_replaces() {
    let mut p = ActionPlanner::new();
    p.add_action(EXPLODE, vec![], vec![(ENEMY_ALIVE, false)], 5).unwrap();
    p.add_action(EXPLODE, vec![], vec![(ENEMY_ALIVE, false)], 7).unwrap();
    assert_eq!(p.library().len(), 1);
    assert_eq!(p.library().get(EXPLODE).unwrap().cost, 7);
}

#[test]
fn set_state_overwrites() {
    let mut p = ActionPlanner::new();
    p.set_state((NEAR_ENEMY, true));
    p.set_state((NEAR_ENEMY, false));
    assert_eq!(p.current_state().get(NEAR_ENEMY), Some(false));
    assert_eq!(p.current_state().entry_count(), 1);
}

#[test]
fn set_goal_overwrites() {
    let mut p = ActionPlanner::new();
    p.set_goal((ENEMY_ALIVE, true));
    p.set_goal((ENEMY_ALIVE, false));
    assert_eq!(p.current_goal().get(ENEMY_ALIVE), Some(false));
}

#[test]
fn applicable_actions_sorted_by_identifier() {
    let mut p = combat_planner();
    p.set_state((NEAR_ENEMY, true));
    p.set_state((HAS_WEAPON, true));
    p.set_state((ENEMY_ALIVE, true));
    let ids = p.library().applicable(p.current_state());
    assert_eq!(ids, vec![EXPLODE, ATTACK, APPROACH]);
}
