use vstd::prelude::*;
use vstd::set_lib::lemma_len_subset;

use crate::library::{Action, ActionLibrary};
use crate::state::{apply_effects, pairs_map, ws_matches, WorldState};

verus! {

/// Why a planner call did not produce a plan.
#[derive(Clone, Copy, Debug, PartialEq, Eq, Structural)]
pub enum PlanningError {
    /// Registration rejected the action: its cost was not positive.
    InvalidAction,
    /// The search exhausted the frontier without satisfying the goal.
    NoPlanFound,
}

/// Replays an action-identifier sequence from `s`: `None` as soon as an
/// identifier is unregistered or a precondition is not matched, otherwise
/// the state after applying every action's effects in order.
pub open spec fn run_plan(lib: Map<u64, Action>, s: Map<u64, bool>, ids: Seq<u64>) -> Option<
    Map<u64, bool>,
>
    decreases ids.len(),
{
    if ids.len() == 0 {
        Some(s)
    } else if lib.contains_key(ids[0]) && ws_matches(s, lib[ids[0]].preconditions@) {
        run_plan(lib, apply_effects(s, lib[ids[0]].effects@), ids.drop_first())
    } else {
        None
    }
}

/// The sequence replays from `init` — every action registered and its
/// preconditions matched by the state immediately preceding it — and the
/// state it reaches satisfies `goal`.
pub open spec fn plan_valid(
    lib: Map<u64, Action>,
    init: Map<u64, bool>,
    goal: Map<u64, bool>,
    ids: Seq<u64>,
) -> bool {
    run_plan(lib, init, ids) matches Some(t) && ws_matches(t, goal)
}

/// The total cost of a sequence of registered actions; an unregistered
/// identifier contributes nothing (a valid plan holds none).
pub open spec fn plan_cost(lib: Map<u64, Action>, ids: Seq<u64>) -> int
    decreases ids.len(),
{
    if ids.len() == 0 {
        0
    } else if lib.contains_key(ids[0]) {
        lib[ids[0]].cost + plan_cost(lib, ids.drop_first())
    } else {
        plan_cost(lib, ids.drop_first())
    }
}

/// Appending one identifier adds exactly its cost.
pub proof fn lemma_plan_cost_snoc(lib: Map<u64, Action>, ids: Seq<u64>, a: u64)
    ensures
        plan_cost(lib, ids.push(a)) == plan_cost(lib, ids) + (if lib.contains_key(a) {
            lib[a].cost as int
        } else {
            0int
        }),
    decreases ids.len(),
{
    if ids.len() == 0 {
        assert(ids.push(a)[0] == a);
        assert(ids.push(a).drop_first() =~= ids);
    } else {
        assert(ids.push(a)[0] == ids[0]);
        assert(ids.push(a).drop_first() =~= ids.drop_first().push(a));
        lemma_plan_cost_snoc(lib, ids.drop_first(), a);
    }
}

/// Appending one identifier replays the prefix first, then takes the one
/// extra step.
pub proof fn lemma_run_plan_snoc(lib: Map<u64, Action>, s: Map<u64, bool>, ids: Seq<u64>, a: u64)
    ensures
        run_plan(lib, s, ids.push(a)) == (match run_plan(lib, s, ids) {
            Some(t) => if lib.contains_key(a) && ws_matches(t, lib[a].preconditions@) {
                Some(apply_effects(t, lib[a].effects@))
            } else {
                None::<Map<u64, bool>>
            },
            None => None::<Map<u64, bool>>,
        }),
    decreases ids.len(),
{
    if ids.len() == 0 {
        assert(ids.push(a)[0] == a);
        assert(ids.push(a).drop_first() =~= ids);
    } else {
        assert(ids.push(a)[0] == ids[0]);
        assert(ids.push(a).drop_first() =~= ids.drop_first().push(a));
        lemma_run_plan_snoc(lib, apply_effects(s, lib[ids[0]].effects@), ids.drop_first(), a);
    }
}

/// A search-tree node: the action that produced it (absent only for the
/// root), the state it reached, the accumulated path cost, and the arena
/// index of its parent (absent only for the root).
struct Node {
    action: Option<u64>,
    state: WorldState,
    g: usize,
    parent: Option<usize>,
}

/// The action identifiers along the path from the root to node `i`, in
/// execution order.
spec fn node_path(arena: Seq<Node>, i: int) -> Seq<u64>
    decreases i,
{
    if 0 <= i < arena.len() {
        let n = arena[i];
        let own: Seq<u64> = match n.action {
            Some(a) => seq![a],
            None => Seq::<u64>::empty(),
        };
        match n.parent {
            Some(p) => if (p as int) < i {
                node_path(arena, p as int) + own
            } else {
                own
            },
            None => own,
        }
    } else {
        Seq::<u64>::empty()
    }
}

/// Node `i` is well formed: its state is canonical, its parent stands
/// earlier in the arena, and its root-to-here path replays to exactly its
/// state.
spec fn node_ok(lib: Map<u64, Action>, init: Map<u64, bool>, arena: Seq<Node>, i: int) -> bool {
    let n = arena[i];
    &&& n.state.wf()
    &&& (n.parent matches Some(p) ==> (p as int) < i)
    &&& run_plan(lib, init, node_path(arena, i)) == Some(n.state@)
    &&& plan_cost(lib, node_path(arena, i)) == n.g as int
}

spec fn arena_ok(lib: Map<u64, Action>, init: Map<u64, bool>, arena: Seq<Node>) -> bool {
    forall|i: int| 0 <= i < arena.len() ==> #[trigger] node_ok(lib, init, arena, i)
}

/// Appending a node leaves every earlier node's path as it was.
proof fn lemma_node_path_push(arena: Seq<Node>, x: Node, i: int)
    requires
        0 <= i < arena.len(),
        forall|j: int| 0 <= j < arena.len()
            ==> ((#[trigger] arena[j]).parent matches Some(p) ==> (p as int) < j),
    ensures
        node_path(arena.push(x), i) == node_path(arena, i),
    decreases i,
{
    assert(arena.push(x)[i] == arena[i]);
    match arena[i].parent {
        Some(p) => {
            if (p as int) < i {
                lemma_node_path_push(arena, x, p as int);
            }
        },
        None => {},
    }
}

/// The sum of the costs recorded in the table.
spec fn table_sum(t: Seq<(WorldState, usize)>) -> int
    decreases t.len(),
{
    if t.len() == 0 {
        0
    } else {
        table_sum(t.drop_last()) + t.last().1
    }
}

proof fn lemma_table_sum_nonneg(t: Seq<(WorldState, usize)>)
    ensures
        table_sum(t) >= 0,
    decreases t.len(),
{
    if t.len() > 0 {
        lemma_table_sum_nonneg(t.drop_last());
    }
}

proof fn lemma_table_sum_update(t: Seq<(WorldState, usize)>, i: int, x: (WorldState, usize))
    requires
        0 <= i < t.len(),
    ensures
        table_sum(t.update(i, x)) == table_sum(t) - t[i].1 + x.1,
    decreases t.len(),
{
    let u = t.update(i, x);
    if i == t.len() - 1 {
        assert(u.drop_last() =~= t.drop_last());
        assert(u.last() == x);
    } else {
        assert(u.drop_last() =~= t.drop_last().update(i, x));
        assert(u.last() == t.last());
        lemma_table_sum_update(t.drop_last(), i, x);
    }
}

/// The set of world states recorded in the table, as maps.
spec fn table_views(t: Seq<(WorldState, usize)>) -> Set<Map<u64, bool>> {
    Set::new(|m: Map<u64, bool>| exists|j: int| 0 <= j < t.len() && (#[trigger] t[j]).0@ == m)
}

/// `keys` lists every key the map constrains.
spec fn keys_cover(keys: Seq<u64>, m: Map<u64, bool>) -> bool {
    forall|k: u64| #[trigger] m.contains_key(k) ==> keys.contains(k)
}

/// The keys of a canonical listing.
spec fn entry_keys(s: Seq<(u64, bool)>) -> Seq<u64> {
    s.map_values(|e: (u64, bool)| e.0)
}

/// Every key the library's effects can ever set.
spec fn lib_effect_keys(entries: Seq<(u64, Action)>) -> Seq<u64>
    decreases entries.len(),
{
    if entries.len() == 0 {
        Seq::<u64>::empty()
    } else {
        lib_effect_keys(entries.drop_last()) + entry_keys(entries.last().1.effects.entry_seq())
    }
}

proof fn lemma_lib_effect_keys_cover(entries: Seq<(u64, Action)>, i: int)
    requires
        0 <= i < entries.len(),
    ensures
        forall|k: u64| #[trigger] entry_keys(entries[i].1.effects.entry_seq()).contains(k)
            ==> lib_effect_keys(entries).contains(k),
    decreases entries.len(),
{
    let eks = entry_keys(entries[i].1.effects.entry_seq());
    let rest = lib_effect_keys(entries.drop_last());
    if i == entries.len() - 1 {
        assert forall|k: u64| #[trigger] eks.contains(k)
            implies lib_effect_keys(entries).contains(k) by {
            let j = choose|j: int| 0 <= j < eks.len() && eks[j] == k;
            assert(lib_effect_keys(entries)[rest.len() + j] == k);
        }
    } else {
        lemma_lib_effect_keys_cover(entries.drop_last(), i);
        assert(entries.drop_last()[i] == entries[i]);
        assert forall|k: u64| #[trigger] eks.contains(k)
            implies lib_effect_keys(entries).contains(k) by {
            assert(rest.contains(k));
            let j = choose|j: int| 0 <= j < rest.len() && rest[j] == k;
            assert(lib_effect_keys(entries)[j] == k);
        }
    }
}

/// Every map constraining only listed keys; the listing may repeat keys.
spec fn maps_over(keys: Seq<u64>) -> Seq<Map<u64, bool>>
    decreases keys.len(),
{
    if keys.len() == 0 {
        seq![Map::<u64, bool>::empty()]
    } else {
        let rest = maps_over(keys.drop_last());
        rest + rest.map_values(|m: Map<u64, bool>| m.insert(keys.last(), true))
            + rest.map_values(|m: Map<u64, bool>| m.insert(keys.last(), false))
    }
}

proof fn lemma_maps_over_contains(keys: Seq<u64>, m: Map<u64, bool>)
    requires
        keys_cover(keys, m),
    ensures
        maps_over(keys).contains(m),
    decreases keys.len(),
{
    let u = maps_over(keys);
    if keys.len() == 0 {
        assert(m =~= Map::<u64, bool>::empty()) by {
            assert forall|k: u64| !(#[trigger] m.contains_key(k)) by {
                if m.contains_key(k) {
                    assert(keys.contains(k));
                }
            }
        }
        assert(u[0] == m);
    } else {
        let last = keys.last();
        let rest = maps_over(keys.drop_last());
        if m.contains_key(last) {
            let m0 = m.remove(last);
            assert(keys_cover(keys.drop_last(), m0)) by {
                assert forall|k: u64| #[trigger] m0.contains_key(k)
                    implies keys.drop_last().contains(k) by {
                    assert(m.contains_key(k) && k != last);
                    let j = choose|j: int| 0 <= j < keys.len() && keys[j] == k;
                    assert(j < keys.len() - 1);
                    assert(keys.drop_last()[j] == k);
                }
            }
            lemma_maps_over_contains(keys.drop_last(), m0);
            let i = choose|i: int| 0 <= i < rest.len() && rest[i] == m0;
            let v = m[last];
            assert(m0.insert(last, v) =~= m);
            if v {
                assert(u[rest.len() + i] == rest[i].insert(last, true));
                assert(u[rest.len() + i] == m);
            } else {
                assert(u[2 * rest.len() + i] == rest[i].insert(last, false));
                assert(u[2 * rest.len() + i] == m);
            }
        } else {
            assert(keys_cover(keys.drop_last(), m)) by {
                assert forall|k: u64| #[trigger] m.contains_key(k)
                    implies keys.drop_last().contains(k) by {
                    let j = choose|j: int| 0 <= j < keys.len() && keys[j] == k;
                    assert(j < keys.len() - 1);
                    assert(keys.drop_last()[j] == k);
                }
            }
            lemma_maps_over_contains(keys.drop_last(), m);
            let i = choose|i: int| 0 <= i < rest.len() && rest[i] == m;
            assert(u[i] == m);
        }
    }
}

/// The termination potential of the cost table: room left in the finite
/// universe of recordable states, weighted past any one cost, plus the
/// recorded costs. Recording a new state or improving a recorded cost
/// strictly decreases it.
spec fn phi(t: Seq<(WorldState, usize)>, cap: nat) -> int {
    (usize::MAX as int + 1) * (cap as int + 1 - table_views(t).len() as int) + table_sum(t)
}

/// The heuristic estimate: zero on goal-satisfying states, one otherwise.
spec fn hcap(s: Map<u64, bool>, goal: Map<u64, bool>) -> nat {
    if ws_matches(s, goal) {
        0
    } else {
        1
    }
}

/// An admissible, consistent heuristic: a state with any unmet goal
/// condition needs at least one more action, and every action costs at
/// least one. Counting every unmet condition instead would overestimate
/// whenever one action sets several goal conditions at once, and an
/// overestimate can steer the search to a dearer plan.
fn heuristic(state: &WorldState, goal: &WorldState) -> (h: usize)
    requires
        state.wf(),
        goal.wf(),
    ensures
        h == hcap(state@, goal@),
{
    if state.matches(goal) {
        0
    } else {
        1
    }
}

/// Pairwise distinct recorded states.
spec fn table_distinct(t: Seq<(WorldState, usize)>) -> bool {
    forall|j1: int, j2: int|
        0 <= j1 < j2 < t.len() ==> (#[trigger] t[j1]).0@ != (#[trigger] t[j2]).0@
}

/// The ghost mirror of the cost table: the same states bound to the same
/// costs.
spec fn rec_matches(t: Seq<(WorldState, usize)>, rec: Map<Map<u64, bool>, int>) -> bool {
    &&& forall|j: int| 0 <= j < t.len()
        ==> rec.contains_key((#[trigger] t[j]).0@) && rec[t[j].0@] == t[j].1 as int
    &&& forall|m: Map<u64, bool>| #[trigger] rec.contains_key(m)
        ==> exists|j: int| 0 <= j < t.len() && (#[trigger] t[j]).0@ == m
}

/// Every settled state has all its outgoing steps relaxed into `rec`, as
/// far as the machine bound allows.
spec fn relaxed(
    lib: Map<u64, Action>,
    settled: Set<Map<u64, bool>>,
    rec: Map<Map<u64, bool>, int>,
) -> bool {
    forall|s: Map<u64, bool>, id: u64|
        #[trigger] settled.contains(s) && lib.contains_key(id) && ws_matches(
            s,
            (#[trigger] lib[id]).preconditions@,
        ) && rec[s] + lib[id].cost < usize::MAX as int ==> rec.contains_key(
            apply_effects(s, lib[id].effects@),
        ) && rec[apply_effects(s, lib[id].effects@)] <= rec[s] + lib[id].cost
}

proof fn lemma_mul_drop_one(c: int, a: int)
    ensures
        c * (a - 1) == c * a - c,
{
    assert(c * (a - 1) == c * a - c) by (nonlinear_arith);
}

proof fn lemma_mul_nonneg(c: int, a: int)
    requires
        c >= 0,
        a >= 0,
    ensures
        c * a >= 0,
{
    assert(c * a >= 0) by (nonlinear_arith)
        requires
            c >= 0,
            a >= 0,
    ;
}

proof fn lemma_step_down(phi_new: int, phi_old: int, bound: int, c: int, g: int)
    requires
        phi_new == phi_old - c + g,
        phi_old <= bound,
        g < c,
    ensures
        phi_new < bound,
{
}

/// No identifier ever costs less than nothing.
proof fn lemma_plan_cost_nonneg(lib: Map<u64, Action>, ids: Seq<u64>)
    ensures
        plan_cost(lib, ids) >= 0,
    decreases ids.len(),
{
    if ids.len() > 0 {
        lemma_plan_cost_nonneg(lib, ids.drop_first());
    }
}

/// A prefix of a replayable sequence replays too.
proof fn lemma_run_plan_take(lib: Map<u64, Action>, s: Map<u64, bool>, ids: Seq<u64>, i: int)
    requires
        0 <= i <= ids.len(),
        run_plan(lib, s, ids) is Some,
    ensures
        run_plan(lib, s, ids.take(i)) is Some,
    decreases ids.len() - i,
{
    if i < ids.len() {
        lemma_run_plan_take(lib, s, ids, i + 1);
        assert(ids.take(i + 1) =~= ids.take(i).push(ids[i]));
        lemma_run_plan_snoc(lib, s, ids.take(i), ids[i]);
    } else {
        assert(ids.take(i) =~= ids);
    }
}

/// A prefix never costs more than the whole sequence.
proof fn lemma_plan_cost_take(lib: Map<u64, Action>, ids: Seq<u64>, i: int)
    requires
        0 <= i <= ids.len(),
    ensures
        plan_cost(lib, ids.take(i)) <= plan_cost(lib, ids),
    decreases ids.len() - i,
{
    if i < ids.len() {
        lemma_plan_cost_take(lib, ids, i + 1);
        assert(ids.take(i + 1) =~= ids.take(i).push(ids[i]));
        lemma_plan_cost_snoc(lib, ids.take(i), ids[i]);
    } else {
        assert(ids.take(i) =~= ids);
    }
}

/// Walks a replayable bounded sequence along its settled prefix ends, whose
/// recorded costs stay below the prefix costs, and returns the first prefix
/// length whose end state is not settled. One exists, because the end of
/// the whole sequence is not settled.
proof fn lemma_settled_chain(
    lib: Map<u64, Action>,
    init: Map<u64, bool>,
    settled: Set<Map<u64, bool>>,
    rec: Map<Map<u64, bool>, int>,
    q: Seq<u64>,
    i: int,
) -> (w: int)
    requires
        run_plan(lib, init, q) is Some,
        plan_cost(lib, q) < usize::MAX as int,
        relaxed(lib, settled, rec),
        !settled.contains(run_plan(lib, init, q)->0),
        0 <= i <= q.len(),
        run_plan(lib, init, q.take(i)) is Some,
        rec.contains_key(run_plan(lib, init, q.take(i))->0),
        rec[run_plan(lib, init, q.take(i))->0] <= plan_cost(lib, q.take(i)),
    ensures
        i <= w <= q.len(),
        run_plan(lib, init, q.take(w)) is Some,
        rec.contains_key(run_plan(lib, init, q.take(w))->0),
        !settled.contains(run_plan(lib, init, q.take(w))->0),
        rec[run_plan(lib, init, q.take(w))->0] <= plan_cost(lib, q.take(w)),
    decreases q.len() - i,
{
    let u = run_plan(lib, init, q.take(i))->0;
    if !settled.contains(u) {
        i
    } else {
        assert(i < q.len()) by {
            if i == q.len() {
                assert(q.take(i) =~= q);
            }
        }
        let a = q[i];
        assert(q.take(i + 1) =~= q.take(i).push(a));
        lemma_run_plan_take(lib, init, q, i + 1);
        lemma_run_plan_snoc(lib, init, q.take(i), a);
        lemma_plan_cost_snoc(lib, q.take(i), a);
        lemma_plan_cost_take(lib, q, i + 1);
        assert(lib.contains_key(a) && ws_matches(u, lib[a].preconditions@));
        assert(run_plan(lib, init, q.take(i + 1))->0 == apply_effects(u, lib[a].effects@));
        assert(plan_cost(lib, q.take(i + 1)) == plan_cost(lib, q.take(i)) + lib[a].cost);
        assert(rec[u] + lib[a].cost < usize::MAX as int);
        assert(rec.contains_key(apply_effects(u, lib[a].effects@))
            && rec[apply_effects(u, lib[a].effects@)] <= rec[u] + lib[a].cost);
        lemma_settled_chain(lib, init, settled, rec, q, i + 1)
    }
}

/// The position of a frontier element of minimal priority.
#[verifier::loop_isolation(false)]
fn min_index(frontier: &Vec<(usize, usize)>) -> (r: usize)
    requires
        frontier@.len() > 0,
    ensures
        r < frontier@.len(),
        forall|j: int| 0 <= j < frontier@.len()
            ==> frontier@[r as int].1 <= (#[trigger] frontier@[j]).1,
{
    let mut best: usize = 0;
    let mut i: usize = 1;
    while i < frontier.len()
        invariant
            best < frontier@.len(),
            i <= frontier@.len(),
            forall|j: int| 0 <= j < i ==> frontier@[best as int].1 <= (#[trigger] frontier@[j]).1,
        decreases frontier@.len() - i,
    {
        if frontier[i].1 < frontier[best].1 {
            best = i;
        }
        i += 1;
    }
    best
}

/// The position of the record for `state`, if the table holds one.
#[verifier::loop_isolation(false)]
fn find_state(table: &Vec<(WorldState, usize)>, state: &WorldState) -> (r: Option<usize>)
    requires
        state.wf(),
        forall|j: int| 0 <= j < table@.len() ==> (#[trigger] table@[j]).0.wf(),
    ensures
        r matches Some(i) ==> i < table@.len() && table@[i as int].0@ == state@,
        r is None ==> forall|j: int| 0 <= j < table@.len() ==> (#[trigger] table@[j]).0@ != state@,
{
    let mut i: usize = 0;
    while i < table.len()
        invariant
            i <= table@.len(),
            forall|j: int| 0 <= j < i ==> (#[trigger] table@[j]).0@ != state@,
        decreases table@.len() - i,
    {
        if table[i].0.equals(state) {
            return Some(i);
        }
        i += 1;
    }
    None
}

/// Collects the action identifiers from the root to `start`, in execution
/// order.
#[verifier::loop_isolation(false)]
fn reconstruct(arena: &Vec<Node>, start: usize) -> (ids: Vec<u64>)
    requires
        start < arena@.len(),
        forall|j: int| 0 <= j < arena@.len()
            ==> ((#[trigger] arena@[j]).parent matches Some(p) ==> (p as int) < j),
    ensures
        ids@ == node_path(arena@, start as int),
{
    let mut rev: Vec<u64> = Vec::new();
    let mut j: usize = start;
    proof {
        assert(node_path(arena@, start as int)
            =~= node_path(arena@, start as int) + rev@.reverse());
    }
    let mut done: bool = false;
    while !done
        invariant
            j < arena@.len(),
            !done ==> node_path(arena@, start as int) == node_path(arena@, j as int)
                + rev@.reverse(),
            done ==> node_path(arena@, start as int) == rev@.reverse(),
        decreases 2 * (j as int) + (if done { 0int } else { 1int }),
    {
        let ghost rev_old = rev@;
        let ghost own: Seq<u64> = match arena@[j as int].action {
            Some(a) => seq![a],
            None => Seq::<u64>::empty(),
        };
        match arena[j].action {
            Some(a) => {
                rev.push(a);
                proof {
                    assert(rev@.reverse() =~= seq![a] + rev_old.reverse());
                }
            },
            None => {},
        }
        proof {
            assert(own + rev_old.reverse() =~= rev@.reverse());
        }
        match arena[j].parent {
            Some(p) => {
                proof {
                    assert(node_path(arena@, j as int) == node_path(arena@, p as int) + own);
                    assert((node_path(arena@, p as int) + own) + rev_old.reverse()
                        =~= node_path(arena@, p as int) + (own + rev_old.reverse()));
                }
                j = p;
            },
            None => {
                proof {
                    assert(node_path(arena@, j as int) == own);
                }
                done = true;
            },
        }
    }
    let n = rev.len();
    let mut ids: Vec<u64> = Vec::new();
    let mut t: usize = 0;
    while t < n
        invariant
            t <= n,
            ids@.len() == t,
            forall|q: int| 0 <= q < t ==> #[trigger] ids@[q] == rev@[n - 1 - q],
        decreases n - t,
    {
        ids.push(rev[n - 1 - t]);
        t += 1;
    }
    proof {
        assert(ids@ =~= rev@.reverse());
    }
    ids
}

/// What an `ActionPlanner` denotes: its registered actions by identifier,
/// the current world state, and the goal.
pub ghost struct PlannerView {
    pub actions: Map<u64, Action>,
    pub state: Map<u64, bool>,
    pub goal: Map<u64, bool>,
}

/// The planner: a registry of actions, the current world state, and the
/// goal, with a best-first search over world states.
pub struct ActionPlanner {
    actions: ActionLibrary,
    states: WorldState,
    goal: WorldState,
}

impl View for ActionPlanner {
    type V = PlannerView;

    closed spec fn view(&self) -> PlannerView {
        PlannerView { actions: self.actions@, state: self.states@, goal: self.goal@ }
    }
}

impl ActionPlanner {
    /// The registry and both partial states are canonical, every registered
    /// action well formed.
    pub closed spec fn wf(&self) -> bool {
        self.actions.wf() && self.states.wf() && self.goal.wf()
    }

    /// A planner with no actions, an empty state and an empty goal.
    pub fn new() -> (r: ActionPlanner)
        ensures
            r.wf(),
            r@.actions == Map::<u64, Action>::empty(),
            r@.state == Map::<u64, bool>::empty(),
            r@.goal == Map::<u64, bool>::empty(),
    {
        ActionPlanner {
            actions: ActionLibrary::new(),
            states: WorldState::new(),
            goal: WorldState::new(),
        }
    }

    /// Registers an action under `action`, replacing any earlier
    /// registration for that identifier. Preconditions and effects are given
    /// as key/value lists; a later entry for a key overrides an earlier one.
    /// A zero cost is rejected: it could be applied without bound.
    #[verifier::loop_isolation(false)]
    pub fn add_action(
        &mut self,
        action: u64,
        preconditions: Vec<(u64, bool)>,
        effects: Vec<(u64, bool)>,
        cost: usize,
    ) -> (r: Result<(), PlanningError>)
        requires
            old(self).wf(),
        ensures
            final(self).wf(),
            cost == 0 ==> r == Err::<(), PlanningError>(PlanningError::InvalidAction)
                && final(self)@ == old(self)@,
            cost >= 1 ==> {
                &&& r is Ok
                &&& final(self)@.state == old(self)@.state
                &&& final(self)@.goal == old(self)@.goal
                &&& final(self)@.actions == old(self)@.actions.insert(
                    action,
                    final(self)@.actions[action],
                )
                &&& final(self)@.actions[action].preconditions@ == pairs_map(preconditions@)
                &&& final(self)@.actions[action].effects@ == pairs_map(effects@)
                &&& final(self)@.actions[action].cost == cost
            },
    {
        if cost == 0 {
            return Err(PlanningError::InvalidAction);
        }
        let mut pre = WorldState::new();
        let mut i: usize = 0;
        while i < preconditions.len()
            invariant
                i <= preconditions@.len(),
                pre.wf(),
                pre@ == pairs_map(preconditions@.take(i as int)),
            decreases preconditions@.len() - i,
        {
            let p = preconditions[i];
            pre.set(p.0, p.1);
            proof {
                let t = preconditions@.take(i + 1);
                assert(t.drop_last() =~= preconditions@.take(i as int));
                assert(t.last() == p);
            }
            i += 1;
        }
        let mut eff = WorldState::new();
        let mut k: usize = 0;
        while k < effects.len()
            invariant
                k <= effects@.len(),
                eff.wf(),
                eff@ == pairs_map(effects@.take(k as int)),
            decreases effects@.len() - k,
        {
            let e = effects[k];
            eff.set(e.0, e.1);
            proof {
                let t = effects@.take(k + 1);
                assert(t.drop_last() =~= effects@.take(k as int));
                assert(t.last() == e);
            }
            k += 1;
        }
        proof {
            assert(preconditions@.take(preconditions@.len() as int) =~= preconditions@);
            assert(effects@.take(effects@.len() as int) =~= effects@);
        }
        let act = Action { preconditions: pre, effects: eff, cost };
        self.actions.register(action, act);
        Ok(())
    }

    /// Constrains one condition of the current world state, overwriting any
    /// earlier entry for the same key.
    pub fn set_state(&mut self, state: (u64, bool))
        requires
            old(self).wf(),
        ensures
            final(self).wf(),
            final(self)@.state == old(self)@.state.insert(state.0, state.1),
            final(self)@.goal == old(self)@.goal,
            final(self)@.actions == old(self)@.actions,
    {
        self.states.set(state.0, state.1);
    }

    /// Constrains one condition of the goal, overwriting any earlier entry
    /// for the same key.
    pub fn set_goal(&mut self, goal: (u64, bool))
        requires
            old(self).wf(),
        ensures
            final(self).wf(),
            final(self)@.goal == old(self)@.goal.insert(goal.0, goal.1),
            final(self)@.state == old(self)@.state,
            final(self)@.actions == old(self)@.actions,
    {
        self.goal.set(goal.0, goal.1);
    }

    /// The registered actions, for read-only enumeration.
    pub fn library(&self) -> (r: &ActionLibrary)
        ensures
            r@ == self@.actions,
            self.wf() ==> r.wf(),
    {
        &self.actions
    }

    /// The current world state.
    pub fn current_state(&self) -> (r: &WorldState)
        ensures
            r@ == self@.state,
            self.wf() ==> r.wf(),
    {
        &self.states
    }

    /// The current goal.
    pub fn current_goal(&self) -> (r: &WorldState)
        ensures
            r@ == self@.goal,
            self.wf() ==> r.wf(),
    {
        &self.goal
    }
    /// Best-first search for a minimal-cost action sequence from the current
    /// state to one satisfying the goal.
    ///
    /// On success the returned sequence replays from the current state —
    /// every action is registered, its preconditions are matched by the
    /// state immediately preceding it, and the reached state satisfies the
    /// goal — and its cost is minimal among all such sequences whose total
    /// cost stays below `usize::MAX`; conversely, whenever such a sequence
    /// exists the search succeeds. A state whose recorded cost a candidate
    /// does not improve is discarded without expansion. The search provably
    /// terminates: reachable states draw their keys from the initial state
    /// and the library's effects, so the cost table ranges over a finite
    /// universe, and every recorded improvement shrinks a potential over
    /// that table.
    #[verifier::loop_isolation(false)]
    #[verifier::rlimit(100)]
    pub fn plan(&self) -> (result: Result<Vec<u64>, PlanningError>)
        requires
            self.wf(),
        ensures
            result matches Ok(ids) ==> plan_valid(self@.actions, self@.state, self@.goal, ids@),
            ws_matches(self@.state, self@.goal) ==> (result matches Ok(ids) && ids@.len() == 0),
            result matches Err(e) ==> e == PlanningError::NoPlanFound
                && !ws_matches(self@.state, self@.goal),
            self@.actions.dom() =~= Set::<u64>::empty() && !ws_matches(self@.state, self@.goal)
                ==> result is Err,
            (exists|q: Seq<u64>|
                #[trigger] plan_valid(self@.actions, self@.state, self@.goal, q) && plan_cost(
                    self@.actions,
                    q,
                ) < usize::MAX as int) ==> result is Ok,
            result matches Ok(ids) ==> forall|q: Seq<u64>|
                #[trigger] plan_valid(self@.actions, self@.state, self@.goal, q) && plan_cost(
                    self@.actions,
                    q,
                ) < usize::MAX as int ==> plan_cost(self@.actions, ids@) <= plan_cost(
                    self@.actions,
                    q,
                ),
            result matches Ok(ids) ==> plan_cost(self@.actions, ids@) <= usize::MAX as int,
    {
        if self.states.matches(&self.goal) {
            proof {
                assert forall|q: Seq<u64>|
                    #[trigger] plan_valid(self@.actions, self@.state, self@.goal, q) && plan_cost(
                        self@.actions,
                        q,
                    ) < usize::MAX as int implies plan_cost(
                    self@.actions,
                    Seq::<u64>::empty(),
                ) <= plan_cost(self@.actions, q) by {
                    lemma_plan_cost_nonneg(self@.actions, q);
                }
            }
            return Ok(Vec::new());
        }
        proof {
            self.actions.lemma_entries();
            self.states.lemma_entry_seq();
        }
        let ghost lib = self@.actions;
        let ghost init = self@.state;
        let ghost goal_m = self@.goal;
        let ghost all_keys = entry_keys(self.states.entry_seq()) + lib_effect_keys(
            self.actions.entry_seq(),
        );
        let ghost universe = maps_over(all_keys).to_set();
        let ghost cap = universe.len();
        let ghost mut settled: Set<Map<u64, bool>> = Set::empty();
        let ghost mut rec: Map<Map<u64, bool>, int> = Map::empty();
        proof {
            assert(keys_cover(all_keys, init)) by {
                assert forall|k: u64| #[trigger] init.contains_key(k)
                    implies all_keys.contains(k) by {
                    let i = choose|i: int|
                        0 <= i < self.states.entry_seq().len() && (#[trigger] self.states
                            .entry_seq()[i]).0 == k;
                    assert(entry_keys(self.states.entry_seq())[i] == k);
                    assert(all_keys[i] == k);
                }
            }
            lemma_maps_over_contains(all_keys, init);
            assert(universe.contains(init));
        }
        let mut arena: Vec<Node> = Vec::new();
        let mut frontier: Vec<(usize, usize)> = Vec::new();
        let mut costs: Vec<(WorldState, usize)> = Vec::new();

        let h0 = heuristic(&self.states, &self.goal);
        arena.push(Node { action: None, state: self.states.clone(), g: 0, parent: None });
        frontier.push((0, h0));
        costs.push((self.states.clone(), 0));
        proof {
            rec = rec.insert(init, 0);
            assert(node_path(arena@, 0) =~= Seq::<u64>::empty());
            assert(run_plan(lib, init, node_path(arena@, 0)) == Some(init));
            assert(node_ok(lib, init, arena@, 0));
            assert(arena@[0].state@ == init && arena@[0].g == 0);
            assert(frontier@[0] == (0usize, h0));
            assert(costs@[0].0@ == init && costs@[0].1 == 0);
            assert(table_views(costs@) <= universe) by {
                assert forall|m: Map<u64, bool>| #[trigger] table_views(costs@).contains(m)
                    implies universe.contains(m) by {
                    let j = choose|j: int|
                        0 <= j < costs@.len() && (#[trigger] costs@[j]).0@ == m;
                    assert(m == init);
                }
            }
            lemma_len_subset(table_views(costs@), universe);
            lemma_table_sum_nonneg(costs@);
            assert(phi(costs@, cap) >= 0);
        }
        loop
            invariant
                arena@.len() >= 1,
                arena_ok(lib, init, arena@),
                forall|j: int| 0 <= j < arena@.len()
                    ==> keys_cover(all_keys, (#[trigger] arena@[j]).state@),
                forall|j: int| 0 <= j < costs@.len() ==> (#[trigger] costs@[j]).0.wf(),
                table_views(costs@) <= universe,
                phi(costs@, cap) >= 0,
                table_distinct(costs@),
                rec_matches(costs@, rec),
                rec.contains_key(init) && rec[init] == 0,
                forall|s: Map<u64, bool>| #[trigger] settled.contains(s)
                    ==> rec.contains_key(s) && !ws_matches(s, goal_m),
                relaxed(lib, settled, rec),
                forall|p: int| 0 <= p < frontier@.len() ==> {
                    let e = #[trigger] frontier@[p];
                    &&& e.0 < arena@.len()
                    &&& e.1 == arena@[e.0 as int].g + hcap(arena@[e.0 as int].state@, goal_m)
                    &&& rec.contains_key(arena@[e.0 as int].state@)
                    &&& rec[arena@[e.0 as int].state@] <= arena@[e.0 as int].g as int
                },
                forall|s: Map<u64, bool>, p: int|
                    #[trigger] settled.contains(s) && 0 <= p < frontier@.len() ==> rec[s] + hcap(
                        s,
                        goal_m,
                    ) <= (#[trigger] frontier@[p]).1,
                forall|m: Map<u64, bool>| #[trigger] rec.contains_key(m) && !settled.contains(m)
                    ==> exists|p: int|
                        0 <= p < frontier@.len() && arena@[(#[trigger] frontier@[p]).0 as int]
                            .state@ == m && arena@[frontier@[p].0 as int].g as int == rec[m],
            decreases phi(costs@, cap), frontier@.len(),
        {
            if frontier.len() == 0 {
                proof {
                    if exists|q: Seq<u64>|
                        #[trigger] plan_valid(lib, init, goal_m, q) && plan_cost(lib, q)
                            < usize::MAX as int {
                        let q = choose|q: Seq<u64>|
                            #[trigger] plan_valid(lib, init, goal_m, q) && plan_cost(lib, q)
                                < usize::MAX as int;
                        let t = run_plan(lib, init, q)->0;
                        assert(ws_matches(t, goal_m));
                        assert(!settled.contains(t));
                        assert(q.take(0) =~= Seq::<u64>::empty());
                        let w = lemma_settled_chain(lib, init, settled, rec, q, 0);
                        let u = run_plan(lib, init, q.take(w))->0;
                        assert(rec.contains_key(u) && !settled.contains(u));
                        assert(false);
                    }
                }
                return Err(PlanningError::NoPlanFound);
            }
            let ghost phi0 = phi(costs@, cap);
            let best = min_index(&frontier);
            let current = frontier[best].0;
            let ghost fcur = frontier@[best as int].1 as int;
            let ghost m_cur = arena@[current as int].state@;
            proof {
                assert(node_ok(lib, init, arena@, current as int));
                assert(fcur == arena@[current as int].g + hcap(m_cur, goal_m));
                assert(rec.contains_key(m_cur) && rec[m_cur] <= arena@[current as int].g as int);
            }
            if arena[current].state.matches(&self.goal) {
                proof {
                    if lib.dom() =~= Set::<u64>::empty() {
                        let p = node_path(arena@, current as int);
                        if p.len() > 0 {
                            assert(!lib.contains_key(p[0]));
                            assert(run_plan(lib, init, p) is None);
                        }
                        assert(p.len() == 0);
                        assert(arena@[current as int].state@ == init);
                        assert(false);
                    }
                    assert forall|j: int| 0 <= j < arena@.len()
                        implies ((#[trigger] arena@[j]).parent matches Some(q) ==> (q as int)
                            < j) by {
                        assert(node_ok(lib, init, arena@, j));
                    }
                    assert(hcap(m_cur, goal_m) == 0);
                    assert(fcur == arena@[current as int].g as int);
                    assert(plan_cost(lib, node_path(arena@, current as int)) == arena@[current as int].g as int);
                    assert forall|q: Seq<u64>|
                        #[trigger] plan_valid(lib, init, goal_m, q) && plan_cost(lib, q)
                            < usize::MAX as int implies plan_cost(
                        lib,
                        node_path(arena@, current as int),
                    ) <= plan_cost(lib, q) by {
                        let t = run_plan(lib, init, q)->0;
                        assert(ws_matches(t, goal_m));
                        assert(!settled.contains(t));
                        assert(q.take(0) =~= Seq::<u64>::empty());
                        let w = lemma_settled_chain(lib, init, settled, rec, q, 0);
                        let u = run_plan(lib, init, q.take(w))->0;
                        assert(rec.contains_key(u) && !settled.contains(u));
                        let p = choose|p: int|
                            0 <= p < frontier@.len() && arena@[(#[trigger] frontier@[p]).0 as int]
                                .state@ == u && arena@[frontier@[p].0 as int].g as int == rec[u];
                        assert(frontier@[p].1 == arena@[frontier@[p].0 as int].g + hcap(u, goal_m));
                        if w == q.len() {
                            assert(q.take(w) =~= q);
                            assert(hcap(u, goal_m) == 0);
                        } else {
                            lemma_run_plan_take(lib, init, q, w + 1);
                            assert(q.take(w + 1) =~= q.take(w).push(q[w]));
                            lemma_run_plan_snoc(lib, init, q.take(w), q[w]);
                            lemma_plan_cost_snoc(lib, q.take(w), q[w]);
                            lemma_plan_cost_take(lib, q, w + 1);
                            assert(lib.contains_key(q[w]));
                            assert(lib[q[w]].wf());
                            assert(plan_cost(lib, q.take(w)) + 1 <= plan_cost(lib, q));
                        }
                        assert(rec[u] + hcap(u, goal_m) <= plan_cost(lib, q));
                        assert(fcur <= frontier@[p].1 as int);
                    }
                }
                let ids = reconstruct(&arena, current);
                return Ok(ids);
            }
            let cur_g = arena[current].g;
            let ghost frontier_before = frontier@;
            let ghost stale = settled.contains(m_cur);
            let popped = frontier.swap_remove(best);
            let ghost flen0 = frontier@.len() as int;
            proof {
                assert(fcur == cur_g + hcap(m_cur, goal_m));
                assert forall|p: int| 0 <= p < frontier@.len() implies {
                    let e = #[trigger] frontier@[p];
                    &&& e.0 < arena@.len()
                    &&& e.1 == arena@[e.0 as int].g + hcap(arena@[e.0 as int].state@, goal_m)
                    &&& rec.contains_key(arena@[e.0 as int].state@)
                    &&& rec[arena@[e.0 as int].state@] <= arena@[e.0 as int].g as int
                    &&& fcur <= e.1 as int
                } by {
                    if p == best {
                        assert(frontier@[p] == frontier_before[frontier_before.len() - 1]);
                    } else {
                        assert(frontier@[p] == frontier_before[p]);
                    }
                }
                if !settled.contains(m_cur) {
                    assert(rec[m_cur] == cur_g as int) by {
                        if rec[m_cur] < cur_g as int {
                            let p = choose|p: int|
                                0 <= p < frontier_before.len() && arena@[(
                                #[trigger] frontier_before[p]).0 as int].state@ == m_cur
                                    && arena@[frontier_before[p].0 as int].g as int == rec[m_cur];
                            assert(frontier_before[p].1 == arena@[frontier_before[p].0 as int].g
                                + hcap(m_cur, goal_m));
                            assert(fcur <= frontier_before[p].1 as int);
                            assert(false);
                        }
                    }
                    settled = settled.insert(m_cur);
                }
                assert(settled.contains(m_cur));
                assert(stale ==> relaxed(lib, settled, rec));
                assert(relaxed(lib, settled.remove(m_cur), rec)) by {
                    assert forall|s: Map<u64, bool>, id: u64|
                        #[trigger] settled.remove(m_cur).contains(s) && lib.contains_key(id)
                            && ws_matches(s, (#[trigger] lib[id]).preconditions@) && rec[s]
                            + lib[id].cost < usize::MAX as int implies rec.contains_key(
                        apply_effects(s, lib[id].effects@),
                    ) && rec[apply_effects(s, lib[id].effects@)] <= rec[s] + lib[id].cost by {
                        assert(s != m_cur || stale);
                    }
                }
                assert forall|s: Map<u64, bool>| #[trigger] settled.contains(s)
                    implies rec.contains_key(s) && !ws_matches(s, goal_m) && rec[s] + hcap(
                    s,
                    goal_m,
                ) <= fcur by {
                    if s != m_cur {
                        assert(rec[s] + hcap(s, goal_m) <= frontier_before[best as int].1);
                    }
                }
                assert forall|s: Map<u64, bool>, p: int|
                    #[trigger] settled.contains(s) && 0 <= p < frontier@.len() implies rec[s]
                    + hcap(s, goal_m) <= (#[trigger] frontier@[p]).1 by {
                    assert(fcur <= frontier@[p].1 as int);
                }
                assert forall|m: Map<u64, bool>|
                    #[trigger] rec.contains_key(m) && !settled.contains(m)
                        implies exists|p: int|
                        0 <= p < frontier@.len() && arena@[(#[trigger] frontier@[p]).0 as int]
                            .state@ == m && arena@[frontier@[p].0 as int].g as int == rec[m] by {
                    let p0 = choose|p: int|
                        0 <= p < frontier_before.len() && arena@[(
                        #[trigger] frontier_before[p]).0 as int].state@ == m
                            && arena@[frontier_before[p].0 as int].g as int == rec[m];
                    if p0 == best {
                        assert(m == m_cur);
                        assert(false);
                    } else if p0 == frontier_before.len() - 1 {
                        assert(frontier@[best as int] == frontier_before[p0]);
                    } else {
                        assert(frontier@[p0] == frontier_before[p0]);
                    }
                }
            }
            let lib_len = self.actions.len();
            let mut ai: usize = 0;
            while ai < lib_len
                invariant
                    ai <= self.actions.entry_seq().len(),
                    current < arena@.len(),
                    arena@[current as int].g == cur_g,
                    arena@[current as int].state@ == m_cur,
                    settled.contains(m_cur),
                    !ws_matches(m_cur, goal_m),
                    fcur == cur_g + hcap(m_cur, goal_m),
                    !stale ==> rec[m_cur] == cur_g as int,
                    arena_ok(lib, init, arena@),
                    forall|j: int| 0 <= j < arena@.len()
                        ==> keys_cover(all_keys, (#[trigger] arena@[j]).state@),
                    forall|j: int| 0 <= j < costs@.len() ==> (#[trigger] costs@[j]).0.wf(),
                    table_views(costs@) <= universe,
                    table_distinct(costs@),
                    rec_matches(costs@, rec),
                    rec.contains_key(init) && rec[init] == 0,
                    forall|s: Map<u64, bool>| #[trigger] settled.contains(s)
                        ==> rec.contains_key(s) && !ws_matches(s, goal_m) && rec[s] + hcap(
                            s,
                            goal_m,
                        ) <= fcur,
                    relaxed(lib, settled.remove(m_cur), rec),
                    stale ==> relaxed(lib, settled, rec),
                    forall|p: int| 0 <= p < frontier@.len() ==> {
                        let e = #[trigger] frontier@[p];
                        &&& e.0 < arena@.len()
                        &&& e.1 == arena@[e.0 as int].g + hcap(arena@[e.0 as int].state@, goal_m)
                        &&& rec.contains_key(arena@[e.0 as int].state@)
                        &&& rec[arena@[e.0 as int].state@] <= arena@[e.0 as int].g as int
                        &&& fcur <= e.1 as int
                    },
                    forall|m: Map<u64, bool>|
                        #[trigger] rec.contains_key(m) && !settled.contains(m)
                            ==> exists|p: int|
                            0 <= p < frontier@.len() && arena@[(#[trigger] frontier@[p]).0 as int]
                                .state@ == m && arena@[frontier@[p].0 as int].g as int == rec[m],
                    forall|t: int| 0 <= t < ai ==> {
                        let act = (#[trigger] self.actions.entry_seq()[t]).1;
                        ws_matches(m_cur, act.preconditions@) && cur_g + act.cost
                            < usize::MAX ==> rec.contains_key(apply_effects(m_cur, act.effects@))
                            && rec[apply_effects(m_cur, act.effects@)] <= cur_g + act.cost
                    },
                    phi(costs@, cap) <= phi0,
                    phi(costs@, cap) == phi0 ==> frontier@.len() <= flen0,
                    phi(costs@, cap) >= 0,
                decreases lib_len - ai,
            {
                let entry = self.actions.entry_at(ai);
                let ghost act_id = entry.0;
                proof {
                    assert(node_ok(lib, init, arena@, current as int));
                    assert(lib.contains_key(act_id) && lib[act_id] == entry.1);
                    assert(lib[act_id].wf());
                }
                if arena[current].state.matches(&entry.1.preconditions) {
                    let new_state = arena[current].state.apply(&entry.1.effects);
                    proof {
                        lemma_lib_effect_keys_cover(self.actions.entry_seq(), ai as int);
                        entry.1.effects.lemma_entry_seq();
                        assert(keys_cover(all_keys, entry.1.effects@)) by {
                            assert forall|k: u64| #[trigger] entry.1.effects@.contains_key(k)
                                implies all_keys.contains(k) by {
                                let j = choose|j: int|
                                    0 <= j < entry.1.effects.entry_seq().len() && (
                                    #[trigger] entry.1.effects.entry_seq()[j]).0 == k;
                                assert(entry_keys(entry.1.effects.entry_seq())[j] == k);
                                assert(entry_keys(entry.1.effects.entry_seq()).contains(k));
                                assert(lib_effect_keys(self.actions.entry_seq()).contains(k));
                                let q = choose|q: int|
                                    0 <= q < lib_effect_keys(self.actions.entry_seq()).len()
                                        && lib_effect_keys(self.actions.entry_seq())[q] == k;
                                assert(all_keys[entry_keys(self.states.entry_seq()).len() + q]
                                    == k);
                            }
                        }
                        assert(keys_cover(all_keys, new_state@)) by {
                            assert(keys_cover(all_keys, arena@[current as int].state@));
                            assert forall|k: u64| #[trigger] new_state@.contains_key(k)
                                implies all_keys.contains(k) by {
                                if arena@[current as int].state@.contains_key(k) {
                                } else {
                                    assert(entry.1.effects@.contains_key(k));
                                }
                            }
                        }
                    }
                    let cost = entry.1.cost;
                    if cur_g <= usize::MAX - cost {
                        let new_g = cur_g + cost;
                        let found = find_state(&costs, &new_state);
                        let better = match found {
                            None => true,
                            Some(i) => new_g < costs[i].1,
                        };
                        if better {
                            proof {
                                assert(!settled.contains(new_state@)) by {
                                    if settled.contains(new_state@) {
                                        assert(rec[new_state@] + hcap(new_state@, goal_m) <= fcur);
                                        assert(rec[new_state@] <= cur_g + 1);
                                        assert(rec[new_state@] <= new_g as int);
                                        match found {
                                            Some(i) => {
                                                assert(costs@[i as int].0@ == new_state@);
                                                assert(rec[new_state@] == costs@[i as int].1 as int);
                                                assert(false);
                                            },
                                            None => {
                                                let j = choose|j: int|
                                                    0 <= j < costs@.len() && (
                                                    #[trigger] costs@[j]).0@ == new_state@;
                                                assert(false);
                                            },
                                        }
                                    }
                                }
                            }
                            let h = heuristic(&new_state, &self.goal);
                            if new_g <= usize::MAX - h {
                                let f = new_g + h;
                                let ghost costs_old = costs@;
                                let ghost rec_old = rec;
                                let record = (new_state.clone(), new_g);
                                match found {
                                    Some(i) => {
                                        costs.remove(i);
                                        costs.insert(i, record);
                                        proof {
                                            let x = costs@[i as int];
                                            assert(x == record);
                                            assert(new_g < costs_old[i as int].1);
                                            assert(costs@ =~= costs_old.update(i as int, x));
                                            lemma_table_sum_update(costs_old, i as int, x);
                                            assert(table_views(costs@) =~= table_views(costs_old))
                                                by {
                                                assert forall|m: Map<u64, bool>|
                                                    #[trigger] table_views(costs@).contains(m)
                                                    implies table_views(costs_old).contains(m) by {
                                                    let j = choose|j: int|
                                                        0 <= j < costs@.len() && (
                                                        #[trigger] costs@[j]).0@ == m;
                                                    assert(costs_old[j].0@ == m);
                                                }
                                                assert forall|m: Map<u64, bool>|
                                                    #[trigger] table_views(costs_old).contains(m)
                                                    implies table_views(costs@).contains(m) by {
                                                    let j = choose|j: int|
                                                        0 <= j < costs_old.len() && (
                                                        #[trigger] costs_old[j]).0@ == m;
                                                    assert(costs@[j].0@ == m);
                                                }
                                            }
                                            assert forall|j: int| 0 <= j < costs@.len()
                                                implies (#[trigger] costs@[j]).0.wf() by {
                                                if j != i {
                                                    assert(costs@[j] == costs_old[j]);
                                                }
                                            }
                                            assert(table_distinct(costs@)) by {
                                                assert forall|j1: int, j2: int|
                                                    0 <= j1 < j2 < costs@.len() implies (
                                                #[trigger] costs@[j1]).0@ != (
                                                #[trigger] costs@[j2]).0@ by {
                                                    assert(costs@[j1].0@ == costs_old[j1].0@);
                                                    assert(costs@[j2].0@ == costs_old[j2].0@);
                                                }
                                            }
                                            lemma_table_sum_nonneg(costs@);
                                            assert(table_sum(costs@) == table_sum(costs_old)
                                                - costs_old[i as int].1 + new_g);
                                            assert(table_views(costs@).len() == table_views(
                                                costs_old,
                                            ).len());
                                            assert(phi(costs@, cap) == phi(costs_old, cap)
                                                - costs_old[i as int].1 + new_g);
                                            assert(phi(costs_old, cap) <= phi0);
                                            lemma_step_down(
                                                phi(costs@, cap),
                                                phi(costs_old, cap),
                                                phi0,
                                                costs_old[i as int].1 as int,
                                                new_g as int,
                                            );
                                            assert(phi(costs@, cap) < phi0);
                                            lemma_len_subset(table_views(costs@), universe);
                                            lemma_mul_nonneg(
                                                usize::MAX as int + 1,
                                                cap as int + 1 - table_views(costs@).len() as int,
                                            );
                                            assert(phi(costs@, cap) >= 0);
                                        }
                                    },
                                    None => {
                                        costs.push(record);
                                        proof {
                                            assert(costs@.drop_last() =~= costs_old);
                                            assert(table_sum(costs@) == table_sum(costs_old)
                                                + new_g);
                                            assert(!table_views(costs_old).contains(new_state@));
                                            assert(table_views(costs@) =~= table_views(
                                                costs_old,
                                            ).insert(new_state@)) by {
                                                assert forall|m: Map<u64, bool>|
                                                    #[trigger] table_views(costs@).contains(m)
                                                    implies table_views(costs_old).insert(
                                                    new_state@,
                                                ).contains(m) by {
                                                    let j = choose|j: int|
                                                        0 <= j < costs@.len() && (
                                                        #[trigger] costs@[j]).0@ == m;
                                                    if j < costs_old.len() {
                                                        assert(costs_old[j].0@ == m);
                                                    }
                                                }
                                                assert forall|m: Map<u64, bool>| table_views(
                                                    costs_old,
                                                ).insert(new_state@).contains(m)
                                                    implies #[trigger] table_views(
                                                    costs@,
                                                ).contains(m) by {
                                                    if m == new_state@ {
                                                        assert(costs@[costs_old.len() as int].0@
                                                            == m);
                                                    } else {
                                                        let j = choose|j: int|
                                                            0 <= j < costs_old.len() && (
                                                            #[trigger] costs_old[j]).0@ == m;
                                                        assert(costs@[j].0@ == m);
                                                    }
                                                }
                                            }
                                            lemma_len_subset(table_views(costs_old), universe);
                                            lemma_maps_over_contains(all_keys, new_state@);
                                            assert(universe.contains(new_state@));
                                            assert(table_views(costs@) <= universe);
                                            assert(table_views(costs@).len() == table_views(
                                                costs_old,
                                            ).len() + 1);
                                            lemma_len_subset(table_views(costs@), universe);
                                            assert forall|j: int| 0 <= j < costs@.len()
                                                implies (#[trigger] costs@[j]).0.wf() by {
                                                if j < costs_old.len() {
                                                    assert(costs@[j] == costs_old[j]);
                                                }
                                            }
                                            assert(table_distinct(costs@)) by {
                                                assert forall|j1: int, j2: int|
                                                    0 <= j1 < j2 < costs@.len() implies (
                                                #[trigger] costs@[j1]).0@ != (
                                                #[trigger] costs@[j2]).0@ by {
                                                    if j2 < costs_old.len() {
                                                        assert(costs@[j1].0@ == costs_old[j1].0@);
                                                        assert(costs@[j2].0@ == costs_old[j2].0@);
                                                    } else {
                                                        assert(costs@[j1].0@ == costs_old[j1].0@);
                                                        assert(costs@[j2].0@ == new_state@);
                                                    }
                                                }
                                            }
                                            lemma_table_sum_nonneg(costs_old);
                                            assert(table_sum(costs@) == table_sum(costs_old)
                                                + new_g);
                                            lemma_mul_drop_one(
                                                usize::MAX as int + 1,
                                                cap as int + 1 - table_views(costs_old).len() as int,
                                            );
                                            assert(cap as int + 1 - table_views(costs@).len() as int
                                                == (cap as int + 1 - table_views(costs_old).len() as int)
                                                - 1);
                                            assert(phi(costs@, cap) == phi(costs_old, cap) - (
                                            usize::MAX as int + 1) + new_g);
                                            assert(phi(costs_old, cap) <= phi0);
                                            lemma_step_down(
                                                phi(costs@, cap),
                                                phi(costs_old, cap),
                                                phi0,
                                                usize::MAX as int + 1,
                                                new_g as int,
                                            );
                                            assert(phi(costs@, cap) < phi0);
                                            lemma_table_sum_nonneg(costs@);
                                            lemma_mul_nonneg(
                                                usize::MAX as int + 1,
                                                cap as int + 1 - table_views(costs@).len() as int,
                                            );
                                            assert(phi(costs@, cap) >= 0);
                                        }
                                    },
                                }
                                proof {
                                    rec = rec.insert(new_state@, new_g as int);
                                    assert(rec_matches(costs@, rec)) by {
                                        assert forall|j: int| 0 <= j < costs@.len()
                                            implies rec.contains_key((#[trigger] costs@[j]).0@)
                                                && rec[costs@[j].0@] == costs@[j].1 as int by {
                                            if costs@[j].0@ != new_state@ {
                                                match found {
                                                    Some(i) => {
                                                        assert(j != i);
                                                        assert(costs@[j] == costs_old[j]);
                                                    },
                                                    None => {
                                                        assert(j < costs_old.len());
                                                        assert(costs@[j] == costs_old[j]);
                                                    },
                                                }
                                            } else {
                                                match found {
                                                    Some(i) => {
                                                        assert(j == i) by {
                                                            if j != i {
                                                                assert(costs@[i as int].0@
                                                                    == new_state@);
                                                            }
                                                        }
                                                    },
                                                    None => {
                                                        assert(j == costs_old.len() as int) by {
                                                            if j < costs_old.len() {
                                                                assert(costs_old[j].0@
                                                                    == new_state@);
                                                            }
                                                        }
                                                    },
                                                }
                                            }
                                        }
                                        assert forall|m: Map<u64, bool>|
                                            #[trigger] rec.contains_key(m)
                                            implies exists|j: int|
                                                0 <= j < costs@.len() && (#[trigger] costs@[j]).0@
                                                    == m by {
                                            if m == new_state@ {
                                                match found {
                                                    Some(i) => {
                                                        assert(costs@[i as int].0@ == m);
                                                    },
                                                    None => {
                                                        assert(costs@[costs_old.len() as int].0@
                                                            == m);
                                                    },
                                                }
                                            } else {
                                                assert(rec_old.contains_key(m));
                                                let j = choose|j: int|
                                                    0 <= j < costs_old.len() && (
                                                    #[trigger] costs_old[j]).0@ == m;
                                                match found {
                                                    Some(i) => {
                                                        assert(j != i);
                                                        assert(costs@[j].0@ == m);
                                                    },
                                                    None => {
                                                        assert(costs@[j].0@ == m);
                                                    },
                                                }
                                            }
                                        }
                                    }
                                    assert forall|s: Map<u64, bool>| #[trigger] settled.contains(s)
                                        implies rec.contains_key(s) && !ws_matches(s, goal_m)
                                            && rec[s] + hcap(s, goal_m) <= fcur by {
                                        assert(s != new_state@);
                                        assert(rec[s] == rec_old[s]);
                                    }
                                    assert(relaxed(lib, settled.remove(m_cur), rec)) by {
                                        assert forall|s: Map<u64, bool>, id: u64|
                                            #[trigger] settled.remove(m_cur).contains(s)
                                                && lib.contains_key(id) && ws_matches(
                                                s,
                                                (#[trigger] lib[id]).preconditions@,
                                            ) && rec[s] + lib[id].cost < usize::MAX as int
                                            implies rec.contains_key(
                                            apply_effects(s, lib[id].effects@),
                                        ) && rec[apply_effects(s, lib[id].effects@)] <= rec[s]
                                            + lib[id].cost by {
                                            assert(s != new_state@);
                                            assert(rec[s] == rec_old[s]);
                                            assert(rec_old.contains_key(
                                                apply_effects(s, lib[id].effects@),
                                            ) && rec_old[apply_effects(s, lib[id].effects@)]
                                                <= rec_old[s] + lib[id].cost);
                                        }
                                    }
                                    if stale {
                                        assert(relaxed(lib, settled, rec)) by {
                                            assert forall|s: Map<u64, bool>, id: u64|
                                                #[trigger] settled.contains(s) && lib.contains_key(
                                                id,
                                            ) && ws_matches(
                                                s,
                                                (#[trigger] lib[id]).preconditions@,
                                            ) && rec[s] + lib[id].cost < usize::MAX as int
                                                implies rec.contains_key(
                                                apply_effects(s, lib[id].effects@),
                                            ) && rec[apply_effects(s, lib[id].effects@)] <= rec[s]
                                                + lib[id].cost by {
                                                assert(s != new_state@);
                                                assert(rec[s] == rec_old[s]);
                                                assert(rec_old.contains_key(
                                                    apply_effects(s, lib[id].effects@),
                                                ) && rec_old[apply_effects(s, lib[id].effects@)]
                                                    <= rec_old[s] + lib[id].cost);
                                            }
                                        }
                                    }
                                }
                                let child = Node {
                                    action: Some(entry.0),
                                    state: new_state,
                                    g: new_g,
                                    parent: Some(current),
                                };
                                let ghost arena_old = arena@;
                                let ghost child_g = child;
                                let ghost frontier_old = frontier@;
                                proof {
                                    assert forall|j: int| 0 <= j < arena_old.len()
                                        implies ((#[trigger] arena_old[j]).parent matches Some(q)
                                            ==> (q as int) < j) by {
                                        assert(node_ok(lib, init, arena_old, j));
                                    }
                                }
                                arena.push(child);
                                frontier.push((arena.len() - 1, f));
                                proof {
                                    let l = arena_old.len() as int;
                                    assert(arena@ == arena_old.push(child_g));
                                    assert forall|i: int| 0 <= i < arena@.len()
                                        implies #[trigger] node_ok(lib, init, arena@, i) by {
                                        if i < l {
                                            lemma_node_path_push(arena_old, child_g, i);
                                            assert(arena@[i] == arena_old[i]);
                                            assert(node_ok(lib, init, arena_old, i));
                                        } else {
                                            lemma_node_path_push(arena_old, child_g, current as int);
                                            assert(arena@[i] == child_g);
                                            let p0 = node_path(arena_old, current as int);
                                            assert(node_path(arena@, i) == node_path(
                                                arena@,
                                                current as int,
                                            ) + seq![act_id]);
                                            assert(node_path(arena@, current as int) == p0);
                                            assert(node_ok(lib, init, arena_old, current as int));
                                            assert(run_plan(lib, init, p0) == Some(
                                                arena_old[current as int].state@,
                                            ));
                                            lemma_run_plan_snoc(lib, init, p0, act_id);
                                            lemma_plan_cost_snoc(lib, p0, act_id);
                                            assert(p0 + seq![act_id] =~= p0.push(act_id));
                                            assert(plan_cost(lib, p0)
                                                == arena_old[current as int].g as int);
                                            assert(plan_cost(lib, p0.push(act_id)) == plan_cost(
                                                lib,
                                                p0,
                                            ) + lib[act_id].cost as int);
                                            assert(child_g.g == new_g && new_g == cur_g
                                                + entry.1.cost);
                                            assert(run_plan(lib, init, p0.push(act_id)) == Some(
                                                apply_effects(
                                                    arena_old[current as int].state@,
                                                    lib[act_id].effects@,
                                                ),
                                            ));
                                        }
                                    }
                                    assert forall|j: int| 0 <= j < arena@.len()
                                        implies keys_cover(
                                        all_keys,
                                        (#[trigger] arena@[j]).state@,
                                    ) by {
                                        if j < l {
                                            assert(arena@[j] == arena_old[j]);
                                        } else {
                                            assert(arena@[j] == child_g);
                                        }
                                    }
                                    assert(child_g.state@ == apply_effects(
                                        m_cur,
                                        lib[act_id].effects@,
                                    ));
                                    assert(h == hcap(child_g.state@, goal_m));
                                    assert(rec[child_g.state@] == new_g as int);
                                    assert forall|p: int| 0 <= p < frontier@.len() implies {
                                        let e = #[trigger] frontier@[p];
                                        &&& e.0 < arena@.len()
                                        &&& e.1 == arena@[e.0 as int].g + hcap(
                                            arena@[e.0 as int].state@,
                                            goal_m,
                                        )
                                        &&& rec.contains_key(arena@[e.0 as int].state@)
                                        &&& rec[arena@[e.0 as int].state@] <= arena@[e.0 as int].g
                                            as int
                                        &&& fcur <= e.1 as int
                                    } by {
                                        if p < frontier_old.len() {
                                            assert(frontier@[p] == frontier_old[p]);
                                            assert(arena@[frontier_old[p].0 as int]
                                                == arena_old[frontier_old[p].0 as int]);
                                            assert(rec.contains_key(
                                                arena_old[frontier_old[p].0 as int].state@,
                                            ) ==> true);
                                            if arena_old[frontier_old[p].0 as int].state@
                                                == new_state@ {
                                                assert(rec[new_state@] == new_g as int);
                                                assert(new_g as int <= rec_old[new_state@]
                                                    || !rec_old.contains_key(new_state@));
                                            } else {
                                                assert(rec[arena_old[frontier_old[p].0 as int]
                                                    .state@] == rec_old[arena_old[frontier_old[p]
                                                    .0 as int].state@]);
                                            }
                                        } else {
                                            assert(frontier@[p] == (l as usize, f));
                                            assert(arena@[l] == child_g);
                                            assert(fcur <= f as int) by {
                                                assert(hcap(m_cur, goal_m) <= 1);
                                                assert(entry.1.cost >= 1);
                                            }
                                        }
                                    }
                                    assert forall|m: Map<u64, bool>|
                                        #[trigger] rec.contains_key(m) && !settled.contains(m)
                                            implies exists|p: int|
                                            0 <= p < frontier@.len() && arena@[(
                                            #[trigger] frontier@[p]).0 as int].state@ == m
                                                && arena@[frontier@[p].0 as int].g as int == rec[m] by {
                                        if m == new_state@ {
                                            assert(frontier@[frontier_old.len() as int]
                                                == (l as usize, f));
                                            assert(arena@[l].state@ == m);
                                            assert(arena@[l].g as int == rec[m]);
                                        } else {
                                            assert(rec_old.contains_key(m) && rec_old[m] == rec[m]);
                                            let p = choose|p: int|
                                                0 <= p < frontier_old.len() && arena_old[(
                                                #[trigger] frontier_old[p]).0 as int].state@ == m
                                                    && arena_old[frontier_old[p].0 as int].g as int
                                                    == rec_old[m];
                                            assert(frontier@[p] == frontier_old[p]);
                                            assert(arena@[frontier_old[p].0 as int]
                                                == arena_old[frontier_old[p].0 as int]);
                                        }
                                    }
                                }
                            } else {
                                proof {
                                    assert(h <= 1);
                                    assert(cur_g + cost >= usize::MAX);
                                }
                            }
                        } else {
                            proof {
                                match found {
                                    Some(i) => {
                                        assert(costs@[i as int].0@ == new_state@);
                                        assert(rec.contains_key(new_state@));
                                        assert(rec[new_state@] == costs@[i as int].1 as int);
                                        assert(rec[new_state@] <= new_g as int);
                                    },
                                    None => {
                                        assert(false);
                                    },
                                }
                            }
                        }
                    }
                }
                proof {
                    assert forall|t: int| 0 <= t < ai + 1 implies {
                        let act = (#[trigger] self.actions.entry_seq()[t]).1;
                        ws_matches(m_cur, act.preconditions@) && cur_g + act.cost
                            < usize::MAX ==> rec.contains_key(apply_effects(m_cur, act.effects@))
                            && rec[apply_effects(m_cur, act.effects@)] <= cur_g + act.cost
                    } by {
                        let act = self.actions.entry_seq()[t].1;
                        if t == ai && ws_matches(m_cur, act.preconditions@) && cur_g + act.cost
                            < usize::MAX {
                            assert(act == entry.1);
                        }
                    }
                }
                ai += 1;
            }
            proof {
                assert(relaxed(lib, settled, rec)) by {
                    if stale {
                    } else {
                        assert forall|s: Map<u64, bool>, id: u64|
                            #[trigger] settled.contains(s) && lib.contains_key(id) && ws_matches(
                                s,
                                (#[trigger] lib[id]).preconditions@,
                            ) && rec[s] + lib[id].cost < usize::MAX as int
                            implies rec.contains_key(apply_effects(s, lib[id].effects@))
                                && rec[apply_effects(s, lib[id].effects@)] <= rec[s]
                                + lib[id].cost by {
                            if s == m_cur {
                                let t = choose|t: int|
                                    0 <= t < self.actions.entry_seq().len() && (#[trigger] self
                                        .actions.entry_seq()[t]).0 == id;
                                assert(self.actions.entry_seq()[t].1 == lib[id]);
                                assert(rec[m_cur] == cur_g as int);
                            } else {
                                assert(settled.remove(m_cur).contains(s));
                            }
                        }
                    }
                }
                assert forall|s: Map<u64, bool>, p: int|
                    #[trigger] settled.contains(s) && 0 <= p < frontier@.len() implies rec[s]
                    + hcap(s, goal_m) <= (#[trigger] frontier@[p]).1 by {
                    assert(fcur <= frontier@[p].1 as int);
                }
            }
        }
    }
}

} // verus!
