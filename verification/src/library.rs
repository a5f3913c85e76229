use vstd::prelude::*;

use crate::state::{
    lemma_pairs_map_entries, lemma_sorted_insert, lemma_sorted_remove, pairs_map, pairs_sorted,
    ws_matches, WorldState,
};

verus! {

/// An immutable action record: the preconditions a state must match before
/// the action applies, the effects it sets onto the state, and its positive
/// cost. The identifier lives in the library that registers the action.
pub struct Action {
    pub preconditions: WorldState,
    pub effects: WorldState,
    pub cost: usize,
}

impl Action {
    /// Both partial states are canonical and the cost is positive: a zero
    /// cost would let the search apply the action without bound.
    pub open spec fn wf(&self) -> bool {
        self.preconditions.wf() && self.effects.wf() && self.cost >= 1
    }
}

/// A registry mapping action identifiers to actions, kept sorted by
/// identifier so enumeration is deterministic.
pub struct ActionLibrary {
    entries: Vec<(u64, Action)>,
}

impl View for ActionLibrary {
    type V = Map<u64, Action>;

    closed spec fn view(&self) -> Map<u64, Action> {
        pairs_map(self.entries@)
    }
}

impl ActionLibrary {
    /// The registered actions in ascending identifier order.
    pub closed spec fn entry_seq(&self) -> Seq<(u64, Action)> {
        self.entries@
    }

    /// Identifiers strictly ascending, every registered action well formed.
    pub open spec fn wf(&self) -> bool {
        pairs_sorted(self.entry_seq())
            && forall|i: int|
                0 <= i < self.entry_seq().len() ==> (#[trigger] self.entry_seq()[i]).1.wf()
    }

    /// On a well-formed library, every listed entry is in the view and every
    /// action in the view is well formed.
    pub proof fn lemma_entries(&self)
        requires
            self.wf(),
        ensures
            forall|i: int| 0 <= i < self.entry_seq().len()
                ==> self@.contains_key((#[trigger] self.entry_seq()[i]).0)
                    && self@[self.entry_seq()[i].0] == self.entry_seq()[i].1,
            forall|k: u64| #[trigger] self@.contains_key(k)
                ==> exists|i: int|
                    0 <= i < self.entry_seq().len() && (#[trigger] self.entry_seq()[i]).0 == k,
            forall|k: u64| #[trigger] self@.contains_key(k) ==> self@[k].wf(),
    {
        lemma_pairs_map_entries(self.entries@);
        assert forall|k: u64| #[trigger] self@.contains_key(k) implies self@[k].wf() by {
            let i = choose|i: int|
                0 <= i < self.entries@.len() && (#[trigger] self.entries@[i]).0 == k;
            assert(self@[k] == self.entries@[i].1);
        }
    }

    /// An empty registry.
    pub fn new() -> (r: ActionLibrary)
        ensures
            r.wf(),
            r@ == Map::<u64, Action>::empty(),
            r.entry_seq() == Seq::<(u64, Action)>::empty(),
    {
        let r = ActionLibrary { entries: Vec::new() };
        proof {
            assert(r.entry_seq() =~= Seq::<(u64, Action)>::empty());
        }
        r
    }

    /// How many actions are registered.
    pub fn len(&self) -> (n: usize)
        ensures
            n == self.entry_seq().len(),
    {
        self.entries.len()
    }

    /// The `i`-th identifier/action pair in ascending identifier order.
    pub fn entry_at(&self, i: usize) -> (r: &(u64, Action))
        requires
            i < self.entry_seq().len(),
        ensures
            *r == self.entry_seq()[i as int],
    {
        &self.entries[i]
    }

    /// Registers `action` under `id`, replacing any earlier registration for
    /// the same identifier.
    #[verifier::loop_isolation(false)]
    pub fn register(&mut self, id: u64, action: Action)
        requires
            old(self).wf(),
            action.wf(),
        ensures
            final(self).wf(),
            final(self)@ == old(self)@.insert(id, action),
    {
        let ghost s_old = self.entries@;
        let mut pos: usize = 0;
        while pos < self.entries.len() && self.entries[pos].0 < id
            invariant
                pos <= self.entries@.len(),
                self.entries@ == s_old,
                forall|j: int| 0 <= j < pos ==> (#[trigger] self.entries@[j]).0 < id,
            decreases self.entries@.len() - pos,
        {
            pos += 1;
        }
        let replaced = pos < self.entries.len() && self.entries[pos].0 == id;
        if replaced {
            proof {
                lemma_sorted_remove(s_old, pos as int);
            }
            self.entries.remove(pos);
        }
        let ghost s_mid = self.entries@;
        proof {
            assert forall|j: int| 0 <= j < pos implies (#[trigger] s_mid[j]).0 < id by {
                assert(s_mid[j] == s_old[j]);
            }
            assert forall|j: int| pos <= j < s_mid.len() implies id < (#[trigger] s_mid[j]).0 by {
                if replaced {
                    assert(s_mid[j] == s_old[j + 1]);
                    assert(s_old[pos as int].0 < s_old[j + 1].0);
                } else {
                    if j > pos {
                        assert(s_old[pos as int].0 < s_old[j].0);
                    }
                }
            }
            lemma_sorted_insert(s_mid, pos as int, id, action);
        }
        self.entries.insert(pos, (id, action));
        proof {
            if replaced {
                assert(pairs_map(s_mid) == pairs_map(s_old).remove(id));
                assert(pairs_map(s_old).remove(id).insert(id, action)
                    =~= pairs_map(s_old).insert(id, action));
            }
            assert forall|i: int| 0 <= i < self.entries@.len()
                implies (#[trigger] self.entries@[i]).1.wf() by {
                if i < pos {
                    assert(self.entries@[i] == s_mid[i]);
                    if replaced {
                        assert(s_mid[i] == s_old[i]);
                    }
                } else if i > pos {
                    assert(self.entries@[i] == s_mid[i - 1]);
                    if replaced {
                        assert(s_mid[i - 1] == s_old[i]);
                    }
                }
            }
        }
    }

    /// Looks an action up by identifier.
    #[verifier::loop_isolation(false)]
    pub fn get(&self, id: u64) -> (r: Option<&Action>)
        requires
            self.wf(),
        ensures
            r is Some <==> self@.contains_key(id),
            r is Some ==> *r->0 == self@[id],
    {
        proof {
            lemma_pairs_map_entries(self.entries@);
        }
        let mut i: usize = 0;
        while i < self.entries.len()
            invariant
                i <= self.entries@.len(),
                forall|j: int| 0 <= j < i ==> (#[trigger] self.entries@[j]).0 != id,
            decreases self.entries@.len() - i,
        {
            if self.entries[i].0 == id {
                return Some(&self.entries[i].1);
            }
            i += 1;
        }
        proof {
            if self@.contains_key(id) {
                let j = choose|j: int|
                    0 <= j < self.entries@.len() && (#[trigger] self.entries@[j]).0 == id;
                assert(false);
            }
        }
        None
    }

    /// The identifiers of exactly those actions whose preconditions `state`
    /// matches, in ascending identifier order: enumeration is deterministic,
    /// so search outcomes are reproducible.
    #[verifier::loop_isolation(false)]
    pub fn applicable(&self, state: &WorldState) -> (r: Vec<u64>)
        requires
            self.wf(),
            state.wf(),
        ensures
            forall|p: int, q: int| 0 <= p < q < r@.len() ==> r@[p] < r@[q],
            forall|j: int| 0 <= j < r@.len()
                ==> self@.contains_key(#[trigger] r@[j])
                    && ws_matches(state@, self@[r@[j]].preconditions@),
            forall|k: u64|
                self@.contains_key(k) && ws_matches(state@, (#[trigger] self@[k]).preconditions@)
                    ==> r@.contains(k),
    {
        proof {
            self.lemma_entries();
        }
        let mut r: Vec<u64> = Vec::new();
        let mut i: usize = 0;
        while i < self.entries.len()
            invariant
                i <= self.entries@.len(),
                forall|p: int, q: int| 0 <= p < q < r@.len() ==> r@[p] < r@[q],
                forall|j: int| 0 <= j < r@.len()
                    ==> exists|t: int|
                        0 <= t < i && (#[trigger] self.entries@[t]).0 == #[trigger] r@[j],
                forall|j: int| 0 <= j < r@.len()
                    ==> self@.contains_key(#[trigger] r@[j])
                        && ws_matches(state@, self@[r@[j]].preconditions@),
                forall|t: int|
                    0 <= t < i && ws_matches(state@, (#[trigger] self.entries@[t]).1.preconditions@)
                        ==> r@.contains(self.entries@[t].0),
            decreases self.entries@.len() - i,
        {
            let e = &self.entries[i];
            let ghost r_old = r@;
            if state.matches(&e.1.preconditions) {
                proof {
                    assert forall|j: int| 0 <= j < r@.len() implies r@[j] < e.0 by {
                        let t = choose|t: int|
                            0 <= t < i && (#[trigger] self.entries@[t]).0 == r@[j];
                        assert(self.entries@[t].0 < self.entries@[i as int].0);
                    }
                }
                r.push(e.0);
            }
            proof {
                assert forall|t: int|
                    0 <= t < i + 1
                        && ws_matches(state@, (#[trigger] self.entries@[t]).1.preconditions@)
                    implies r@.contains(self.entries@[t].0) by {
                    if t == i {
                        assert(r@[r@.len() - 1] == self.entries@[t].0);
                    } else {
                        assert(r_old.contains(self.entries@[t].0));
                        let j = choose|j: int| 0 <= j < r_old.len() && r_old[j] == self.entries@[t].0;
                        assert(r@[j] == self.entries@[t].0);
                    }
                }
            }
            i += 1;
        }
        proof {
            assert forall|k: u64|
                self@.contains_key(k) && ws_matches(state@, (#[trigger] self@[k]).preconditions@)
                implies r@.contains(k) by {
                let t = choose|t: int|
                    0 <= t < self.entries@.len() && (#[trigger] self.entries@[t]).0 == k;
                assert(self@[k] == self.entries@[t].1);
            }
        }
        r
    }
}

} // verus!
