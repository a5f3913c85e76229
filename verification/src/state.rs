use vstd::prelude::*;

verus! {

/// A sequence of key/value pairs is canonical when its keys are strictly
/// ascending, so every key occurs at most once.
pub open spec fn pairs_sorted<V>(s: Seq<(u64, V)>) -> bool {
    forall|i: int, j: int|
        0 <= i < j < s.len() ==> (#[trigger] s[i]).0 < (#[trigger] s[j]).0
}

/// The partial map that a sequence of key/value pairs denotes; a later entry
/// for a key overrides an earlier one.
pub open spec fn pairs_map<V>(s: Seq<(u64, V)>) -> Map<u64, V>
    decreases s.len(),
{
    if s.len() == 0 {
        Map::empty()
    } else {
        pairs_map(s.drop_last()).insert(s.last().0, s.last().1)
    }
}

/// `s` holds every condition that `partial` constrains, with the same value.
/// A key absent from `s` never matches, whatever `partial` asks of it.
pub open spec fn ws_matches(s: Map<u64, bool>, partial: Map<u64, bool>) -> bool {
    forall|k: u64|
        #[trigger] partial.contains_key(k) ==> s.contains_key(k) && s[k] == partial[k]
}

/// The state reached by applying every entry of `e` onto `s`, overwriting.
pub open spec fn apply_effects(s: Map<u64, bool>, e: Map<u64, bool>) -> Map<u64, bool> {
    s.union_prefer_right(e)
}

/// Dropping the last entry keeps a canonical sequence canonical.
pub proof fn lemma_sorted_drop_last<V>(s: Seq<(u64, V)>)
    requires
        pairs_sorted(s),
        s.len() > 0,
    ensures
        pairs_sorted(s.drop_last()),
{
    assert forall|i: int, j: int| 0 <= i < j < s.drop_last().len()
        implies (#[trigger] s.drop_last()[i]).0 < (#[trigger] s.drop_last()[j]).0 by {
        assert(s.drop_last()[i] == s[i]);
        assert(s.drop_last()[j] == s[j]);
    }
}

/// On a canonical sequence, the denoted map contains exactly the listed keys,
/// each bound to the listed value.
pub proof fn lemma_pairs_map_entries<V>(s: Seq<(u64, V)>)
    requires
        pairs_sorted(s),
    ensures
        forall|k: u64| #[trigger] pairs_map(s).contains_key(k)
            ==> exists|i: int| 0 <= i < s.len() && (#[trigger] s[i]).0 == k,
        forall|i: int| 0 <= i < s.len()
            ==> pairs_map(s).contains_key((#[trigger] s[i]).0) && pairs_map(s)[s[i].0] == s[i].1,
    decreases s.len(),
{
    if s.len() > 0 {
        let s0 = s.drop_last();
        lemma_sorted_drop_last(s);
        lemma_pairs_map_entries(s0);
        let last = s.last();
        assert forall|k: u64| #[trigger] pairs_map(s).contains_key(k)
            implies exists|i: int| 0 <= i < s.len() && (#[trigger] s[i]).0 == k by {
            if k == last.0 {
                assert(0 <= s.len() - 1 < s.len() && (s[s.len() - 1]).0 == k);
            } else {
                assert(pairs_map(s0).contains_key(k));
                let i = choose|i: int| 0 <= i < s0.len() && (#[trigger] s0[i]).0 == k;
                assert((s[i]).0 == k);
            }
        }
        assert forall|i: int| 0 <= i < s.len()
            implies pairs_map(s).contains_key((#[trigger] s[i]).0)
                && pairs_map(s)[s[i].0] == s[i].1 by {
            if i < s.len() - 1 {
                assert(s0[i] == s[i]);
                assert(pairs_map(s0).contains_key(s[i].0) && pairs_map(s0)[s[i].0] == s[i].1);
                assert(s[i].0 < last.0);
            }
        }
    }
}

/// Removing the entry at `pos` removes exactly its key from the denoted map.
pub proof fn lemma_sorted_remove<V>(s: Seq<(u64, V)>, pos: int)
    requires
        pairs_sorted(s),
        0 <= pos < s.len(),
    ensures
        pairs_sorted(s.remove(pos)),
        pairs_map(s.remove(pos)) == pairs_map(s).remove(s[pos].0),
{
    let t = s.remove(pos);
    assert forall|i: int, j: int| 0 <= i < j < t.len()
        implies (#[trigger] t[i]).0 < (#[trigger] t[j]).0 by {
        assert(t[i] == (if i < pos { s[i] } else { s[i + 1] }));
        assert(t[j] == (if j < pos { s[j] } else { s[j + 1] }));
    }
    lemma_pairs_map_entries(s);
    lemma_pairs_map_entries(t);
    let k = s[pos].0;
    assert(pairs_map(t) =~= pairs_map(s).remove(k)) by {
        assert forall|q: u64| #[trigger] pairs_map(t).contains_key(q)
            implies pairs_map(s).remove(k).contains_key(q)
                && pairs_map(t)[q] == pairs_map(s).remove(k)[q] by {
            let i = choose|i: int| 0 <= i < t.len() && (#[trigger] t[i]).0 == q;
            let ghost si = if i < pos { i } else { i + 1 };
            assert(t[i] == s[si]);
            assert(q != k);
            assert(pairs_map(s).contains_key(q) && pairs_map(s)[q] == s[si].1);
            assert(pairs_map(t)[q] == t[i].1);
        }
        assert forall|q: u64| pairs_map(s).remove(k).contains_key(q)
            implies #[trigger] pairs_map(t).contains_key(q) by {
            let i = choose|i: int| 0 <= i < s.len() && (#[trigger] s[i]).0 == q;
            assert(i != pos);
            let ghost ti = if i < pos { i } else { i - 1 };
            assert(t[ti] == s[i]);
        }
    }
}

/// Inserting an entry at its sorted position inserts exactly its key into
/// the denoted map.
pub proof fn lemma_sorted_insert<V>(s: Seq<(u64, V)>, pos: int, key: u64, value: V)
    requires
        pairs_sorted(s),
        0 <= pos <= s.len(),
        forall|j: int| 0 <= j < pos ==> (#[trigger] s[j]).0 < key,
        forall|j: int| pos <= j < s.len() ==> key < (#[trigger] s[j]).0,
    ensures
        pairs_sorted(s.insert(pos, (key, value))),
        pairs_map(s.insert(pos, (key, value))) == pairs_map(s).insert(key, value),
{
    let t = s.insert(pos, (key, value));
    assert forall|i: int| 0 <= i < t.len()
        implies t[i] == (if i < pos {
            s[i]
        } else if i == pos {
            (key, value)
        } else {
            s[i - 1]
        }) by {}
    assert forall|i: int, j: int| 0 <= i < j < t.len()
        implies (#[trigger] t[i]).0 < (#[trigger] t[j]).0 by {}
    lemma_pairs_map_entries(s);
    lemma_pairs_map_entries(t);
    assert(pairs_map(t) =~= pairs_map(s).insert(key, value)) by {
        assert forall|q: u64| #[trigger] pairs_map(t).contains_key(q)
            implies pairs_map(s).insert(key, value).contains_key(q)
                && pairs_map(t)[q] == pairs_map(s).insert(key, value)[q] by {
            let i = choose|i: int| 0 <= i < t.len() && (#[trigger] t[i]).0 == q;
            assert(pairs_map(t)[q] == t[i].1);
            if i != pos {
                let ghost si = if i < pos { i } else { i - 1 };
                assert(t[i] == s[si]);
                assert(q != key);
                assert(pairs_map(s).contains_key(q) && pairs_map(s)[q] == s[si].1);
            }
        }
        assert forall|q: u64| pairs_map(s).insert(key, value).contains_key(q)
            implies #[trigger] pairs_map(t).contains_key(q) by {
            if q == key {
                assert(t[pos].0 == q);
            } else {
                let i = choose|i: int| 0 <= i < s.len() && (#[trigger] s[i]).0 == q;
                let ghost ti = if i < pos { i } else { i + 1 };
                assert(t[ti] == s[i]);
            }
        }
    }
}

/// Two canonical sequences that denote the same map are the same sequence:
/// the sorted listing is a canonical form.
pub proof fn lemma_pairs_map_canonical<V>(s1: Seq<(u64, V)>, s2: Seq<(u64, V)>)
    requires
        pairs_sorted(s1),
        pairs_sorted(s2),
        pairs_map(s1) == pairs_map(s2),
    ensures
        s1 == s2,
    decreases s1.len() + s2.len(),
{
    lemma_pairs_map_entries(s1);
    lemma_pairs_map_entries(s2);
    if s1.len() == 0 && s2.len() == 0 {
        assert(s1 =~= s2);
    } else if s1.len() == 0 {
        assert(pairs_map(s2).contains_key((s2[s2.len() - 1]).0));
        assert(pairs_map(s1).dom() =~= Set::<u64>::empty());
        assert(false);
    } else if s2.len() == 0 {
        assert(pairs_map(s1).contains_key((s1[s1.len() - 1]).0));
        assert(pairs_map(s2).dom() =~= Set::<u64>::empty());
        assert(false);
    } else {
        let k1 = s1.last().0;
        let k2 = s2.last().0;
        assert(pairs_map(s1).contains_key(k1) && pairs_map(s1)[k1] == s1.last().1);
        assert(pairs_map(s2).contains_key(k2) && pairs_map(s2)[k2] == s2.last().1);
        let i2 = choose|i: int| 0 <= i < s2.len() && (#[trigger] s2[i]).0 == k1;
        assert(k1 <= k2) by {
            if i2 < s2.len() - 1 {
                assert((s2[i2]).0 < (s2[s2.len() - 1]).0);
            }
        }
        let i1 = choose|i: int| 0 <= i < s1.len() && (#[trigger] s1[i]).0 == k2;
        assert(k2 <= k1) by {
            if i1 < s1.len() - 1 {
                assert((s1[i1]).0 < (s1[s1.len() - 1]).0);
            }
        }
        assert(k1 == k2);
        assert(s1.last().1 == s2.last().1);
        let t1 = s1.drop_last();
        let t2 = s2.drop_last();
        lemma_sorted_drop_last(s1);
        lemma_sorted_drop_last(s2);
        lemma_pairs_map_entries(t1);
        lemma_pairs_map_entries(t2);
        assert(!pairs_map(t1).contains_key(k1)) by {
            if pairs_map(t1).contains_key(k1) {
                let i = choose|i: int| 0 <= i < t1.len() && (#[trigger] t1[i]).0 == k1;
                assert((s1[i]).0 < (s1[s1.len() - 1]).0);
            }
        }
        assert(!pairs_map(t2).contains_key(k2)) by {
            if pairs_map(t2).contains_key(k2) {
                let i = choose|i: int| 0 <= i < t2.len() && (#[trigger] t2[i]).0 == k2;
                assert((s2[i]).0 < (s2[s2.len() - 1]).0);
            }
        }
        assert(pairs_map(t1) =~= pairs_map(s1).remove(k1));
        assert(pairs_map(t2) =~= pairs_map(s2).remove(k2));
        lemma_pairs_map_canonical(t1, t2);
        assert(s1 =~= s2) by {
            assert(s1.len() == s2.len());
            assert(forall|i: int| 0 <= i < s1.len() - 1 ==> s1[i] == t1[i] && s2[i] == t2[i]);
            assert(s1[s1.len() - 1] == (k1, s1.last().1));
            assert(s2[s2.len() - 1] == (k2, s2.last().1));
        }
    }
}

/// A partial world description: an ordered mapping from condition keys to
/// booleans, kept sorted by key so that two states built in different
/// insertion orders are structurally equal exactly when they denote the
/// same map.
pub struct WorldState {
    entries: Vec<(u64, bool)>,
}

impl View for WorldState {
    type V = Map<u64, bool>;

    closed spec fn view(&self) -> Map<u64, bool> {
        pairs_map(self.entries@)
    }
}

impl WorldState {
    /// The entries in ascending key order.
    pub closed spec fn entry_seq(&self) -> Seq<(u64, bool)> {
        self.entries@
    }

    /// The entries are canonical: strictly ascending keys.
    pub open spec fn wf(&self) -> bool {
        pairs_sorted(self.entry_seq())
    }

    /// Under `wf`, the canonical listing denotes exactly the view: every
    /// listed entry is in the view, and every view entry is listed.
    pub proof fn lemma_entry_seq(&self)
        requires
            self.wf(),
        ensures
            pairs_map(self.entry_seq()) == self@,
            forall|i: int| 0 <= i < self.entry_seq().len()
                ==> self@.contains_key((#[trigger] self.entry_seq()[i]).0)
                    && self@[self.entry_seq()[i].0] == self.entry_seq()[i].1,
            forall|k: u64| #[trigger] self@.contains_key(k)
                ==> exists|i: int|
                    0 <= i < self.entry_seq().len() && (#[trigger] self.entry_seq()[i]).0 == k,
    {
        lemma_pairs_map_entries(self.entries@);
    }

    /// An empty state: no condition is constrained.
    pub fn new() -> (r: WorldState)
        ensures
            r.wf(),
            r@ == Map::<u64, bool>::empty(),
            r.entry_seq() == Seq::<(u64, bool)>::empty(),
    {
        let r = WorldState { entries: Vec::new() };
        proof {
            assert(r.entry_seq() =~= Seq::<(u64, bool)>::empty());
        }
        r
    }

    /// How many conditions this state constrains.
    pub fn entry_count(&self) -> (n: usize)
        ensures
            n == self.entry_seq().len(),
    {
        self.entries.len()
    }

    /// The `i`-th entry in ascending key order.
    pub fn entry_at(&self, i: usize) -> (r: (u64, bool))
        requires
            i < self.entry_seq().len(),
        ensures
            r == self.entry_seq()[i as int],
    {
        self.entries[i]
    }

    /// Looks a condition up: `None` when the state leaves it unconstrained.
    #[verifier::loop_isolation(false)]
    pub fn get(&self, key: u64) -> (r: Option<bool>)
        requires
            self.wf(),
        ensures
            r is Some <==> self@.contains_key(key),
            r is Some ==> r->0 == self@[key],
    {
        proof {
            lemma_pairs_map_entries(self.entries@);
        }
        let mut i: usize = 0;
        while i < self.entries.len()
            invariant
                i <= self.entries@.len(),
                forall|j: int| 0 <= j < i ==> (#[trigger] self.entries@[j]).0 != key,
            decreases self.entries@.len() - i,
        {
            let e = self.entries[i];
            if e.0 == key {
                return Some(e.1);
            }
            i += 1;
        }
        proof {
            if self@.contains_key(key) {
                let j = choose|j: int|
                    0 <= j < self.entries@.len() && (#[trigger] self.entries@[j]).0 == key;
                assert(false);
            }
        }
        None
    }

    /// Constrains `key` to `value`, overwriting any earlier entry for `key`.
    #[verifier::loop_isolation(false)]
    pub fn set(&mut self, key: u64, value: bool)
        requires
            old(self).wf(),
        ensures
            final(self).wf(),
            final(self)@ == old(self)@.insert(key, value),
    {
        let ghost s_old = self.entries@;
        let mut pos: usize = 0;
        while pos < self.entries.len() && self.entries[pos].0 < key
            invariant
                pos <= self.entries@.len(),
                self.entries@ == s_old,
                forall|j: int| 0 <= j < pos ==> (#[trigger] self.entries@[j]).0 < key,
            decreases self.entries@.len() - pos,
        {
            pos += 1;
        }
        let replaced = pos < self.entries.len() && self.entries[pos].0 == key;
        if replaced {
            proof {
                lemma_sorted_remove(s_old, pos as int);
            }
            self.entries.remove(pos);
        }
        let ghost s_mid = self.entries@;
        proof {
            assert forall|j: int| 0 <= j < pos implies (#[trigger] s_mid[j]).0 < key by {
                assert(s_mid[j] == s_old[j]);
            }
            assert forall|j: int| pos <= j < s_mid.len()
                implies key < (#[trigger] s_mid[j]).0 by {
                if replaced {
                    assert(s_mid[j] == s_old[j + 1]);
                    assert(s_old[pos as int].0 < s_old[j + 1].0);
                } else {
                    if j > pos {
                        assert(s_old[pos as int].0 < s_old[j].0);
                    }
                }
            }
            lemma_sorted_insert(s_mid, pos as int, key, value);
        }
        self.entries.insert(pos, (key, value));
        proof {
            if replaced {
                assert(pairs_map(s_mid) == pairs_map(s_old).remove(key));
                assert(pairs_map(s_old).remove(key).insert(key, value)
                    =~= pairs_map(s_old).insert(key, value));
            }
        }
    }

    /// True when this state fulfils every condition that `partial` constrains.
    #[verifier::loop_isolation(false)]
    pub fn matches(&self, partial: &WorldState) -> (r: bool)
        requires
            self.wf(),
            partial.wf(),
        ensures
            r == ws_matches(self@, partial@),
    {
        proof {
            lemma_pairs_map_entries(partial.entries@);
        }
        let mut i: usize = 0;
        while i < partial.entries.len()
            invariant
                i <= partial.entries@.len(),
                forall|j: int| 0 <= j < i ==> {
                    let e = #[trigger] partial.entries@[j];
                    self@.contains_key(e.0) && self@[e.0] == e.1
                },
            decreases partial.entries@.len() - i,
        {
            let e = partial.entries[i];
            match self.get(e.0) {
                Some(v) => {
                    if v != e.1 {
                        proof {
                            assert(partial@.contains_key(e.0) && partial@[e.0] == e.1);
                        }
                        return false;
                    }
                },
                None => {
                    proof {
                        assert(partial@.contains_key(e.0));
                    }
                    return false;
                },
            }
            i += 1;
        }
        proof {
            assert forall|k: u64| #[trigger] partial@.contains_key(k)
                implies self@.contains_key(k) && self@[k] == partial@[k] by {
                let j = choose|j: int|
                    0 <= j < partial.entries@.len() && (#[trigger] partial.entries@[j]).0 == k;
                assert(partial@[k] == partial.entries@[j].1);
            }
        }
        true
    }

    /// Structural equality of the denoted maps; usable as a search-node
    /// identity test whatever order the entries were inserted in.
    #[verifier::loop_isolation(false)]
    pub fn equals(&self, other: &WorldState) -> (r: bool)
        requires
            self.wf(),
            other.wf(),
        ensures
            r <==> self@ == other@,
    {
        if self.entries.len() != other.entries.len() {
            proof {
                if self@ == other@ {
                    lemma_pairs_map_canonical(self.entries@, other.entries@);
                }
            }
            return false;
        }
        let mut i: usize = 0;
        while i < self.entries.len()
            invariant
                i <= self.entries@.len(),
                self.entries@.len() == other.entries@.len(),
                forall|j: int| 0 <= j < i
                    ==> #[trigger] self.entries@[j] == other.entries@[j],
            decreases self.entries@.len() - i,
        {
            let a = self.entries[i];
            let b = other.entries[i];
            if a.0 != b.0 || a.1 != b.1 {
                proof {
                    if self@ == other@ {
                        lemma_pairs_map_canonical(self.entries@, other.entries@);
                    }
                }
                return false;
            }
            i += 1;
        }
        proof {
            assert(self.entries@ =~= other.entries@);
        }
        true
    }

    /// The state reached from this one by applying every entry of `effects`,
    /// overwriting; this state itself is left as it was.
    #[verifier::loop_isolation(false)]
    pub fn apply(&self, effects: &WorldState) -> (r: WorldState)
        requires
            self.wf(),
            effects.wf(),
        ensures
            r.wf(),
            r@ == apply_effects(self@, effects@),
    {
        let mut r = self.clone();
        proof {
            assert(r@ =~= apply_effects(self@, pairs_map(effects.entries@.take(0))));
        }
        let mut i: usize = 0;
        while i < effects.entries.len()
            invariant
                i <= effects.entries@.len(),
                r.wf(),
                r@ == apply_effects(self@, pairs_map(effects.entries@.take(i as int))),
            decreases effects.entries@.len() - i,
        {
            let e = effects.entries[i];
            r.set(e.0, e.1);
            proof {
                let t = effects.entries@.take(i + 1);
                assert(t.drop_last() =~= effects.entries@.take(i as int));
                assert(t.last() == e);
                assert(pairs_map(t) == pairs_map(effects.entries@.take(i as int)).insert(e.0, e.1));
                assert(apply_effects(self@, pairs_map(t))
                    =~= apply_effects(self@, pairs_map(effects.entries@.take(i as int))).insert(e.0, e.1));
            }
            i += 1;
        }
        proof {
            assert(effects.entries@.take(effects.entries@.len() as int) =~= effects.entries@);
        }
        r
    }
}

impl Clone for WorldState {
    /// A deep copy with the same entries, hence the same view.
    fn clone(&self) -> (r: Self)
        ensures
            r@ == self@,
            r.entry_seq() == self.entry_seq(),
    {
        let mut entries: Vec<(u64, bool)> = Vec::new();
        let mut i: usize = 0;
        while i < self.entries.len()
            invariant
                i <= self.entries@.len(),
                entries@ == self.entries@.take(i as int),
            decreases self.entries@.len() - i,
        {
            entries.push(self.entries[i]);
            proof {
                assert(self.entries@.take(i as int).push(self.entries@[i as int])
                    =~= self.entries@.take(i + 1));
            }
            i += 1;
        }
        proof {
            assert(self.entries@.take(self.entries@.len() as int) =~= self.entries@);
        }
        WorldState { entries }
    }
}

} // verus!
