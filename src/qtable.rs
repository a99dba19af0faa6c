//! Q-tables: learned estimates keyed by state and action.
//!
//! An estimate is a 32-bit float held as its bit pattern. A missing key stands
//! for 0.0, whose bit pattern is 0.
use vstd::prelude::*;

use crate::value::{copy_state, state_eq, state_model, State, ValueModel};

verus! {

/// The model of a Q-table key: the model of a state and an action code.
pub type QKey = (Seq<ValueModel>, u32);

/// A Q-table key: a state and an action code.
#[derive(Debug, Clone, PartialEq, Eq, Hash)]
pub struct Q {
    pub state: State,
    pub action: u32,
}

/// The model of a key.
pub open spec fn key_of(q: Q) -> QKey {
    (state_model(q.state@), q.action)
}

/// The mapping that a sequence of entries stands for: a later entry overrides
/// an earlier one with the same key.
pub open spec fn entries_map(s: Seq<(Q, u32)>) -> Map<QKey, u32>
    decreases s.len(),
{
    if s.len() == 0 {
        Map::empty()
    } else {
        entries_map(s.drop_last()).insert(key_of(s.last().0), s.last().1)
    }
}

/// The estimate that a table model gives a key: 0 (the bits of 0.0) when absent.
pub open spec fn q_of(m: Map<QKey, u32>, k: QKey) -> u32 {
    if m.contains_key(k) {
        m[k]
    } else {
        0
    }
}

/// The position of a float's bit pattern in the IEEE 754 total order, as
/// `f32::total_cmp` defines it: negative patterns reversed below the positive ones.
pub open spec fn order_key(bits: u32) -> int {
    if bits < 0x8000_0000 {
        bits as int
    } else {
        0x7FFF_FFFF - bits as int
    }
}

/// Computes [`order_key`].
pub fn order_key_of(bits: u32) -> (r: i64)
    ensures
        r == order_key(bits),
{
    if bits < 0x8000_0000 {
        bits as i64
    } else {
        0x7FFF_FFFF - bits as i64
    }
}

/// The rank of a float's bit pattern when ties are sought: its place in the
/// total order, except that -0.0 ranks with +0.0, as `==` on floats has them.
pub open spec fn tie_rank(bits: u32) -> int {
    if bits == 0x8000_0000 {
        0
    } else {
        order_key(bits)
    }
}

/// Computes [`tie_rank`].
pub fn tie_rank_of(bits: u32) -> (r: i64)
    ensures
        r == tie_rank(bits),
{
    if bits == 0x8000_0000 {
        0
    } else {
        order_key_of(bits)
    }
}

proof fn lemma_rank_monotone(x: u32, y: u32)
    requires
        order_key(x) <= order_key(y),
    ensures
        tie_rank(x) <= tie_rank(y),
{
}

/// Whether action `a` attains the largest estimate among `actions` at state
/// `s`, equal estimates (-0.0 and +0.0 included) tying.
pub open spec fn is_best(m: Map<QKey, u32>, s: Seq<ValueModel>, actions: Seq<u32>, a: u32) -> bool {
    forall|j: int|
        0 <= j < actions.len() ==> tie_rank(#[trigger] q_of(m, (s, actions[j]))) <= tie_rank(
            q_of(m, (s, a)),
        )
}

/// The largest estimate among `actions` at state `s` is `v`; 0 when there are none.
pub open spec fn is_max_q(m: Map<QKey, u32>, s: Seq<ValueModel>, actions: Seq<u32>, v: u32) -> bool {
    if actions.len() == 0 {
        v == 0
    } else {
        &&& exists|j: int| 0 <= j < actions.len() && v == q_of(m, (s, actions[j]))
        &&& forall|j: int|
            0 <= j < actions.len() ==> order_key(#[trigger] q_of(m, (s, actions[j]))) <= order_key(
                v,
            )
    }
}

/// The largest estimate among `actions` at state `s`; 0 when there are none.
pub open spec fn max_q(m: Map<QKey, u32>, s: Seq<ValueModel>, actions: Seq<u32>) -> u32 {
    choose|v: u32| is_max_q(m, s, actions, v)
}

proof fn lemma_order_key_injective(a: u32, b: u32)
    requires
        order_key(a) == order_key(b),
    ensures
        a == b,
{
}

/// At most one estimate is the largest, so a witness of [`is_max_q`] is [`max_q`].
pub proof fn lemma_max_q_unique(m: Map<QKey, u32>, s: Seq<ValueModel>, actions: Seq<u32>, v: u32)
    requires
        is_max_q(m, s, actions, v),
    ensures
        max_q(m, s, actions) == v,
{
    let w = max_q(m, s, actions);
    assert(is_max_q(m, s, actions, w));
    if actions.len() > 0 {
        let i = choose|j: int| 0 <= j < actions.len() && v == q_of(m, (s, actions[j]));
        let k = choose|j: int| 0 <= j < actions.len() && w == q_of(m, (s, actions[j]));
        assert(order_key(q_of(m, (s, actions[i]))) <= order_key(w));
        assert(order_key(q_of(m, (s, actions[k]))) <= order_key(v));
        lemma_order_key_injective(v, w);
    }
}

proof fn lemma_last_index(s: Seq<(Q, u32)>, k: QKey, i: int)
    requires
        0 <= i < s.len(),
        key_of(s[i].0) == k,
        forall|j: int| i < j < s.len() ==> key_of(#[trigger] s[j].0) != k,
    ensures
        entries_map(s).contains_key(k),
        entries_map(s)[k] == s[i].1,
    decreases s.len(),
{
    if i < s.len() - 1 {
        lemma_last_index(s.drop_last(), k, i);
    }
}

proof fn lemma_absent(s: Seq<(Q, u32)>, k: QKey)
    requires
        forall|j: int| 0 <= j < s.len() ==> key_of(#[trigger] s[j].0) != k,
    ensures
        !entries_map(s).contains_key(k),
    decreases s.len(),
{
    if s.len() > 0 {
        lemma_absent(s.drop_last(), k);
    }
}

proof fn lemma_update_last(s: Seq<(Q, u32)>, i: int, e: (Q, u32))
    requires
        0 <= i < s.len(),
        key_of(s[i].0) == key_of(e.0),
        forall|j: int| i < j < s.len() ==> key_of(#[trigger] s[j].0) != key_of(e.0),
    ensures
        entries_map(s.update(i, e)) == entries_map(s).insert(key_of(e.0), e.1),
    decreases s.len(),
{
    let t = s.update(i, e);
    if i == s.len() - 1 {
        assert(t.drop_last() =~= s.drop_last());
        assert(entries_map(t) =~= entries_map(s).insert(key_of(e.0), e.1));
    } else {
        lemma_update_last(s.drop_last(), i, e);
        assert(t.drop_last() =~= s.drop_last().update(i, e));
        assert(entries_map(t) =~= entries_map(s).insert(key_of(e.0), e.1));
    }
}

proof fn lemma_push(s: Seq<(Q, u32)>, e: (Q, u32))
    ensures
        entries_map(s.push(e)) == entries_map(s).insert(key_of(e.0), e.1),
{
    assert(s.push(e).drop_last() =~= s);
}

/// A Q-table. Its view maps each key to the bit pattern of its estimate.
pub struct QTable {
    entries: Vec<(Q, u32)>,
}

impl View for QTable {
    type V = Map<QKey, u32>;

    closed spec fn view(&self) -> Map<QKey, u32> {
        entries_map(self.entries@)
    }
}

/// Whether the entry at `i` is the last with its key.
pub open spec fn is_last(s: Seq<(Q, u32)>, i: int) -> bool {
    forall|j: int| i < j < s.len() ==> #[trigger] key_of(s[j].0) != key_of(s[i].0)
}

proof fn lemma_has_last(s: Seq<(Q, u32)>, k: QKey, i: int) -> (l: int)
    requires
        0 <= i < s.len(),
        key_of(s[i].0) == k,
    ensures
        i <= l < s.len(),
        key_of(s[l].0) == k,
        forall|j: int| l < j < s.len() ==> #[trigger] key_of(s[j].0) != k,
    decreases s.len() - i,
{
    if exists|j: int| i < j < s.len() && #[trigger] key_of(s[j].0) == k {
        let j = choose|j: int| i < j < s.len() && #[trigger] key_of(s[j].0) == k;
        lemma_has_last(s, k, j)
    } else {
        i
    }
}

/// No two entries of a sequence have the same key.
pub open spec fn keys_distinct(s: Seq<(Q, u32)>) -> bool {
    forall|i: int, j: int|
        0 <= i < j < s.len() ==> #[trigger] key_of(s[i].0) != #[trigger] key_of(s[j].0)
}

impl QTable {
    /// An empty table.
    pub fn new() -> (r: QTable)
        ensures
            r@ == Map::<QKey, u32>::empty(),
    {
        QTable { entries: Vec::new() }
    }

    /// The position of the last entry with key (`state`, `action`), if any.
    fn find_last(&self, state: &State, action: u32) -> (r: Option<usize>)
        ensures
            r matches Some(i) ==> {
                &&& i < self.entries@.len()
                &&& key_of(self.entries@[i as int].0) == (state_model(state@), action)
                &&& forall|j: int|
                    i < j < self.entries@.len() ==> key_of(#[trigger] self.entries@[j].0) != (
                        state_model(state@),
                        action,
                    )
            },
            r is None ==> forall|j: int|
                0 <= j < self.entries@.len() ==> key_of(#[trigger] self.entries@[j].0) != (
                    state_model(state@),
                    action,
                ),
    {
        let ghost k = (state_model(state@), action);
        let mut i: usize = self.entries.len();
        while i > 0
            invariant
                i <= self.entries@.len(),
                k == (state_model(state@), action),
                forall|j: int| i <= j < self.entries@.len() ==> key_of(#[trigger] self.entries@[j].0) != k,
            decreases i,
        {
            i = i - 1;
            let entry = &self.entries[i];
            if entry.0.action == action && state_eq(&entry.0.state, state) {
                return Some(i);
            }
        }
        None
    }

    /// The estimate for (`state`, `action`); the bits of 0.0 when absent.
    pub fn get_q_value(&self, state: &State, action: u32) -> (r: u32)
        ensures
            r == q_of(self@, (state_model(state@), action)),
    {
        match self.find_last(state, action) {
            Some(i) => {
                proof {
                    lemma_last_index(self.entries@, (state_model(state@), action), i as int);
                }
                self.entries[i].1
            },
            None => {
                proof {
                    lemma_absent(self.entries@, (state_model(state@), action));
                }
                0
            },
        }
    }

    /// Sets the estimate for (`state`, `action`), replacing any earlier one.
    pub fn set_q_value(&mut self, state: State, action: u32, value: u32)
        ensures
            final(self)@ == old(self)@.insert((state_model(state@), action), value),
    {
        let ghost k = (state_model(state@), action);
        let found = self.find_last(&state, action);
        let entry = (Q { state, action }, value);
        assert(key_of(entry.0) == k);
        match found {
            Some(i) => {
                proof {
                    lemma_update_last(self.entries@, i as int, entry);
                }
                self.entries.set(i, entry);
            },
            None => {
                proof {
                    lemma_push(self.entries@, entry);
                }
                self.entries.push(entry);
            },
        }
    }

    /// Whether the table holds no estimate at all.
    pub fn is_empty(&self) -> (r: bool)
        ensures
            r == (self@.dom() =~= Set::<QKey>::empty()),
    {
        if self.entries.len() == 0 {
            true
        } else {
            proof {
                let s = self.entries@;
                assert(entries_map(s).contains_key(key_of(s.last().0)));
            }
            false
        }
    }

    /// Whether an entry after the one at `i` has the same key.
    fn key_occurs_after(&self, i: usize) -> (r: bool)
        requires
            i < self.entries@.len(),
        ensures
            r == exists|j: int|
                i < j < self.entries@.len() && #[trigger] key_of(self.entries@[j].0) == key_of(
                    self.entries@[i as int].0,
                ),
    {
        let n = self.entries.len();
        let mut j: usize = i + 1;
        while j < n
            invariant
                i < j <= self.entries@.len(),
                n == self.entries@.len(),
                forall|m: int|
                    i < m < j ==> #[trigger] key_of(self.entries@[m].0) != key_of(
                        self.entries@[i as int].0,
                    ),
            decreases n - j,
        {
            if self.entries[j].0.action == self.entries[i].0.action && state_eq(
                &self.entries[j].0.state,
                &self.entries[i].0.state,
            ) {
                assert(key_of(self.entries@[j as int].0) == key_of(self.entries@[i as int].0));
                return true;
            }
            j = j + 1;
        }
        false
    }

    /// The entries of the table, one per key.
    pub fn to_entries(&self) -> (r: Vec<(Q, u32)>)
        ensures
            entries_map(r@) == self@,
            keys_distinct(r@),
    {
        let ghost s = self.entries@;
        let mut out: Vec<(Q, u32)> = Vec::new();
        let ghost mut idx: Seq<int> = Seq::empty();
        let mut i: usize = 0;
        while i < self.entries.len()
            invariant
                s == self.entries@,
                0 <= i <= s.len(),
                out@.len() == idx.len(),
                forall|m: int| 0 <= m < idx.len() ==> 0 <= #[trigger] idx[m] < i,
                forall|m: int, n: int| 0 <= m < n < idx.len() ==> #[trigger] idx[m] < #[trigger] idx[n],
                forall|m: int|
                    0 <= m < idx.len() ==> #[trigger] key_of(out@[m].0) == key_of(s[idx[m]].0)
                        && out@[m].1 == s[idx[m]].1 && is_last(s, idx[m]),
                forall|p: int| 0 <= p < i && is_last(s, p) ==> exists|m: int| 0 <= m < idx.len() && #[trigger] idx[m] == p,
            decreases self.entries.len() - i,
        {
            let later = self.key_occurs_after(i);
            let ghost idx0 = idx;
            let ghost out0 = out@;
            if !later {
                let q = Q { state: copy_state(&self.entries[i].0.state), action: self.entries[i].0.action };
                out.push((q, self.entries[i].1));
                proof {
                    idx = idx.push(i as int);
                    assert(idx[idx.len() - 1] == i);
                    assert(key_of(out@[idx.len() - 1].0) == key_of(s[i as int].0));
                    assert(is_last(s, i as int));
                    assert forall|m: int| 0 <= m < idx.len() implies #[trigger] key_of(out@[m].0)
                        == key_of(s[idx[m]].0) && out@[m].1 == s[idx[m]].1 && is_last(s, idx[m]) by {
                        if m < idx0.len() {
                            assert(out@[m] == out0[m]);
                            assert(idx[m] == idx0[m]);
                            assert(key_of(out0[m].0) == key_of(s[idx0[m]].0));
                        }
                    }
                }
            }
            proof {
                assert forall|p: int| 0 <= p < i + 1 && is_last(s, p) implies exists|m: int|
                    0 <= m < idx.len() && #[trigger] idx[m] == p by {
                    if p == i {
                        assert(idx[idx.len() - 1] == p);
                    } else {
                        let m = choose|m: int| 0 <= m < idx0.len() && #[trigger] idx0[m] == p;
                        assert(idx[m] == p);
                    }
                }
            }
            i = i + 1;
        }
        proof {
            assert forall|a: int, b: int| 0 <= a < b < out@.len() implies #[trigger] key_of(out@[a].0)
                != #[trigger] key_of(out@[b].0) by {
                assert(idx[a] < idx[b]);
                assert(key_of(out@[a].0) == key_of(s[idx[a]].0));
                assert(key_of(out@[b].0) == key_of(s[idx[b]].0));
                assert(is_last(s, idx[a]));
            }
            assert forall|k: QKey|
                #![trigger entries_map(out@).contains_key(k)]
                #![trigger entries_map(s).contains_key(k)]
                entries_map(out@).contains_key(k) == entries_map(s).contains_key(k) && (entries_map(
                    s,
                ).contains_key(k) ==> entries_map(out@)[k] == entries_map(s)[k]) by {
                if exists|p: int| 0 <= p < s.len() && #[trigger] key_of(s[p].0) == k {
                    let p = choose|p: int| 0 <= p < s.len() && #[trigger] key_of(s[p].0) == k;
                    let l = lemma_has_last(s, k, p);
                    lemma_last_index(s, k, l);
                    assert(is_last(s, l));
                    let m = choose|m: int| 0 <= m < idx.len() && #[trigger] idx[m] == l;
                    assert(key_of(out@[m].0) == key_of(s[idx[m]].0));
                    assert forall|n: int| m < n < out@.len() implies key_of(#[trigger] out@[n].0) != k by {
                        assert(idx[m] < idx[n]);
                        assert(key_of(out@[n].0) == key_of(s[idx[n]].0));
                    }
                    lemma_last_index(out@, k, m);
                } else {
                    lemma_absent(s, k);
                    assert forall|n: int| 0 <= n < out@.len() implies key_of(#[trigger] out@[n].0) != k by {
                        assert(key_of(out@[n].0) == key_of(s[idx[n]].0));
                    }
                    lemma_absent(out@, k);
                }
            }
            assert(entries_map(out@) =~= entries_map(s));
        }
        out
    }

    /// A table holding the given entries; a later entry overrides an earlier
    /// one with the same key.
    pub fn from_entries(entries: &Vec<(Q, u32)>) -> (r: QTable)
        ensures
            r@ == entries_map(entries@),
    {
        let mut table = QTable::new();
        let mut i: usize = 0;
        while i < entries.len()
            invariant
                0 <= i <= entries@.len(),
                table@ == entries_map(entries@.take(i as int)),
            decreases entries.len() - i,
        {
            let state = copy_state(&entries[i].0.state);
            table.set_q_value(state, entries[i].0.action, entries[i].1);
            assert(entries@.take(i as int + 1).drop_last() =~= entries@.take(i as int));
            i = i + 1;
        }
        assert(entries@.take(i as int) =~= entries@);
        table
    }

    /// The candidate actions whose estimate at `state` is the largest, in the
    /// order of `actions`.
    pub fn best_actions(&self, state: &State, actions: &Vec<u32>) -> (r: Vec<u32>)
        ensures
            actions@.len() > 0 ==> r@.len() > 0,
            forall|a: u32|
                r@.contains(a) <==> actions@.contains(a) && is_best(
                    self@,
                    state_model(state@),
                    actions@,
                    a,
                ),
    {
        let ghost s = state_model(state@);
        let best = self.max_q_value(state, actions);
        let best_key = tie_rank_of(best);
        let mut out: Vec<u32> = Vec::new();
        let mut i: usize = 0;
        while i < actions.len()
            invariant
                0 <= i <= actions@.len(),
                s == state_model(state@),
                is_max_q(self@, s, actions@, best),
                best_key == tie_rank(best),
                forall|a: u32|
                    out@.contains(a) <==> actions@.take(i as int).contains(a) && is_best(
                        self@,
                        s,
                        actions@,
                        a,
                    ),
            decreases actions.len() - i,
        {
            let a = actions[i];
            let v = self.get_q_value(state, a);
            let k = tie_rank_of(v);
            proof {
                let j0 = choose|j: int| 0 <= j < actions@.len() && best == q_of(self@, (s, actions@[j]));
                assert(order_key(q_of(self@, (s, actions@[i as int]))) <= order_key(best));
                lemma_rank_monotone(q_of(self@, (s, actions@[i as int])), best);
                if k == best_key {
                    assert forall|j: int| 0 <= j < actions@.len() implies tie_rank(
                        #[trigger] q_of(self@, (s, actions@[j])),
                    ) <= tie_rank(q_of(self@, (s, a))) by {
                        lemma_rank_monotone(q_of(self@, (s, actions@[j])), best);
                    }
                }
                if is_best(self@, s, actions@, a) {
                    assert(tie_rank(q_of(self@, (s, actions@[j0]))) <= tie_rank(q_of(self@, (s, a))));
                }
                assert(is_best(self@, s, actions@, a) <==> k == best_key);
                let t = actions@.take(i as int);
                assert(actions@.take(i as int + 1) =~= t.push(a));
                assert forall|b: u32| t.push(a).contains(b) <==> t.contains(b) || b == a by {
                    if t.contains(b) {
                        let j = choose|j: int| 0 <= j < t.len() && t[j] == b;
                        assert(t.push(a)[j] == b);
                    }
                    if b == a {
                        assert(t.push(a)[t.len() as int] == b);
                    }
                    if t.push(a).contains(b) && b != a {
                        let j = choose|j: int| 0 <= j < t.len() + 1 && t.push(a)[j] == b;
                        assert(t[j] == b);
                    }
                }
            }
            let ghost prev = out@;
            if k == best_key {
                out.push(a);
                proof {
                    assert forall|b: u32| out@.contains(b) <==> prev.contains(b) || b == a by {
                        if prev.contains(b) {
                            let j = choose|j: int| 0 <= j < prev.len() && prev[j] == b;
                            assert(out@[j] == b);
                        }
                        if b == a {
                            assert(out@[prev.len() as int] == b);
                        }
                        if out@.contains(b) && b != a {
                            let j = choose|j: int| 0 <= j < prev.len() + 1 && out@[j] == b;
                            assert(prev[j] == b);
                        }
                    }
                }
            }
            proof {
                let t = actions@.take(i as int);
                assert forall|b: u32|
                    out@.contains(b) <==> actions@.take(i as int + 1).contains(b) && is_best(
                        self@,
                        s,
                        actions@,
                        b,
                    ) by {
                    assert(prev.contains(b) <==> t.contains(b) && is_best(self@, s, actions@, b));
                    assert(actions@.take(i as int + 1).contains(b) <==> t.contains(b) || b == a);
                }
            }
            i = i + 1;
        }
        proof {
            assert(actions@.take(i as int) =~= actions@);
            if actions@.len() > 0 {
                let j0 = choose|j: int| 0 <= j < actions@.len() && best == q_of(self@, (s, actions@[j]));
                assert forall|j: int| 0 <= j < actions@.len() implies tie_rank(
                    #[trigger] q_of(self@, (s, actions@[j])),
                ) <= tie_rank(q_of(self@, (s, actions@[j0]))) by {
                    lemma_rank_monotone(q_of(self@, (s, actions@[j])), best);
                }
                assert(is_best(self@, s, actions@, actions@[j0]));
                assert(actions@.contains(actions@[j0]));
                assert(out@.contains(actions@[j0]));
            }
        }
        out
    }

    /// The largest estimate among `actions` at `state` under the total order of
    /// floats; the bits of 0.0 when `actions` is empty.
    pub fn max_q_value(&self, state: &State, actions: &Vec<u32>) -> (r: u32)
        ensures
            is_max_q(self@, state_model(state@), actions@, r),
            r == max_q(self@, state_model(state@), actions@),
    {
        let ghost s = state_model(state@);
        if actions.len() == 0 {
            proof {
                lemma_max_q_unique(self@, s, actions@, 0);
            }
            return 0;
        }
        let mut best = self.get_q_value(state, actions[0]);
        let mut best_key = order_key_of(best);
        let mut i: usize = 1;
        while i < actions.len()
            invariant
                1 <= i <= actions@.len(),
                s == state_model(state@),
                best_key == order_key(best),
                exists|j: int| 0 <= j < i && best == q_of(self@, (s, actions@[j])),
                forall|j: int|
                    0 <= j < i ==> order_key(#[trigger] q_of(self@, (s, actions@[j]))) <= order_key(
                        best,
                    ),
            decreases actions.len() - i,
        {
            let v = self.get_q_value(state, actions[i]);
            let k = order_key_of(v);
            if k > best_key {
                best = v;
                best_key = k;
            }
            i = i + 1;
        }
        proof {
            lemma_max_q_unique(self@, s, actions@, best);
        }
        best
    }
}

/// Q-tables shared by cohorts of agents, each reached through a stable handle.
pub struct QTables {
    tables: Vec<QTable>,
}

impl View for QTables {
    type V = Seq<Map<QKey, u32>>;

    closed spec fn view(&self) -> Seq<Map<QKey, u32>> {
        self.tables@.map_values(|t: QTable| t@)
    }
}

impl QTables {
    /// No shared table yet.
    pub fn new() -> (r: QTables)
        ensures
            r@ == Seq::<Map<QKey, u32>>::empty(),
    {
        let r = QTables { tables: Vec::new() };
        assert(r@ =~= Seq::<Map<QKey, u32>>::empty());
        r
    }

    /// The number of shared tables.
    pub fn len(&self) -> (r: usize)
        ensures
            r == self@.len(),
    {
        self.tables.len()
    }

    /// Adds a shared table and returns its handle.
    pub fn add(&mut self, table: QTable) -> (h: usize)
        ensures
            h == old(self)@.len(),
            final(self)@ == old(self)@.push(table@),
    {
        let h = self.tables.len();
        let ghost t = table@;
        self.tables.push(table);
        assert(self@ =~= old(self)@.push(t));
        h
    }

    /// The table behind handle `h`.
    pub fn get(&self, h: usize) -> (r: &QTable)
        requires
            h < self@.len(),
        ensures
            r@ == self@[h as int],
    {
        &self.tables[h]
    }

    /// Replaces the table behind handle `h`.
    pub fn replace(&mut self, h: usize, table: QTable)
        requires
            h < old(self)@.len(),
        ensures
            final(self)@ == old(self)@.update(h as int, table@),
    {
        let ghost t = table@;
        self.tables.set(h, table);
        assert(self@ =~= old(self)@.update(h as int, t));
    }

    /// Sets an estimate in the table behind handle `h`.
    pub fn set_q_value(&mut self, h: usize, state: State, action: u32, value: u32)
        requires
            h < old(self)@.len(),
        ensures
            final(self)@ == old(self)@.update(
                h as int,
                old(self)@[h as int].insert((state_model(state@), action), value),
            ),
    {
        let ghost k = (state_model(state@), action);
        self.tables[h].set_q_value(state, action, value);
        assert(self@ =~= old(self)@.update(h as int, old(self)@[h as int].insert(k, value)));
    }
}

} // verus!
