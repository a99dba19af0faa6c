//! The scheduler: it owns the agents, their identity and lifecycle, an index
//! of them by type, the shared tables of swarms and the environment.
//!
//! A tick is driven from outside, one agent at a time, from the last registered
//! to the first: the agent chooses an action ([`Scheduler::choose_action_for`]),
//! the scenario's transition function runs, the outcome is committed
//! ([`Scheduler::step_agent`]), and an agent that reported `done` is retired
//! ([`Scheduler::retire`]).
use vstd::prelude::*;

use crate::agent::{
    choice_spec, rate_or_spec, Agent, LearningAgent, SwarmAgent, DEFAULT_DISCOUNT_FACTOR,
    DEFAULT_EXPLORATION_RATE, DEFAULT_LEARNING_RATE,
};
use crate::environment::{Env, Position};
use crate::qtable::{max_q, q_of, QKey, QTable, QTables};
use crate::value::{copy_state, state_model, State};

verus! {

/// Where a new agent was placed: at `position` when one is given, else on the
/// grid; with display attribute `color`.
pub open spec fn placed<C>(
    e: (Position, C, Agent),
    position: Option<Position>,
    color: C,
    env: Env<C>,
) -> bool {
    &&& e.1 == color
    &&& match position {
        Some(p) => e.0 == p,
        None => 0 <= e.0.x < env.size.width && 0 <= e.0.y < env.size.heigth,
    }
}

/// The identity of a registered agent: its id and its type tag.
pub open spec fn identity(a: Agent) -> (u32, Seq<char>) {
    (a.id(), a.type_tag())
}

/// Whether an agent of the registry has this id and type tag.
pub open spec fn has_agent(ids: Seq<(u32, Seq<char>)>, id: u32, tag: Seq<char>) -> bool {
    exists|i: int| 0 <= i < ids.len() && #[trigger] ids[i] == (id, tag)
}

/// Whether a bucket has this type tag.
pub open spec fn has_bucket(buckets: Seq<(Seq<char>, Seq<u32>)>, tag: Seq<char>) -> bool {
    exists|k: int| 0 <= k < buckets.len() && #[trigger] buckets[k].0 == tag
}

/// The registry invariant, over the identities of the registered agents and
/// the type buckets: ids are distinct and at most the last id given; each
/// bucket has its own tag and no repeated id; an id is in a bucket exactly when
/// an agent with that id has the bucket's tag; every agent's tag has a bucket.
pub open spec fn registry_wf(
    ids: Seq<(u32, Seq<char>)>,
    buckets: Seq<(Seq<char>, Seq<u32>)>,
    next_id: u32,
) -> bool {
    &&& forall|i: int, j: int|
        0 <= i < ids.len() && 0 <= j < ids.len() && i != j ==> #[trigger] ids[i].0 != #[trigger] ids[j].0
    &&& forall|i: int| 0 <= i < ids.len() ==> #[trigger] ids[i].0 <= next_id
    &&& forall|k: int, l: int|
        0 <= k < buckets.len() && 0 <= l < buckets.len() && k != l ==> #[trigger] buckets[k].0
            != #[trigger] buckets[l].0
    &&& forall|k: int| 0 <= k < buckets.len() ==> (#[trigger] buckets[k]).1.no_duplicates()
    &&& forall|k: int, id: u32|
        0 <= k < buckets.len() ==> (#[trigger] buckets[k].1.contains(id) <==> has_agent(
            ids,
            id,
            buckets[k].0,
        ))
    &&& forall|i: int| 0 <= i < ids.len() ==> has_bucket(buckets, (#[trigger] ids[i]).1)
}

/// Owns the agent registry, the index by type, the shared tables of swarms,
/// the environment and the id counter.
pub struct Scheduler<C> {
    agents: Vec<(Position, C, Agent)>,
    agents_per_types: Vec<(String, Vec<u32>)>,
    env: Env<C>,
    q_tables: QTables,
    current_id: u32,
}

impl<C: Copy> Scheduler<C> {
    /// The registry: position, display attribute and agent, in order of registration.
    pub closed spec fn registry(&self) -> Seq<(Position, C, Agent)> {
        self.agents@
    }

    /// The identities of the registered agents, in the order of the registry.
    pub open spec fn identities(&self) -> Seq<(u32, Seq<char>)> {
        self.registry().map_values(|e: (Position, C, Agent)| identity(e.2))
    }

    /// The type buckets: a tag and the ids of the agents of that type.
    pub closed spec fn buckets(&self) -> Seq<(Seq<char>, Seq<u32>)> {
        self.agents_per_types@.map_values(|b: (String, Vec<u32>)| (b.0@, b.1@))
    }

    /// The last id given; 0 before the first.
    pub closed spec fn next_id(&self) -> u32 {
        self.current_id
    }

    /// The shared tables of swarms.
    pub closed spec fn tables(&self) -> Seq<Map<QKey, u32>> {
        self.q_tables@
    }

    pub closed spec fn environment(&self) -> Env<C> {
        self.env
    }

    /// The scheduler's invariant.
    pub open spec fn wf(&self) -> bool {
        &&& registry_wf(self.identities(), self.buckets(), self.next_id())
        &&& forall|i: int|
            0 <= i < self.registry().len() ==> (#[trigger] self.registry()[i]).2.handle_ok(
                self.tables().len(),
            )
    }

    /// An empty registry around `env`.
    pub fn new(env: Env<C>) -> (r: Scheduler<C>)
        ensures
            r.wf(),
            r.registry() == Seq::<(Position, C, Agent)>::empty(),
            r.buckets() == Seq::<(Seq<char>, Seq<u32>)>::empty(),
            r.next_id() == 0,
            r.tables() == Seq::<Map<QKey, u32>>::empty(),
            r.environment() == env,
    {
        let r = Scheduler {
            agents: Vec::new(),
            agents_per_types: Vec::new(),
            env,
            q_tables: QTables::new(),
            current_id: 0,
        };
        assert(r.identities() =~= Seq::<(u32, Seq<char>)>::empty());
        assert(r.buckets() =~= Seq::<(Seq<char>, Seq<u32>)>::empty());
        r
    }

    /// The registry.
    pub fn agents(&self) -> (r: &Vec<(Position, C, Agent)>)
        ensures
            r@ == self.registry(),
    {
        &self.agents
    }

    /// The type buckets.
    pub fn agents_per_types(&self) -> (r: &Vec<(String, Vec<u32>)>)
        ensures
            r@.map_values(|b: (String, Vec<u32>)| (b.0@, b.1@)) == self.buckets(),
    {
        &self.agents_per_types
    }

    /// The environment.
    pub fn env(&self) -> (r: &Env<C>)
        ensures
            *r == self.environment(),
    {
        &self.env
    }

    /// The agent at index `i`, to read, together with the environment, to
    /// change: what a transition function is handed.
    pub fn agent_and_env(&mut self, i: usize) -> (r: (&Agent, &mut Env<C>))
        requires
            i < old(self).registry().len(),
        ensures
            *r.0 == old(self).registry()[i as int].2,
            *r.1 == old(self).environment(),
            final(self).environment() == *final(r.1),
            final(self).registry() == old(self).registry(),
            final(self).buckets() == old(self).buckets(),
            final(self).next_id() == old(self).next_id(),
            final(self).tables() == old(self).tables(),
    {
        (&self.agents[i].2, &mut self.env)
    }

    /// The last id given; 0 before the first.
    pub fn current_id(&self) -> (r: u32)
        ensures
            r == self.next_id(),
    {
        self.current_id
    }

    /// The shared tables.
    pub fn q_tables(&self) -> (r: &QTables)
        ensures
            r@ == self.tables(),
    {
        &self.q_tables
    }

    /// Adds a table for a swarm to share and returns its handle.
    pub fn add_q_table(&mut self, table: QTable) -> (h: usize)
        requires
            old(self).wf(),
        ensures
            final(self).wf(),
            h == old(self).tables().len(),
            final(self).tables() == old(self).tables().push(table@),
            final(self).registry() == old(self).registry(),
            final(self).buckets() == old(self).buckets(),
            final(self).next_id() == old(self).next_id(),
            final(self).environment() == old(self).environment(),
    {
        let h = self.q_tables.add(table);
        proof {
            assert forall|i: int| 0 <= i < self.registry().len() implies (#[trigger] self.registry()[
                i
            ]).2.handle_ok(self.tables().len()) by {
                assert(old(self).registry()[i].2.handle_ok(old(self).tables().len()));
            }
        }
        h
    }

    /// Replaces the shared table behind handle `h`, as when one is loaded.
    pub fn replace_q_table(&mut self, h: usize, table: QTable)
        requires
            old(self).wf(),
            h < old(self).tables().len(),
        ensures
            final(self).wf(),
            final(self).tables() == old(self).tables().update(h as int, table@),
            final(self).registry() == old(self).registry(),
            final(self).buckets() == old(self).buckets(),
            final(self).next_id() == old(self).next_id(),
            final(self).environment() == old(self).environment(),
    {
        self.q_tables.replace(h, table);
    }

    /// The next id: one more than the last one given.
    fn generate_id(&mut self) -> (r: u32)
        requires
            old(self).wf(),
            old(self).next_id() < u32::MAX,
        ensures
            final(self).wf(),
            r == old(self).next_id() + 1,
            final(self).next_id() == r,
            final(self).registry() == old(self).registry(),
            final(self).buckets() == old(self).buckets(),
            final(self).tables() == old(self).tables(),
            final(self).environment() == old(self).environment(),
    {
        self.current_id = self.current_id + 1;
        self.current_id
    }

    /// The index of the bucket of `tag`, if there is one.
    fn find_bucket(&self, tag: &String) -> (r: Option<usize>)
        ensures
            r matches Some(k) ==> k < self.buckets().len() && self.buckets()[k as int].0 == tag@,
            r is None ==> !has_bucket(self.buckets(), tag@),
    {
        let mut k: usize = 0;
        while k < self.agents_per_types.len()
            invariant
                0 <= k <= self.agents_per_types@.len(),
                self.buckets().len() == self.agents_per_types@.len(),
                forall|l: int| 0 <= l < k ==> self.buckets()[l].0 != tag@,
            decreases self.agents_per_types.len() - k,
        {
            if self.agents_per_types[k].0 == *tag {
                return Some(k);
            }
            k = k + 1;
        }
        None
    }

    /// The index of the registered agent with id `id`, if there is one.
    pub fn find_agent(&self, id: u32) -> (r: Option<usize>)
        ensures
            r matches Some(i) ==> i < self.registry().len() && self.registry()[i as int].2.id() == id,
            r is None ==> forall|i: int|
                0 <= i < self.registry().len() ==> (#[trigger] self.registry()[i]).2.id() != id,
    {
        let mut i: usize = 0;
        while i < self.agents.len()
            invariant
                0 <= i <= self.agents@.len(),
                forall|j: int| 0 <= j < i ==> (#[trigger] self.registry()[j]).2.id() != id,
            decreases self.agents.len() - i,
        {
            if self.agents[i].2.get_unique_id() == id {
                return Some(i);
            }
            i = i + 1;
        }
        None
    }

    /// Appends an agent whose id is the last one given, and indexes it by type.
    fn register(&mut self, position: Position, color: C, agent: Agent)
        requires
            old(self).wf(),
            agent.id() == old(self).next_id(),
            forall|i: int|
                0 <= i < old(self).registry().len() ==> (#[trigger] old(self).registry()[i]).2.id()
                    != agent.id(),
            agent.handle_ok(old(self).tables().len()),
        ensures
            final(self).wf(),
            final(self).registry() == old(self).registry().push((position, color, agent)),
            final(self).next_id() == old(self).next_id(),
            final(self).tables() == old(self).tables(),
            final(self).environment() == old(self).environment(),
    {
        let ghost ids0 = self.identities();
        let ghost b0 = self.buckets();
        let ghost x = identity(agent);
        let id = agent.get_unique_id();
        let tag = agent.get_type().clone();
        let found = self.find_bucket(&tag);
        self.agents.push((position, color, agent));
        let ghost ids1 = self.identities();
        assert(ids1 =~= ids0.push(x));
        assert forall|i: int| 0 <= i < ids0.len() implies #[trigger] ids0[i].0 != x.0 by {
            assert(old(self).registry()[i].2.id() != agent.id());
        }
        assert(forall|t: Seq<char>| !has_agent(ids0, x.0, t));
        assert forall|y: u32, t: Seq<char>| has_agent(ids1, y, t) <==> has_agent(ids0, y, t) || (y, t)
            == x by {
            if has_agent(ids1, y, t) {
                let i = choose|i: int| 0 <= i < ids1.len() && #[trigger] ids1[i] == (y, t);
                if i < ids0.len() {
                    assert(ids0[i] == (y, t));
                }
            }
            if has_agent(ids0, y, t) {
                let i = choose|i: int| 0 <= i < ids0.len() && #[trigger] ids0[i] == (y, t);
                assert(ids1[i] == (y, t));
            }
            if (y, t) == x {
                assert(ids1[ids0.len() as int] == (y, t));
            }
        }
        match found {
            Some(k) => {
                let mut ids = self.agents_per_types[k].1.clone();
                let ghost before = ids@;
                assert(before == b0[k as int].1);
                ids.push(id);
                let entry = (tag, ids);
                self.agents_per_types.set(k, entry);
                let ghost b1 = self.buckets();
                assert(b1 =~= b0.update(k as int, (x.1, before.push(x.0))));
                proof {
                    assert(!before.contains(x.0));
                    assert forall|y: u32| before.push(x.0).contains(y) <==> before.contains(y) || y
                        == x.0 by {
                        if before.contains(y) {
                            let j = choose|j: int| 0 <= j < before.len() && before[j] == y;
                            assert(before.push(x.0)[j] == y);
                        }
                        if y == x.0 {
                            assert(before.push(x.0)[before.len() as int] == y);
                        }
                        if before.push(x.0).contains(y) && y != x.0 {
                            let j = choose|j: int|
                                0 <= j < before.len() + 1 && before.push(x.0)[j] == y;
                            assert(before[j] == y);
                        }
                    }
                    assert(before.push(x.0).no_duplicates()) by {
                        assert forall|i: int, j: int|
                            0 <= i < before.len() + 1 && 0 <= j < before.len() + 1 && i != j
                                implies before.push(x.0)[i] != before.push(x.0)[j] by {
                            if i == before.len() {
                                assert(before.contains(before[j]));
                            }
                            if j == before.len() {
                                assert(before.contains(before[i]));
                            }
                        }
                    }
                    assert forall|i: int| 0 <= i < ids1.len() implies has_bucket(
                        b1,
                        (#[trigger] ids1[i]).1,
                    ) by {
                        if i < ids0.len() {
                            assert(has_bucket(b0, ids0[i].1));
                            let l = choose|l: int| 0 <= l < b0.len() && #[trigger] b0[l].0 == ids0[i].1;
                            assert(b1[l].0 == ids0[i].1);
                        } else {
                            assert(b1[k as int].0 == x.1);
                        }
                    }
                    assert forall|l: int, y: u32| 0 <= l < b1.len() implies (#[trigger] b1[l].1.contains(
                        y,
                    ) <==> has_agent(ids1, y, b1[l].0)) by {
                        assert(b0[k as int].0 == x.1);
                        if l != k {
                            assert(b1[l] == b0[l]);
                            assert(b0[l].0 != b0[k as int].0);
                        } else {
                            assert(b1[l].1 == before.push(x.0));
                            assert(before.contains(y) <==> has_agent(ids0, y, x.1));
                        }
                    }
                    assert forall|l: int| 0 <= l < b1.len() implies (#[trigger] b1[l]).1.no_duplicates() by {
                        if l != k {
                            assert(b1[l] == b0[l]);
                        }
                    }
                    assert forall|l: int, m: int|
                        0 <= l < b1.len() && 0 <= m < b1.len() && l != m implies #[trigger] b1[l].0
                        != #[trigger] b1[m].0 by {
                        assert(b0[l].0 != b0[m].0);
                    }
                    assert(registry_wf(ids1, b1, self.next_id()));
                }
            },
            None => {
                let mut ids: Vec<u32> = Vec::new();
                ids.push(id);
                self.agents_per_types.push((tag, ids));
                let ghost b1 = self.buckets();
                assert(b1 =~= b0.push((x.1, seq![x.0])));
                proof {
                    assert forall|y: u32| seq![x.0].contains(y) <==> y == x.0 by {
                        if y == x.0 {
                            assert(seq![x.0][0] == y);
                        }
                    }
                    assert forall|l: int| 0 <= l < b0.len() implies #[trigger] b0[l].0 != x.1 by {
                        if b0[l].0 == x.1 {
                            assert(has_bucket(b0, x.1));
                        }
                    }
                    assert forall|i: int| 0 <= i < ids1.len() implies has_bucket(
                        b1,
                        (#[trigger] ids1[i]).1,
                    ) by {
                        if i < ids0.len() {
                            assert(has_bucket(b0, ids0[i].1));
                            let l = choose|l: int| 0 <= l < b0.len() && #[trigger] b0[l].0 == ids0[i].1;
                            assert(b1[l].0 == ids0[i].1);
                        } else {
                            assert(b1[b0.len() as int].0 == x.1);
                        }
                    }
                    assert forall|l: int, y: u32| 0 <= l < b1.len() implies (#[trigger] b1[l].1.contains(
                        y,
                    ) <==> has_agent(ids1, y, b1[l].0)) by {
                        if l < b0.len() {
                            assert(b1[l] == b0[l]);
                            assert(b0[l].0 != x.1);
                        } else {
                            if has_agent(ids0, y, x.1) {
                                let i = choose|i: int| 0 <= i < ids0.len() && #[trigger] ids0[i] == (y, x.1);
                                assert(has_bucket(b0, ids0[i].1));
                            }
                        }
                    }
                    assert forall|l: int| 0 <= l < b1.len() implies (#[trigger] b1[l]).1.no_duplicates() by {
                        if l < b0.len() {
                            assert(b1[l] == b0[l]);
                        }
                    }
                    assert forall|l: int, m: int|
                        0 <= l < b1.len() && 0 <= m < b1.len() && l != m implies #[trigger] b1[l].0
                        != #[trigger] b1[m].0 by {
                        if l < b0.len() && m < b0.len() {
                            assert(b0[l].0 != b0[m].0);
                        }
                    }
                    assert(registry_wf(ids1, b1, self.next_id()));
                }
            },
        }
        proof {
            assert forall|i: int| 0 <= i < self.registry().len() implies (#[trigger] self.registry()[
                i
            ]).2.handle_ok(self.tables().len()) by {
                if i < old(self).registry().len() {
                    assert(old(self).registry()[i].2.handle_ok(old(self).tables().len()));
                }
            }
        }
    }

    /// Removes the agent at index `i` from the registry and its id from its
    /// type bucket. The id is never given again.
    pub fn retire(&mut self, i: usize)
        requires
            old(self).wf(),
            i < old(self).registry().len(),
        ensures
            final(self).wf(),
            final(self).registry() == old(self).registry().remove(i as int),
            forall|j: int|
                0 <= j < final(self).registry().len() ==> (#[trigger] final(self).registry()[j]).2.id()
                    != old(self).registry()[i as int].2.id(),
            forall|k: int|
                0 <= k < final(self).buckets().len() ==> !(#[trigger] final(self).buckets()[k]).1.contains(
                    old(self).registry()[i as int].2.id(),
                ),
            final(self).next_id() == old(self).next_id(),
            final(self).tables() == old(self).tables(),
            final(self).environment() == old(self).environment(),
    {
        let ghost ids0 = self.identities();
        let ghost b0 = self.buckets();
        let ghost x = ids0[i as int];
        let id = self.agents[i].2.get_unique_id();
        let tag = self.agents[i].2.get_type().clone();
        assert(x == (id, tag@));
        assert(has_bucket(b0, ids0[i as int].1));
        let k = match self.find_bucket(&tag) {
            Some(k) => k,
            None => vstd::pervasive::unreached(),
        };
        let ghost members = b0[k as int].1;
        let mut kept: Vec<u32> = Vec::new();
        let mut j: usize = 0;
        while j < self.agents_per_types[k].1.len()
            invariant
                k < self.agents_per_types@.len(),
                self.buckets() == b0,
                members == self.agents_per_types@[k as int].1@,
                members.no_duplicates(),
                0 <= j <= members.len(),
                kept@.no_duplicates(),
                forall|y: u32| kept@.contains(y) <==> members.take(j as int).contains(y) && y != id,
            decreases members.len() - j,
        {
            let y = self.agents_per_types[k].1[j];
            let ghost t = members.take(j as int);
            proof {
                assert(members.take(j as int + 1) =~= t.push(y));
                assert forall|z: u32| t.push(y).contains(z) <==> t.contains(z) || z == y by {
                    if t.contains(z) {
                        let m = choose|m: int| 0 <= m < t.len() && t[m] == z;
                        assert(t.push(y)[m] == z);
                    }
                    if z == y {
                        assert(t.push(y)[t.len() as int] == z);
                    }
                    if t.push(y).contains(z) && z != y {
                        let m = choose|m: int| 0 <= m < t.len() + 1 && t.push(y)[m] == z;
                        assert(t[m] == z);
                    }
                }
                assert(!t.contains(y)) by {
                    if t.contains(y) {
                        let m = choose|m: int| 0 <= m < t.len() && t[m] == y;
                        assert(members[m] == members[j as int]);
                    }
                }
            }
            let ghost before = kept@;
            if y != id {
                let ghost prev = kept@;
                kept.push(y);
                proof {
                    assert forall|z: u32| kept@.contains(z) <==> prev.contains(z) || z == y by {
                        if prev.contains(z) {
                            let m = choose|m: int| 0 <= m < prev.len() && prev[m] == z;
                            assert(kept@[m] == z);
                        }
                        if z == y {
                            assert(kept@[prev.len() as int] == z);
                        }
                        if kept@.contains(z) && z != y {
                            let m = choose|m: int| 0 <= m < prev.len() + 1 && kept@[m] == z;
                            assert(prev[m] == z);
                        }
                    }
                    assert(kept@.no_duplicates()) by {
                        assert forall|a: int, b: int|
                            0 <= a < kept@.len() && 0 <= b < kept@.len() && a != b implies kept@[a]
                            != kept@[b] by {
                            if a == prev.len() {
                                assert(prev.contains(kept@[b]));
                            }
                            if b == prev.len() {
                                assert(prev.contains(kept@[a]));
                            }
                        }
                    }
                }
            }
            proof {
                assert forall|z: u32|
                    kept@.contains(z) <==> members.take(j as int + 1).contains(z) && z != id by {
                    assert(before.contains(z) <==> t.contains(z) && z != id);
                    assert(members.take(j as int + 1).contains(z) <==> t.contains(z) || z == y);
                }
            }
            j = j + 1;
        }
        assert(members.take(j as int) =~= members);
        self.agents_per_types.set(k, (tag, kept));
        self.agents.remove(i);
        proof {
            let ids1 = self.identities();
            let b1 = self.buckets();
            assert(ids1 =~= ids0.remove(i as int));
            assert(b1 =~= b0.update(k as int, (x.1, b1[k as int].1)));
            assert(b0[k as int].0 == x.1);
            assert forall|y: u32, t: Seq<char>| has_agent(ids1, y, t) <==> has_agent(ids0, y, t) && y
                != x.0 by {
                if has_agent(ids1, y, t) {
                    let m = choose|m: int| 0 <= m < ids1.len() && #[trigger] ids1[m] == (y, t);
                    let m0 = if m < i { m } else { m + 1 };
                    assert(ids0[m0] == (y, t));
                    assert(ids0[m0].0 != ids0[i as int].0);
                }
                if has_agent(ids0, y, t) && y != x.0 {
                    let m0 = choose|m: int| 0 <= m < ids0.len() && #[trigger] ids0[m] == (y, t);
                    assert(m0 != i);
                    let m = if m0 < i { m0 } else { m0 - 1 };
                    assert(ids1[m] == (y, t));
                }
            }
            assert forall|l: int, y: u32| 0 <= l < b1.len() implies (#[trigger] b1[l].1.contains(y)
                <==> has_agent(ids1, y, b1[l].0)) by {
                if l == k {
                    assert(b1[l].1.contains(y) <==> members.contains(y) && y != id);
                    assert(members.contains(y) <==> has_agent(ids0, y, x.1));
                } else {
                    assert(b1[l] == b0[l]);
                    assert(b0[l].0 != b0[k as int].0);
                    if has_agent(ids0, x.0, b0[l].0) {
                        let m = choose|m: int| 0 <= m < ids0.len() && #[trigger] ids0[m] == (
                            x.0,
                            b0[l].0,
                        );
                        assert(ids0[m].0 == ids0[i as int].0);
                    }
                }
            }
            assert forall|l: int| 0 <= l < b1.len() implies (#[trigger] b1[l]).1.no_duplicates() by {
                if l != k {
                    assert(b1[l] == b0[l]);
                }
            }
            assert forall|l: int, m: int|
                0 <= l < b1.len() && 0 <= m < b1.len() && l != m implies #[trigger] b1[l].0
                != #[trigger] b1[m].0 by {
                assert(b0[l].0 != b0[m].0);
            }
            assert forall|m: int| 0 <= m < ids1.len() implies has_bucket(b1, (#[trigger] ids1[m]).1) by {
                let m0 = if m < i { m } else { m + 1 };
                assert(ids1[m] == ids0[m0]);
                assert(has_bucket(b0, ids0[m0].1));
                let l = choose|l: int| 0 <= l < b0.len() && #[trigger] b0[l].0 == ids0[m0].1;
                assert(b1[l].0 == b0[l].0);
            }
            assert forall|a: int, b: int|
                0 <= a < ids1.len() && 0 <= b < ids1.len() && a != b implies #[trigger] ids1[a].0
                != #[trigger] ids1[b].0 by {
                let a0 = if a < i { a } else { a + 1 };
                let b0i = if b < i { b } else { b + 1 };
                assert(ids1[a] == ids0[a0]);
                assert(ids1[b] == ids0[b0i]);
            }
            assert forall|m: int| 0 <= m < ids1.len() implies #[trigger] ids1[m].0 <= self.next_id() by {
                let m0 = if m < i { m } else { m + 1 };
                assert(ids1[m] == ids0[m0]);
            }
            assert(registry_wf(ids1, b1, self.next_id()));
            assert forall|m: int| 0 <= m < self.registry().len() implies (#[trigger] self.registry()[
                m
            ]).2.handle_ok(self.tables().len()) by {
                let m0 = if m < i { m } else { m + 1 };
                assert(self.registry()[m] == old(self).registry()[m0]);
                assert(old(self).registry()[m0].2.handle_ok(old(self).tables().len()));
            }
            assert forall|l: int| 0 <= l < b1.len() implies !(#[trigger] b1[l]).1.contains(x.0) by {
                assert(!has_agent(ids1, x.0, b1[l].0));
            }
            assert forall|m: int| 0 <= m < ids1.len() implies (#[trigger] self.registry()[m]).2.id()
                != x.0 by {
                let m0 = if m < i { m } else { m + 1 };
                assert(ids1[m] == ids0[m0]);
            }
        }
    }

    /// The epsilon-greedy choice of the agent at index `i` among the legal
    /// actions of the environment; `draw` is the bits of a uniform float in [0, 1).
    pub fn choose_action_for(&self, i: usize, draw: u32) -> (r: u32)
        requires
            self.wf(),
            i < self.registry().len(),
            self.environment().actions@.len() > 0,
        ensures
            ({
                let a = self.registry()[i as int].2;
                choice_spec(
                    a.table_in(self.tables()),
                    a.exploration(),
                    state_model(a.current_state()@),
                    self.environment().actions@,
                    self.environment().actions@,
                    draw,
                    r,
                )
            }),
    {
        let agent = &self.agents[i].2;
        assert(self.registry()[i as int].2.handle_ok(self.tables().len()));
        agent.choose_action(&self.q_tables, agent.get_state(), &self.env.actions, &self.env.actions, draw)
    }

    /// Commits the outcome of a transition of the agent at index `i`, which
    /// took `action`: the Q-learning update through `rule`, with the legal
    /// actions of the environment as the next candidates, then the new state
    /// and position. Returns the stored estimate.
    pub fn step_agent<F: Fn(u32, u32, u32, u32, u32) -> u32>(
        &mut self,
        i: usize,
        action: u32,
        new_position: Position,
        next_state: State,
        reward: u32,
        rule: &F,
    ) -> (r: u32)
        requires
            old(self).wf(),
            i < old(self).registry().len(),
            forall|o: u32, a: u32, g: u32, w: u32, f: u32| rule.requires((o, a, g, w, f)),
        ensures
            final(self).wf(),
            final(self).registry().len() == old(self).registry().len(),
            forall|j: int|
                0 <= j < old(self).registry().len() && j != i ==> #[trigger] final(self).registry()[j]
                    == old(self).registry()[j],
            ({
                let a = old(self).registry()[i as int].2;
                let b = final(self).registry()[i as int].2;
                let t = a.table_in(old(self).tables());
                let s = state_model(a.current_state()@);
                &&& final(self).registry()[i as int].0 == new_position
                &&& final(self).registry()[i as int].1 == old(self).registry()[i as int].1
                &&& b.current_state() == next_state
                &&& identity(b) == identity(a)
                &&& rule.ensures(
                    (
                        q_of(t, (s, action)),
                        a.rates().0,
                        a.rates().1,
                        reward,
                        max_q(t, state_model(next_state@), old(self).environment().actions@),
                    ),
                    r,
                )
                &&& b.table_in(final(self).tables()) == t.insert((s, action), r)
                &&& final(self).tables() == a.tables_with(
                    old(self).tables(),
                    b.table_in(final(self).tables()),
                )
            }),
            final(self).buckets() == old(self).buckets(),
            final(self).next_id() == old(self).next_id(),
            final(self).environment() == old(self).environment(),
    {
        assert(old(self).registry()[i as int].2.handle_ok(old(self).tables().len()));
        let state = copy_state(self.agents[i].2.get_state());
        let r = self.agents[i].2.update(
            &mut self.q_tables,
            &state,
            action,
            reward,
            &next_state,
            &self.env.actions,
            rule,
        );
        self.agents[i].2.set_state(next_state);
        self.agents[i].0 = new_position;
        proof {
            assert(self.identities() =~= old(self).identities());
            assert forall|m: int| 0 <= m < self.registry().len() implies (#[trigger] self.registry()[
                m
            ]).2.handle_ok(self.tables().len()) by {
                assert(old(self).registry()[m].2.handle_ok(old(self).tables().len()));
            }
        }
        r
    }

    /// Commits the outcome of a transition of the agent at index `i` during a
    /// tick, as [`Scheduler::step_agent`] does, and retires the agent when the
    /// transition reported `done`. Returns the stored estimate.
    pub fn commit_step<F: Fn(u32, u32, u32, u32, u32) -> u32>(
        &mut self,
        i: usize,
        action: u32,
        new_position: Position,
        next_state: State,
        reward: u32,
        done: bool,
        rule: &F,
    ) -> (r: u32)
        requires
            old(self).wf(),
            i < old(self).registry().len(),
            forall|o: u32, a: u32, g: u32, w: u32, f: u32| rule.requires((o, a, g, w, f)),
        ensures
            final(self).wf(),
            ({
                let a = old(self).registry()[i as int].2;
                let t = a.table_in(old(self).tables());
                let s = state_model(a.current_state()@);
                &&& rule.ensures(
                    (
                        q_of(t, (s, action)),
                        a.rates().0,
                        a.rates().1,
                        reward,
                        max_q(t, state_model(next_state@), old(self).environment().actions@),
                    ),
                    r,
                )
                &&& final(self).tables() == a.tables_with(old(self).tables(), t.insert((s, action), r))
            }),
            done ==> {
                let id = old(self).registry()[i as int].2.id();
                &&& final(self).registry().len() == old(self).registry().len() - 1
                &&& forall|j: int| 0 <= j < i ==> #[trigger] final(self).registry()[j] == old(self).registry()[j]
                &&& forall|j: int|
                    i < j < old(self).registry().len() ==> #[trigger] final(self).registry()[j - 1]
                        == old(self).registry()[j]
                &&& forall|j: int|
                    0 <= j < final(self).registry().len() ==> (#[trigger] final(self).registry()[j]).2.id() != id
                &&& forall|k: int|
                    0 <= k < final(self).buckets().len() ==> !(#[trigger] final(self).buckets()[k]).1.contains(id)
            },
            !done ==> {
                let a = old(self).registry()[i as int].2;
                let b = final(self).registry()[i as int].2;
                &&& final(self).registry().len() == old(self).registry().len()
                &&& forall|j: int|
                    0 <= j < old(self).registry().len() && j != i ==> #[trigger] final(self).registry()[j]
                        == old(self).registry()[j]
                &&& final(self).registry()[i as int].0 == new_position
                &&& final(self).registry()[i as int].1 == old(self).registry()[i as int].1
                &&& b.current_state() == next_state
                &&& identity(b) == identity(a)
                &&& final(self).buckets() == old(self).buckets()
            },
            final(self).next_id() == old(self).next_id(),
            final(self).environment() == old(self).environment(),
    {
        let ghost a = self.registry()[i as int].2;
        let r = self.step_agent(i, action, new_position, next_state, reward, rule);
        proof {
            let b = self.registry()[i as int].2;
            assert(b.table_in(self.tables()) == a.table_in(old(self).tables()).insert(
                (state_model(a.current_state()@), action),
                r,
            ));
        }
        if done {
            let ghost mid = self.registry();
            self.retire(i);
            proof {
                assert forall|j: int| i < j < old(self).registry().len() implies #[trigger] self.registry()[j
                    - 1] == old(self).registry()[j] by {
                    assert(self.registry()[j - 1] == mid[j]);
                }
            }
        }
        r
    }

    /// Commits the outcome of a transition of the agent at index `i` during
    /// training, where `done` ends nothing but sends the agent back to the
    /// origin: the agent's next position, which is returned, is the origin when
    /// `done` and `new_position` otherwise.
    pub fn train_step<F: Fn(u32, u32, u32, u32, u32) -> u32>(
        &mut self,
        i: usize,
        action: u32,
        new_position: Position,
        next_state: State,
        reward: u32,
        done: bool,
        rule: &F,
    ) -> (p: Position)
        requires
            old(self).wf(),
            i < old(self).registry().len(),
            forall|o: u32, a: u32, g: u32, w: u32, f: u32| rule.requires((o, a, g, w, f)),
        ensures
            final(self).wf(),
            p == (if done {
                Position { x: 0, y: 0 }
            } else {
                new_position
            }),
            final(self).registry().len() == old(self).registry().len(),
            final(self).registry()[i as int].0 == p,
            final(self).registry()[i as int].2.current_state() == next_state,
            identity(final(self).registry()[i as int].2) == identity(old(self).registry()[i as int].2),
            forall|j: int|
                0 <= j < old(self).registry().len() && j != i ==> #[trigger] final(self).registry()[j]
                    == old(self).registry()[j],
            ({
                let a = old(self).registry()[i as int].2;
                let t = a.table_in(old(self).tables());
                let s = state_model(a.current_state()@);
                exists|r: u32|
                    rule.ensures(
                        (
                            q_of(t, (s, action)),
                            a.rates().0,
                            a.rates().1,
                            reward,
                            max_q(t, state_model(next_state@), old(self).environment().actions@),
                        ),
                        r,
                    ) && final(self).tables() == a.tables_with(
                        old(self).tables(),
                        t.insert((s, action), r),
                    )
            }),
            final(self).buckets() == old(self).buckets(),
            final(self).next_id() == old(self).next_id(),
            final(self).environment() == old(self).environment(),
    {
        let p = if done {
            Position { x: 0, y: 0 }
        } else {
            new_position
        };
        let ghost a = self.registry()[i as int].2;
        let r = self.step_agent(i, action, p, next_state, reward, rule);
        proof {
            let b = self.registry()[i as int].2;
            assert(b.table_in(self.tables()) == a.table_in(old(self).tables()).insert(
                (state_model(a.current_state()@), action),
                r,
            ));
        }
        p
    }

    /// Registers `n` independent agents of type `agent_type`, each in state
    /// `state`, with its own copy of `q_table`, at `position` or, when none is
    /// given, at a cell drawn at random for each.
    pub fn add_agents(
        &mut self,
        n: usize,
        position: Option<Position>,
        color: C,
        agent_type: &str,
        state: State,
        learning_rate: Option<u32>,
        discount_factor: Option<u32>,
        exploration_rate: Option<u32>,
        q_table: &QTable,
    )
        requires
            old(self).wf(),
            old(self).next_id() + n <= u32::MAX,
            position is None ==> 0 < old(self).environment().size.width <= i32::MAX && 0 < old(
                self,
            ).environment().size.heigth <= i32::MAX,
        ensures
            final(self).wf(),
            final(self).next_id() == old(self).next_id() + n,
            final(self).registry().len() == old(self).registry().len() + n,
            forall|j: int|
                0 <= j < old(self).registry().len() ==> #[trigger] final(self).registry()[j] == old(
                    self,
                ).registry()[j],
            forall|j: int|
                old(self).registry().len() <= j < final(self).registry().len() ==> {
                    let e = #[trigger] final(self).registry()[j];
                    &&& e.2 is Learning
                    &&& e.2.id() == old(self).next_id() + (j - old(self).registry().len()) + 1
                    &&& placed(e, position, color, old(self).environment())
                    &&& e.2.type_tag() == agent_type@
                    &&& state_model(e.2.current_state()@) == state_model(state@)
                    &&& e.2.table_in(final(self).tables()) == q_table@
                    &&& e.2.rates() == (
                        rate_or_spec(learning_rate, DEFAULT_LEARNING_RATE),
                        rate_or_spec(discount_factor, DEFAULT_DISCOUNT_FACTOR),
                    )
                    &&& e.2.exploration() == rate_or_spec(exploration_rate, DEFAULT_EXPLORATION_RATE)
                },
            final(self).tables() == old(self).tables(),
            final(self).environment() == old(self).environment(),
    {
        let ghost len0 = self.registry().len();
        let mut j: usize = 0;
        while j < n
            invariant
                self.wf(),
                0 <= j <= n,
                old(self).next_id() + n <= u32::MAX,
                self.next_id() == old(self).next_id() + j,
                self.registry().len() == len0 + j,
                len0 == old(self).registry().len(),
                self.tables() == old(self).tables(),
                self.environment() == old(self).environment(),
                position is None ==> 0 < self.environment().size.width <= i32::MAX && 0
                    < self.environment().size.heigth <= i32::MAX,
                forall|m: int| 0 <= m < len0 ==> #[trigger] self.registry()[m] == old(self).registry()[m],
                forall|m: int|
                    len0 <= m < self.registry().len() ==> {
                        let e = #[trigger] self.registry()[m];
                        &&& e.2 is Learning
                        &&& e.2.id() == old(self).next_id() + (m - len0) + 1
                        &&& placed(e, position, color, old(self).environment())
                        &&& e.2.type_tag() == agent_type@
                        &&& state_model(e.2.current_state()@) == state_model(state@)
                        &&& e.2.table_in(self.tables()) == q_table@
                        &&& e.2.rates() == (
                            rate_or_spec(learning_rate, DEFAULT_LEARNING_RATE),
                            rate_or_spec(discount_factor, DEFAULT_DISCOUNT_FACTOR),
                        )
                        &&& e.2.exploration() == rate_or_spec(
                            exploration_rate,
                            DEFAULT_EXPLORATION_RATE,
                        )
                    },
            decreases n - j,
        {
            let ghost reg = self.registry();
            let id = self.generate_id();
            let p = match position {
                Some(p) => p,
                None => self.env.get_random_position(),
            };
            let mut agent = LearningAgent::new(
                id,
                agent_type.to_owned(),
                copy_state(&state),
                learning_rate,
                discount_factor,
                exploration_rate,
            );
            agent.set_q_table(QTable::from_entries(&q_table.to_entries()));
            proof {
                assert forall|m: int| 0 <= m < reg.len() implies (#[trigger] reg[m]).2.id() != id by {
                    assert(self.identities()[m].0 <= old(self).next_id() + j);
                }
            }
            self.register(p, color, Agent::Learning(agent));
            j = j + 1;
        }
    }

    /// Registers `n` members of a swarm sharing the table with handle
    /// `q_table`, otherwise as [`Scheduler::add_agents`].
    pub fn add_swarming_agents(
        &mut self,
        n: usize,
        position: Option<Position>,
        color: C,
        agent_type: &str,
        state: State,
        learning_rate: Option<u32>,
        discount_factor: Option<u32>,
        exploration_rate: Option<u32>,
        q_table: usize,
    )
        requires
            old(self).wf(),
            old(self).next_id() + n <= u32::MAX,
            q_table < old(self).tables().len(),
            position is None ==> 0 < old(self).environment().size.width <= i32::MAX && 0 < old(
                self,
            ).environment().size.heigth <= i32::MAX,
        ensures
            final(self).wf(),
            final(self).next_id() == old(self).next_id() + n,
            final(self).registry().len() == old(self).registry().len() + n,
            forall|j: int|
                0 <= j < old(self).registry().len() ==> #[trigger] final(self).registry()[j] == old(
                    self,
                ).registry()[j],
            forall|j: int|
                old(self).registry().len() <= j < final(self).registry().len() ==> {
                    let e = #[trigger] final(self).registry()[j];
                    &&& e.2 matches Agent::Swarm(a) && a.q_table == q_table
                    &&& e.2.id() == old(self).next_id() + (j - old(self).registry().len()) + 1
                    &&& placed(e, position, color, old(self).environment())
                    &&& e.2.type_tag() == agent_type@
                    &&& state_model(e.2.current_state()@) == state_model(state@)
                    &&& e.2.rates() == (
                        rate_or_spec(learning_rate, DEFAULT_LEARNING_RATE),
                        rate_or_spec(discount_factor, DEFAULT_DISCOUNT_FACTOR),
                    )
                    &&& e.2.exploration() == rate_or_spec(exploration_rate, DEFAULT_EXPLORATION_RATE)
                },
            final(self).tables() == old(self).tables(),
            final(self).environment() == old(self).environment(),
    {
        let ghost len0 = self.registry().len();
        let mut j: usize = 0;
        while j < n
            invariant
                self.wf(),
                0 <= j <= n,
                old(self).next_id() + n <= u32::MAX,
                q_table < self.tables().len(),
                self.next_id() == old(self).next_id() + j,
                self.registry().len() == len0 + j,
                len0 == old(self).registry().len(),
                self.tables() == old(self).tables(),
                self.environment() == old(self).environment(),
                position is None ==> 0 < self.environment().size.width <= i32::MAX && 0
                    < self.environment().size.heigth <= i32::MAX,
                forall|m: int| 0 <= m < len0 ==> #[trigger] self.registry()[m] == old(self).registry()[m],
                forall|m: int|
                    len0 <= m < self.registry().len() ==> {
                        let e = #[trigger] self.registry()[m];
                        &&& e.2 matches Agent::Swarm(a) && a.q_table == q_table
                        &&& e.2.id() == old(self).next_id() + (m - len0) + 1
                        &&& placed(e, position, color, old(self).environment())
                        &&& e.2.type_tag() == agent_type@
                        &&& state_model(e.2.current_state()@) == state_model(state@)
                        &&& e.2.rates() == (
                            rate_or_spec(learning_rate, DEFAULT_LEARNING_RATE),
                            rate_or_spec(discount_factor, DEFAULT_DISCOUNT_FACTOR),
                        )
                        &&& e.2.exploration() == rate_or_spec(
                            exploration_rate,
                            DEFAULT_EXPLORATION_RATE,
                        )
                    },
            decreases n - j,
        {
            let ghost reg = self.registry();
            let id = self.generate_id();
            let p = match position {
                Some(p) => p,
                None => self.env.get_random_position(),
            };
            let agent = SwarmAgent::new(
                id,
                agent_type.to_owned(),
                copy_state(&state),
                learning_rate,
                discount_factor,
                exploration_rate,
                q_table,
            );
            proof {
                assert forall|m: int| 0 <= m < reg.len() implies (#[trigger] reg[m]).2.id() != id by {
                    assert(self.identities()[m].0 <= old(self).next_id() + j);
                }
            }
            self.register(p, color, Agent::Swarm(agent));
            j = j + 1;
        }
    }

    /// The position and display attribute of every registered agent, in the
    /// order of the registry: what a renderer draws each tick.
    pub fn agent_positions(&self) -> (r: Vec<(Position, C)>)
        ensures
            r@.len() == self.registry().len(),
            forall|j: int|
                0 <= j < r@.len() ==> #[trigger] r@[j] == (self.registry()[j].0, self.registry()[j].1),
    {
        let mut out: Vec<(Position, C)> = Vec::new();
        let mut j: usize = 0;
        while j < self.agents.len()
            invariant
                0 <= j <= self.agents@.len(),
                out@.len() == j,
                forall|m: int|
                    0 <= m < j ==> #[trigger] out@[m] == (self.registry()[m].0, self.registry()[m].1),
            decreases self.agents.len() - j,
        {
            out.push((self.agents[j].0, self.agents[j].1));
            j = j + 1;
        }
        out
    }

    /// The table that the agent at index `i` reads and writes.
    pub fn table_of(&self, i: usize) -> (r: &QTable)
        requires
            self.wf(),
            i < self.registry().len(),
        ensures
            r@ == self.registry()[i as int].2.table_in(self.tables()),
    {
        assert(self.registry()[i as int].2.handle_ok(self.tables().len()));
        match &self.agents[i].2 {
            Agent::Learning(a) => a.q_table(),
            Agent::Swarm(a) => self.q_tables.get(a.q_table),
        }
    }

    /// One representative per type: for each bucket that lists an agent, its
    /// tag and the index in the registry of the first agent it lists.
    pub fn representatives(&self) -> (r: Vec<(String, usize)>)
        requires
            self.wf(),
        ensures
            forall|j: int|
                0 <= j < r@.len() ==> {
                    let (tag, i) = #[trigger] r@[j];
                    &&& i < self.registry().len()
                    &&& exists|k: int|
                        0 <= k < self.buckets().len() && #[trigger] self.buckets()[k].0 == tag@
                            && self.buckets()[k].1.len() > 0 && self.registry()[i as int].2.id()
                            == self.buckets()[k].1[0]
                },
            forall|k: int|
                0 <= k < self.buckets().len() && (#[trigger] self.buckets()[k]).1.len() > 0
                    ==> exists|j: int| 0 <= j < r@.len() && #[trigger] r@[j].0@ == self.buckets()[k].0,
    {
        let ghost b = self.buckets();
        let ghost ids = self.identities();
        let mut out: Vec<(String, usize)> = Vec::new();
        let mut k: usize = 0;
        while k < self.agents_per_types.len()
            invariant
                self.wf(),
                b == self.buckets(),
                ids == self.identities(),
                0 <= k <= b.len(),
                b.len() == self.agents_per_types@.len(),
                forall|j: int|
                    0 <= j < out@.len() ==> {
                        let (tag, i) = #[trigger] out@[j];
                        &&& i < self.registry().len()
                        &&& exists|l: int|
                            0 <= l < b.len() && #[trigger] b[l].0 == tag@ && b[l].1.len() > 0
                                && self.registry()[i as int].2.id() == b[l].1[0]
                    },
                forall|l: int|
                    0 <= l < k && (#[trigger] b[l]).1.len() > 0 ==> exists|j: int|
                        0 <= j < out@.len() && #[trigger] out@[j].0@ == b[l].0,
            decreases self.agents_per_types.len() - k,
        {
            let bucket = &self.agents_per_types[k];
            assert(b[k as int] == (bucket.0@, bucket.1@));
            if bucket.1.len() > 0 {
                let id = bucket.1[0];
                match self.find_agent(id) {
                    Some(i) => {
                        let ghost before = out@;
                        out.push((bucket.0.clone(), i));
                        proof {
                            assert forall|j: int| 0 <= j < out@.len() implies {
                                let (tag, i) = #[trigger] out@[j];
                                &&& i < self.registry().len()
                                &&& exists|l: int|
                                    0 <= l < b.len() && #[trigger] b[l].0 == tag@ && b[l].1.len() > 0
                                        && self.registry()[i as int].2.id() == b[l].1[0]
                            } by {
                                if j < before.len() {
                                    assert(out@[j] == before[j]);
                                } else {
                                    assert(b[k as int].0 == out@[j].0@);
                                }
                            }
                            assert forall|l: int|
                                0 <= l < k + 1 && (#[trigger] b[l]).1.len() > 0 implies exists|j: int|
                                0 <= j < out@.len() && #[trigger] out@[j].0@ == b[l].0 by {
                                if l < k {
                                    let j = choose|j: int|
                                        0 <= j < before.len() && #[trigger] before[j].0@ == b[l].0;
                                    assert(out@[j] == before[j]);
                                } else {
                                    assert(out@[before.len() as int].0@ == b[l].0);
                                }
                            }
                        }
                    },
                    None => {
                        proof {
                            assert(b[k as int].1.contains(id));
                            let m = choose|m: int| 0 <= m < ids.len() && #[trigger] ids[m] == (
                                id,
                                b[k as int].0,
                            );
                            assert(self.registry()[m].2.id() == id);
                        }
                    },
                }
            }
            k = k + 1;
        }
        out
    }
}

/// Whether a bucket with this tag lists this id.
pub open spec fn listed(buckets: Seq<(Seq<char>, Seq<u32>)>, id: u32, tag: Seq<char>) -> bool {
    exists|k: int| 0 <= k < buckets.len() && #[trigger] buckets[k].0 == tag && buckets[k].1.contains(id)
}

/// Registry consistency: in a well-formed scheduler, which every operation
/// keeps, each registered agent appears in exactly one type bucket, the one of
/// its type, and each id in a bucket is that of exactly one registered agent,
/// of the bucket's type; no bucket repeats an id and no two buckets share a tag.
pub proof fn lemma_registry_consistent<C: Copy>(s: &Scheduler<C>)
    requires
        s.wf(),
    ensures
        forall|i: int|
            0 <= i < s.identities().len() ==> listed(
                s.buckets(),
                (#[trigger] s.identities()[i]).0,
                s.identities()[i].1,
            ),
        forall|i: int, k: int|
            0 <= i < s.identities().len() && 0 <= k < s.buckets().len() && (#[trigger] s.buckets()[
                k
            ]).1.contains(#[trigger] s.identities()[i].0) ==> s.buckets()[k].0 == s.identities()[i].1,
        forall|k: int, l: int|
            0 <= k < s.buckets().len() && 0 <= l < s.buckets().len() && k != l ==> #[trigger] s.buckets()[k].0
                != #[trigger] s.buckets()[l].0,
        forall|k: int, m: int|
            0 <= k < s.buckets().len() && 0 <= m < s.buckets()[k].1.len() ==> has_agent(
                s.identities(),
                #[trigger] s.buckets()[k].1[m],
                s.buckets()[k].0,
            ),
        forall|i: int, j: int|
            0 <= i < s.identities().len() && 0 <= j < s.identities().len() && i != j
                ==> #[trigger] s.identities()[i].0 != #[trigger] s.identities()[j].0,
        forall|k: int| 0 <= k < s.buckets().len() ==> (#[trigger] s.buckets()[k]).1.no_duplicates(),
{
    let ids = s.identities();
    let b = s.buckets();
    assert forall|i: int| 0 <= i < ids.len() implies listed(b, (#[trigger] ids[i]).0, ids[i].1) by {
        assert(has_bucket(b, ids[i].1));
        let k = choose|k: int| 0 <= k < b.len() && #[trigger] b[k].0 == ids[i].1;
        assert(has_agent(ids, ids[i].0, ids[i].1));
        assert(b[k].1.contains(ids[i].0));
    }
    assert forall|i: int, k: int|
        0 <= i < ids.len() && 0 <= k < b.len() && (#[trigger] b[k]).1.contains(
            #[trigger] ids[i].0,
        ) implies b[k].0 == ids[i].1 by {
        assert(has_agent(ids, ids[i].0, b[k].0));
        let j = choose|j: int| 0 <= j < ids.len() && #[trigger] ids[j] == (ids[i].0, b[k].0);
        if j != i {
            assert(ids[j].0 != ids[i].0);
        }
    }
    assert forall|k: int, m: int| 0 <= k < b.len() && 0 <= m < b[k].1.len() implies has_agent(
        ids,
        #[trigger] b[k].1[m],
        b[k].0,
    ) by {
        assert(b[k].1.contains(b[k].1[m]));
    }
}

/// Retirement: a retired agent's id is at most the scheduler's counter, which
/// no operation lowers, while every agent added later gets an id above the
/// counter; so the id is never given again.
pub proof fn lemma_retired_id_not_reused<C: Copy>(s: &Scheduler<C>, i: int)
    requires
        s.wf(),
        0 <= i < s.registry().len(),
    ensures
        s.registry()[i].2.id() <= s.next_id(),
{
    assert(s.identities()[i].0 <= s.next_id());
}

} // verus!
