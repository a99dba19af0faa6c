//! Q-learning agents: an independent variant that owns its table and a swarm
//! variant that shares one through a handle.
//!
//! Learning rate, discount factor, exploration rate, rewards and estimates are
//! 32-bit floats held as bit patterns. Float arithmetic is supplied by the
//! caller as the update rule; the order of estimates is the IEEE total order.
use vstd::prelude::*;

use crate::qtable::{is_best, max_q, order_key, q_of, tie_rank, QKey, QTable, QTables};
use crate::value::{copy_state, state_model, State};

verus! {

/// Bits of 0.1, the learning rate when none is given.
pub const DEFAULT_LEARNING_RATE: u32 = 0x3DCC_CCCD;

/// Bits of 0.9, the discount factor when none is given.
pub const DEFAULT_DISCOUNT_FACTOR: u32 = 0x3F66_6666;

/// Bits of 0.2, the exploration rate when none is given.
pub const DEFAULT_EXPLORATION_RATE: u32 = 0x3E4C_CCCD;

/// Whether the bit pattern is a NaN.
pub open spec fn is_nan(b: u32) -> bool {
    (b & 0x7F80_0000) == 0x7F80_0000 && (b & 0x007F_FFFF) != 0
}

/// Whether the bit pattern is +0.0 or -0.0.
pub open spec fn is_zero(b: u32) -> bool {
    (b & 0x7FFF_FFFF) == 0
}

/// IEEE 754 `<` on the floats with bit patterns `a` and `b`.
pub open spec fn float_lt(a: u32, b: u32) -> bool {
    !is_nan(a) && !is_nan(b) && !(is_zero(a) && is_zero(b)) && order_key(a) < order_key(b)
}

/// Computes [`float_lt`].
pub fn float_less(a: u32, b: u32) -> (r: bool)
    ensures
        r == float_lt(a, b),
{
    let a_nan = (a & 0x7F80_0000) == 0x7F80_0000 && (a & 0x007F_FFFF) != 0;
    let b_nan = (b & 0x7F80_0000) == 0x7F80_0000 && (b & 0x007F_FFFF) != 0;
    let zeros = (a & 0x7FFF_FFFF) == 0 && (b & 0x7FFF_FFFF) == 0;
    !a_nan && !b_nan && !zeros && crate::qtable::order_key_of(a) < crate::qtable::order_key_of(b)
}

/// Relies on `rand::random_range`: an index drawn uniformly below `n` from the
/// process-wide generator. It panics on an empty range, hence `n > 0`.
#[verifier::external_body]
pub(crate) fn random_index(n: usize) -> (r: usize)
    requires
        n > 0,
    ensures
        r < n,
{
    rand::random_range(0..n)
}

/// The actions among which an epsilon-greedy policy picks uniformly.
///
/// The pool is `actions`, or `fallback` when `actions` is empty. When the draw
/// is below the exploration rate, or the table is empty, it is the whole pool;
/// otherwise the pool's actions whose estimate at `state` is the largest.
pub open spec fn choice_spec(
    m: Map<QKey, u32>,
    exploration_rate: u32,
    s: Seq<crate::value::ValueModel>,
    actions: Seq<u32>,
    fallback: Seq<u32>,
    draw: u32,
    a: u32,
) -> bool {
    let pool = if actions.len() > 0 {
        actions
    } else {
        fallback
    };
    if float_lt(draw, exploration_rate) || m.dom() =~= Set::<QKey>::empty() {
        pool.contains(a)
    } else {
        pool.contains(a) && is_best(m, s, pool, a)
    }
}

/// Deterministic greedy pick: with exploration rate 0.0, a nonempty table, a
/// draw from [0, 1) and a candidate `a` whose estimate at `s` is strictly above
/// every other candidate's (-0.0 and +0.0 counting as equal), the only action
/// the policy can pick is `a`.
pub proof fn lemma_greedy_pick(
    m: Map<QKey, u32>,
    s: Seq<crate::value::ValueModel>,
    actions: Seq<u32>,
    fallback: Seq<u32>,
    draw: u32,
    a: u32,
    r: u32,
)
    requires
        !(m.dom() =~= Set::<QKey>::empty()),
        draw < 0x8000_0000,
        actions.contains(a),
        forall|j: int|
            0 <= j < actions.len() && actions[j] != a ==> tie_rank(q_of(m, (s, #[trigger] actions[j])))
                < tie_rank(q_of(m, (s, a))),
        choice_spec(m, 0, s, actions, fallback, draw, r),
    ensures
        r == a,
{
    assert(!float_lt(draw, 0));
    let ja = choose|j: int| 0 <= j < actions.len() && actions[j] == a;
    if r != a {
        let jr = choose|j: int| 0 <= j < actions.len() && actions[j] == r;
        assert(tie_rank(q_of(m, (s, actions[ja]))) <= tie_rank(q_of(m, (s, r))));
    }
}

/// Exploration: with exploration rate 1.0 and a draw from [0, 1) (whose bit
/// patterns are those below the bits of 1.0), every candidate may be picked,
/// whatever the table holds.
pub proof fn lemma_full_exploration(
    m: Map<QKey, u32>,
    s: Seq<crate::value::ValueModel>,
    actions: Seq<u32>,
    fallback: Seq<u32>,
    draw: u32,
    a: u32,
)
    requires
        draw < 0x3F80_0000,
        actions.contains(a),
    ensures
        choice_spec(m, 0x3F80_0000, s, actions, fallback, draw, a),
{
    assert(!is_nan(draw)) by (bit_vector)
        requires
            draw < 0x3F80_0000u32,
    ;
    assert(!is_zero(0x3F80_0000)) by (bit_vector);
    assert(!is_nan(0x3F80_0000)) by (bit_vector);
}

/// The actions among which the policy picks, for the uniform draw `draw`
/// (the bits of a float in [0, 1)).
pub fn choice_set(
    table: &QTable,
    exploration_rate: u32,
    state: &State,
    actions: &Vec<u32>,
    fallback: &Vec<u32>,
    draw: u32,
) -> (r: Vec<u32>)
    ensures
        (actions@.len() > 0 || fallback@.len() > 0) ==> r@.len() > 0,
        forall|a: u32|
            r@.contains(a) <==> choice_spec(
                table@,
                exploration_rate,
                state_model(state@),
                actions@,
                fallback@,
                draw,
                a,
            ),
{
    let pool = if actions.len() > 0 {
        actions
    } else {
        fallback
    };
    let explore = float_less(draw, exploration_rate);
    if explore || table.is_empty() {
        let mut out: Vec<u32> = Vec::new();
        let mut i: usize = 0;
        while i < pool.len()
            invariant
                0 <= i <= pool@.len(),
                out@ == pool@.take(i as int),
            decreases pool.len() - i,
        {
            out.push(pool[i]);
            assert(pool@.take(i as int + 1) =~= pool@.take(i as int).push(pool@[i as int]));
            i = i + 1;
        }
        assert(pool@.take(i as int) =~= pool@);
        out
    } else {
        table.best_actions(state, pool)
    }
}

/// One epsilon-greedy choice: an action of [`choice_set`], drawn uniformly.
pub fn choose_from(
    table: &QTable,
    exploration_rate: u32,
    state: &State,
    actions: &Vec<u32>,
    fallback: &Vec<u32>,
    draw: u32,
) -> (r: u32)
    requires
        actions@.len() > 0 || fallback@.len() > 0,
    ensures
        choice_spec(table@, exploration_rate, state_model(state@), actions@, fallback@, draw, r),
{
    let set = choice_set(table, exploration_rate, state, actions, fallback, draw);
    let i = random_index(set.len());
    let a = set[i];
    assert(set@.contains(a));
    a
}

/// The Q-learning update of (`state`, `action`) in `table`: the rule receives
/// the old estimate, the learning rate, the discount factor, the reward and the
/// largest estimate among `next_actions` at `next_state` (0.0 when there are
/// none), and what it returns is stored and returned.
pub fn learn<F: Fn(u32, u32, u32, u32, u32) -> u32>(
    table: &mut QTable,
    learning_rate: u32,
    discount_factor: u32,
    state: &State,
    action: u32,
    reward: u32,
    next_state: &State,
    next_actions: &Vec<u32>,
    rule: &F,
) -> (r: u32)
    requires
        forall|o: u32, a: u32, g: u32, w: u32, f: u32| rule.requires((o, a, g, w, f)),
    ensures
        rule.ensures(
            (
                q_of(old(table)@, (state_model(state@), action)),
                learning_rate,
                discount_factor,
                reward,
                max_q(old(table)@, state_model(next_state@), next_actions@),
            ),
            r,
        ),
        final(table)@ == old(table)@.insert((state_model(state@), action), r),
{
    let old_q = table.get_q_value(state, action);
    let future = table.max_q_value(next_state, next_actions);
    let new_q = rule(old_q, learning_rate, discount_factor, reward, future);
    table.set_q_value(copy_state(state), action, new_q);
    new_q
}

/// The rate given, or `default` when none is.
fn rate_or(rate: Option<u32>, default: u32) -> (r: u32)
    ensures
        r == rate_or_spec(rate, default),
{
    match rate {
        Some(x) => x,
        None => default,
    }
}

/// An agent that owns its Q-table outright.
pub struct LearningAgent {
    /// Unique id, given once by the scheduler.
    pub id: u32,
    /// Type tag, e.g. "wolf" or "sheep".
    pub agent_type: String,
    /// Current state.
    pub state: State,
    /// The table this agent alone owns.
    pub q_table: QTable,
    /// Bits of alpha, the learning rate.
    pub learning_rate: u32,
    /// Bits of gamma, the discount factor.
    pub discount_factor: u32,
    /// Bits of epsilon, the exploration rate.
    pub exploration_rate: u32,
}

impl LearningAgent {
    /// The model of the agent's table.
    pub open spec fn table(&self) -> Map<QKey, u32> {
        self.q_table@
    }

    /// A new agent with an empty table; a missing rate takes its default.
    pub fn new(
        id: u32,
        agent_type: String,
        state: State,
        learning_rate: Option<u32>,
        discount_factor: Option<u32>,
        exploration_rate: Option<u32>,
    ) -> (r: LearningAgent)
        ensures
            r.id == id,
            r.agent_type == agent_type,
            r.state == state,
            r.table() == Map::<QKey, u32>::empty(),
            r.learning_rate == rate_or_spec(learning_rate, DEFAULT_LEARNING_RATE),
            r.discount_factor == rate_or_spec(discount_factor, DEFAULT_DISCOUNT_FACTOR),
            r.exploration_rate == rate_or_spec(exploration_rate, DEFAULT_EXPLORATION_RATE),
    {
        LearningAgent {
            id,
            agent_type,
            state,
            q_table: QTable::new(),
            learning_rate: rate_or(learning_rate, DEFAULT_LEARNING_RATE),
            discount_factor: rate_or(discount_factor, DEFAULT_DISCOUNT_FACTOR),
            exploration_rate: rate_or(exploration_rate, DEFAULT_EXPLORATION_RATE),
        }
    }

    pub fn get_unique_id(&self) -> (r: u32)
        ensures
            r == self.id,
    {
        self.id
    }

    pub fn get_type(&self) -> (r: &String)
        ensures
            r == self.agent_type,
    {
        &self.agent_type
    }

    pub fn get_state(&self) -> (r: &State)
        ensures
            r == self.state,
    {
        &self.state
    }

    /// Replaces the state and nothing else.
    pub fn set_state(&mut self, state: State)
        ensures
            *final(self) == (LearningAgent { state, ..*old(self) }),
    {
        self.state = state;
    }

    /// The estimate for (`state`, `action`); the bits of 0.0 when absent.
    pub fn get_q_value(&self, state: &State, action: u32) -> (r: u32)
        ensures
            r == q_of(self.table(), (state_model(state@), action)),
    {
        self.q_table.get_q_value(state, action)
    }

    /// Sets the estimate for (`state`, `action`), replacing any earlier one.
    pub fn set_q_value(&mut self, state: State, action: u32, value: u32)
        ensures
            final(self).table() == old(self).table().insert((state_model(state@), action), value),
            final(self).id == old(self).id,
            final(self).agent_type == old(self).agent_type,
            final(self).state == old(self).state,
            final(self).learning_rate == old(self).learning_rate,
            final(self).discount_factor == old(self).discount_factor,
            final(self).exploration_rate == old(self).exploration_rate,
    {
        self.q_table.set_q_value(state, action, value);
    }

    /// The agent's table.
    pub fn q_table(&self) -> (r: &QTable)
        ensures
            r@ == self.table(),
    {
        &self.q_table
    }

    /// Replaces the agent's table, as when one is loaded.
    pub fn set_q_table(&mut self, table: QTable)
        ensures
            final(self).table() == table@,
            final(self).id == old(self).id,
            final(self).agent_type == old(self).agent_type,
            final(self).state == old(self).state,
            final(self).learning_rate == old(self).learning_rate,
            final(self).discount_factor == old(self).discount_factor,
            final(self).exploration_rate == old(self).exploration_rate,
    {
        self.q_table = table;
    }

    /// Epsilon-greedy action selection; `draw` is the bits of a uniform float
    /// in [0, 1), and `fallback` the actions used when `actions` is empty.
    pub fn choose_action(&self, state: &State, actions: &Vec<u32>, fallback: &Vec<u32>, draw: u32) -> (r: u32)
        requires
            actions@.len() > 0 || fallback@.len() > 0,
        ensures
            choice_spec(self.table(), self.exploration_rate, state_model(state@), actions@, fallback@, draw, r),
    {
        choose_from(&self.q_table, self.exploration_rate, state, actions, fallback, draw)
    }

    /// The Q-learning update, through `rule` (see [`learn`]).
    pub fn update<F: Fn(u32, u32, u32, u32, u32) -> u32>(
        &mut self,
        state: &State,
        action: u32,
        reward: u32,
        next_state: &State,
        next_actions: &Vec<u32>,
        rule: &F,
    ) -> (r: u32)
        requires
            forall|o: u32, a: u32, g: u32, w: u32, f: u32| rule.requires((o, a, g, w, f)),
        ensures
            rule.ensures(
                (
                    q_of(old(self).table(), (state_model(state@), action)),
                    old(self).learning_rate,
                    old(self).discount_factor,
                    reward,
                    max_q(old(self).table(), state_model(next_state@), next_actions@),
                ),
                r,
            ),
            final(self).table() == old(self).table().insert((state_model(state@), action), r),
            final(self).id == old(self).id,
            final(self).agent_type == old(self).agent_type,
            final(self).state == old(self).state,
            final(self).learning_rate == old(self).learning_rate,
            final(self).discount_factor == old(self).discount_factor,
            final(self).exploration_rate == old(self).exploration_rate,
    {
        learn(
            &mut self.q_table,
            self.learning_rate,
            self.discount_factor,
            state,
            action,
            reward,
            next_state,
            next_actions,
            rule,
        )
    }
}

/// An agent of a swarm: its Q-table is shared with the other members of its
/// cohort and reached through a handle into a [`QTables`].
pub struct SwarmAgent {
    /// Unique id, given once by the scheduler.
    pub id: u32,
    /// Type tag, e.g. "ant".
    pub agent_type: String,
    /// Current state.
    pub state: State,
    /// Handle of the shared table.
    pub q_table: usize,
    /// Bits of alpha, the learning rate.
    pub learning_rate: u32,
    /// Bits of gamma, the discount factor.
    pub discount_factor: u32,
    /// Bits of epsilon, the exploration rate.
    pub exploration_rate: u32,
}

impl SwarmAgent {
    /// A new member of the cohort whose table has handle `q_table`; a missing
    /// rate takes its default.
    pub fn new(
        id: u32,
        agent_type: String,
        state: State,
        learning_rate: Option<u32>,
        discount_factor: Option<u32>,
        exploration_rate: Option<u32>,
        q_table: usize,
    ) -> (r: SwarmAgent)
        ensures
            r.id == id,
            r.agent_type == agent_type,
            r.state == state,
            r.q_table == q_table,
            r.learning_rate == rate_or_spec(learning_rate, DEFAULT_LEARNING_RATE),
            r.discount_factor == rate_or_spec(discount_factor, DEFAULT_DISCOUNT_FACTOR),
            r.exploration_rate == rate_or_spec(exploration_rate, DEFAULT_EXPLORATION_RATE),
    {
        SwarmAgent {
            id,
            agent_type,
            state,
            q_table,
            learning_rate: rate_or(learning_rate, DEFAULT_LEARNING_RATE),
            discount_factor: rate_or(discount_factor, DEFAULT_DISCOUNT_FACTOR),
            exploration_rate: rate_or(exploration_rate, DEFAULT_EXPLORATION_RATE),
        }
    }

    pub fn get_unique_id(&self) -> (r: u32)
        ensures
            r == self.id,
    {
        self.id
    }

    pub fn get_type(&self) -> (r: &String)
        ensures
            r == self.agent_type,
    {
        &self.agent_type
    }

    pub fn get_state(&self) -> (r: &State)
        ensures
            r == self.state,
    {
        &self.state
    }

    /// Replaces the state and nothing else.
    pub fn set_state(&mut self, state: State)
        ensures
            *final(self) == (SwarmAgent { state, ..*old(self) }),
    {
        self.state = state;
    }

    /// The estimate for (`state`, `action`) in the shared table.
    pub fn get_q_value(&self, tables: &QTables, state: &State, action: u32) -> (r: u32)
        requires
            self.q_table < tables@.len(),
        ensures
            r == q_of(tables@[self.q_table as int], (state_model(state@), action)),
    {
        tables.get(self.q_table).get_q_value(state, action)
    }

    /// Sets the estimate for (`state`, `action`) in the shared table.
    pub fn set_q_value(&self, tables: &mut QTables, state: State, action: u32, value: u32)
        requires
            self.q_table < old(tables)@.len(),
        ensures
            final(tables)@ == old(tables)@.update(
                self.q_table as int,
                old(tables)@[self.q_table as int].insert((state_model(state@), action), value),
            ),
    {
        tables.set_q_value(self.q_table, state, action, value);
    }

    /// Epsilon-greedy action selection over the shared table (see
    /// [`LearningAgent::choose_action`]).
    pub fn choose_action(
        &self,
        tables: &QTables,
        state: &State,
        actions: &Vec<u32>,
        fallback: &Vec<u32>,
        draw: u32,
    ) -> (r: u32)
        requires
            self.q_table < tables@.len(),
            actions@.len() > 0 || fallback@.len() > 0,
        ensures
            choice_spec(
                tables@[self.q_table as int],
                self.exploration_rate,
                state_model(state@),
                actions@,
                fallback@,
                draw,
                r,
            ),
    {
        choose_from(tables.get(self.q_table), self.exploration_rate, state, actions, fallback, draw)
    }

    /// The Q-learning update of the shared table, through `rule` (see [`learn`]).
    pub fn update<F: Fn(u32, u32, u32, u32, u32) -> u32>(
        &self,
        tables: &mut QTables,
        state: &State,
        action: u32,
        reward: u32,
        next_state: &State,
        next_actions: &Vec<u32>,
        rule: &F,
    ) -> (r: u32)
        requires
            self.q_table < old(tables)@.len(),
            forall|o: u32, a: u32, g: u32, w: u32, f: u32| rule.requires((o, a, g, w, f)),
        ensures
            rule.ensures(
                (
                    q_of(old(tables)@[self.q_table as int], (state_model(state@), action)),
                    self.learning_rate,
                    self.discount_factor,
                    reward,
                    max_q(old(tables)@[self.q_table as int], state_model(next_state@), next_actions@),
                ),
                r,
            ),
            final(tables)@ == old(tables)@.update(
                self.q_table as int,
                old(tables)@[self.q_table as int].insert((state_model(state@), action), r),
            ),
    {
        let h = self.q_table;
        let old_q = tables.get(h).get_q_value(state, action);
        let future = tables.get(h).max_q_value(next_state, next_actions);
        let new_q = rule(old_q, self.learning_rate, self.discount_factor, reward, future);
        tables.set_q_value(h, copy_state(state), action, new_q);
        new_q
    }
}

/// An agent of either variant.
pub enum Agent {
    Learning(LearningAgent),
    Swarm(SwarmAgent),
}

impl Agent {
    pub open spec fn id(&self) -> u32 {
        match self {
            Agent::Learning(a) => a.id,
            Agent::Swarm(a) => a.id,
        }
    }

    pub open spec fn type_tag(&self) -> Seq<char> {
        match self {
            Agent::Learning(a) => a.agent_type@,
            Agent::Swarm(a) => a.agent_type@,
        }
    }

    pub open spec fn current_state(&self) -> State {
        match self {
            Agent::Learning(a) => a.state,
            Agent::Swarm(a) => a.state,
        }
    }

    pub open spec fn exploration(&self) -> u32 {
        match self {
            Agent::Learning(a) => a.exploration_rate,
            Agent::Swarm(a) => a.exploration_rate,
        }
    }

    pub open spec fn rates(&self) -> (u32, u32) {
        match self {
            Agent::Learning(a) => (a.learning_rate, a.discount_factor),
            Agent::Swarm(a) => (a.learning_rate, a.discount_factor),
        }
    }

    /// A swarm agent's handle names a table among `n`.
    pub open spec fn handle_ok(&self, n: nat) -> bool {
        match self {
            Agent::Learning(_) => true,
            Agent::Swarm(a) => a.q_table < n,
        }
    }

    /// The model of the table this agent reads and writes.
    pub open spec fn table_in(&self, tables: Seq<Map<QKey, u32>>) -> Map<QKey, u32> {
        match self {
            Agent::Learning(a) => a.table(),
            Agent::Swarm(a) => tables[a.q_table as int],
        }
    }

    /// The shared tables once this agent's table has become `t`.
    pub open spec fn tables_with(&self, tables: Seq<Map<QKey, u32>>, t: Map<QKey, u32>) -> Seq<
        Map<QKey, u32>,
    > {
        match self {
            Agent::Learning(_) => tables,
            Agent::Swarm(a) => tables.update(a.q_table as int, t),
        }
    }

    /// `b` is `a` but for the table an independent agent owns.
    pub open spec fn same_but_table(a: Agent, b: Agent) -> bool {
        match (a, b) {
            (Agent::Learning(x), Agent::Learning(y)) => x.id == y.id && x.agent_type == y.agent_type
                && x.state == y.state && x.learning_rate == y.learning_rate && x.discount_factor
                == y.discount_factor && x.exploration_rate == y.exploration_rate,
            (Agent::Swarm(x), Agent::Swarm(y)) => x == y,
            _ => false,
        }
    }

    /// `b` is `a` but for its state.
    pub open spec fn same_but_state(a: Agent, b: Agent) -> bool {
        match (a, b) {
            (Agent::Learning(x), Agent::Learning(y)) => y == (LearningAgent { state: y.state, ..x }),
            (Agent::Swarm(x), Agent::Swarm(y)) => y == (SwarmAgent { state: y.state, ..x }),
            _ => false,
        }
    }

    pub fn get_unique_id(&self) -> (r: u32)
        ensures
            r == self.id(),
    {
        match self {
            Agent::Learning(a) => a.get_unique_id(),
            Agent::Swarm(a) => a.get_unique_id(),
        }
    }

    pub fn get_type(&self) -> (r: &String)
        ensures
            r@ == self.type_tag(),
    {
        match self {
            Agent::Learning(a) => a.get_type(),
            Agent::Swarm(a) => a.get_type(),
        }
    }

    pub fn get_state(&self) -> (r: &State)
        ensures
            r == self.current_state(),
    {
        match self {
            Agent::Learning(a) => a.get_state(),
            Agent::Swarm(a) => a.get_state(),
        }
    }

    /// Replaces the state and nothing else.
    pub fn set_state(&mut self, state: State)
        ensures
            final(self).current_state() == state,
            Agent::same_but_state(*old(self), *final(self)),
    {
        match self {
            Agent::Learning(a) => a.set_state(state),
            Agent::Swarm(a) => a.set_state(state),
        }
    }

    /// The estimate for (`state`, `action`) in this agent's table.
    pub fn get_q_value(&self, tables: &QTables, state: &State, action: u32) -> (r: u32)
        requires
            self.handle_ok(tables@.len()),
        ensures
            r == q_of(self.table_in(tables@), (state_model(state@), action)),
    {
        match self {
            Agent::Learning(a) => a.get_q_value(state, action),
            Agent::Swarm(a) => a.get_q_value(tables, state, action),
        }
    }

    /// Sets the estimate for (`state`, `action`) in this agent's table.
    pub fn set_q_value(&mut self, tables: &mut QTables, state: State, action: u32, value: u32)
        requires
            old(self).handle_ok(old(tables)@.len()),
        ensures
            Agent::same_but_table(*old(self), *final(self)),
            final(self).table_in(final(tables)@) == old(self).table_in(old(tables)@).insert(
                (state_model(state@), action),
                value,
            ),
            final(tables)@ == old(self).tables_with(
                old(tables)@,
                final(self).table_in(final(tables)@),
            ),
    {
        match self {
            Agent::Learning(a) => a.set_q_value(state, action, value),
            Agent::Swarm(a) => a.set_q_value(tables, state, action, value),
        }
    }

    /// Epsilon-greedy action selection over this agent's table.
    pub fn choose_action(
        &self,
        tables: &QTables,
        state: &State,
        actions: &Vec<u32>,
        fallback: &Vec<u32>,
        draw: u32,
    ) -> (r: u32)
        requires
            self.handle_ok(tables@.len()),
            actions@.len() > 0 || fallback@.len() > 0,
        ensures
            choice_spec(
                self.table_in(tables@),
                self.exploration(),
                state_model(state@),
                actions@,
                fallback@,
                draw,
                r,
            ),
    {
        match self {
            Agent::Learning(a) => a.choose_action(state, actions, fallback, draw),
            Agent::Swarm(a) => a.choose_action(tables, state, actions, fallback, draw),
        }
    }

    /// The Q-learning update of this agent's table, through `rule` (see [`learn`]).
    pub fn update<F: Fn(u32, u32, u32, u32, u32) -> u32>(
        &mut self,
        tables: &mut QTables,
        state: &State,
        action: u32,
        reward: u32,
        next_state: &State,
        next_actions: &Vec<u32>,
        rule: &F,
    ) -> (r: u32)
        requires
            old(self).handle_ok(old(tables)@.len()),
            forall|o: u32, a: u32, g: u32, w: u32, f: u32| rule.requires((o, a, g, w, f)),
        ensures
            rule.ensures(
                (
                    q_of(old(self).table_in(old(tables)@), (state_model(state@), action)),
                    old(self).rates().0,
                    old(self).rates().1,
                    reward,
                    max_q(old(self).table_in(old(tables)@), state_model(next_state@), next_actions@),
                ),
                r,
            ),
            Agent::same_but_table(*old(self), *final(self)),
            final(self).table_in(final(tables)@) == old(self).table_in(old(tables)@).insert(
                (state_model(state@), action),
                r,
            ),
            final(tables)@ == old(self).tables_with(
                old(tables)@,
                final(self).table_in(final(tables)@),
            ),
    {
        match self {
            Agent::Learning(a) => a.update(state, action, reward, next_state, next_actions, rule),
            Agent::Swarm(a) => a.update(tables, state, action, reward, next_state, next_actions, rule),
        }
    }
}

/// The rate given, or `default` when none is.
pub open spec fn rate_or_spec(rate: Option<u32>, default: u32) -> u32 {
    match rate {
        Some(x) => x,
        None => default,
    }
}

} // verus!
