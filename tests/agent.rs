use masim::agent::{
    choice_set, float_less, Agent, LearningAgent, SwarmAgent, DEFAULT_DISCOUNT_FACTOR,
    DEFAULT_EXPLORATION_RATE, DEFAULT_LEARNING_RATE,
};
use masim::qtable::{order_key_of, Q, QTable, QTables};
use masim::value::{State, Value};

const EAT: u32 = 0;
const MOVE: u32 = 1;
const DANCE: u32 = 2;
const SING: u32 = 3;
const ACTIONS: [u32; 4] = [EAT, MOVE, DANCE, SING];

fn f(x: f32) -> u32 {
    x.to_bits()
}

/// The Q-learning rule on bit patterns: old + alpha * (reward + gamma * future - old).
fn q_rule(old: u32, alpha: u32, gamma: u32, reward: u32, future: u32) -> u32 {
    let (old, alpha, gamma, reward, future) = (
        f32::from_bits(old),
        f32::from_bits(alpha),
        f32::from_bits(gamma),
        f32::from_bits(reward),
        f32::from_bits(future),
    );
    (old + alpha * (reward + gamma * future - old)).to_bits()
}

fn default_state() -> State {
    // example: [energy, day_lived, bald]
    vec![Value::VI32(4), Value::VU32(23456), Value::VBool(false)]
}

#[test]
fn learning_agent_choosing_action() {
    let agent_type = "wolf";
    let default_state = default_state();
    let mut agent = LearningAgent::new(
        0,
        agent_type.to_string(),
        default_state.clone(),
        None,
        None,
        Some(f(0.)),
        );
    let actions = Vec::from(ACTIONS);
    let draw = f(0.5);

    agent.set_q_value(default_state.clone(), EAT, f(0.));
    agent.set_q_value(default_state.clone(), MOVE, f(1.));
    agent.set_q_value(default_state.clone(), DANCE, f(2.));
    agent.set_q_value(default_state.clone(), SING, f(3.));

    assert_eq!(agent.choose_action(&default_state, &actions, &actions, draw), SING);
    // A state the table has never seen: every action ties at 0.0, so SING is
    // not forced and any of the four may come.
    let unseen = choice_set(agent.q_table(), f(0.), &vec![Value::VBool(true)], &actions, &actions, draw);
    assert_eq!(unseen, actions);

    agent.set_q_value(default_state.clone(), EAT, f(4.));

    assert_eq!(agent.choose_action(&default_state, &actions, &actions, draw), EAT);
    let unseen = choice_set(agent.q_table(), f(0.), &vec![Value::VBool(false)], &actions, &actions, draw);
    assert_eq!(unseen, actions);

    agent.set_q_value(default_state.clone(), MOVE, f(4.));

    let mut count_eat = 0;
    let mut count_move = 0;

    for _ in 0..1000 {
        let result = agent.choose_action(&default_state, &actions, &actions, draw);

        match result {
            EAT => count_eat += 1,
            MOVE => count_move += 1,
            _ => panic!("The result must be either eat or move"),
        }
        assert!(result.eq(&EAT) || result.eq(&MOVE));
    }

    // Can technically be false but statistically improbable
    assert!(count_eat > 0);
    assert!(count_move > 0);
}

#[test]
fn swarm_agent_choosing_action() {
    let agent_type = "ant";
    let default_state = default_state();
    let mut tables = QTables::new();
    let handle = tables.add(QTable::new());
    let agent = SwarmAgent::new(
        0,
        agent_type.to_string(),
        default_state.clone(),
        None,
        None,
        Some(f(0.)),
        handle,
    );
    let actions = Vec::from(ACTIONS);
    let draw = f(0.5);

    agent.set_q_value(&mut tables, default_state.clone(), EAT, f(0.));
    agent.set_q_value(&mut tables, default_state.clone(), MOVE, f(1.));
    agent.set_q_value(&mut tables, default_state.clone(), DANCE, f(2.));
    agent.set_q_value(&mut tables, default_state.clone(), SING, f(3.));

    assert_eq!(agent.choose_action(&tables, &default_state, &actions, &actions, draw), SING);
    let unseen = choice_set(tables.get(handle), f(0.), &vec![Value::VBool(true)], &actions, &actions, draw);
    assert_eq!(unseen, actions);

    agent.set_q_value(&mut tables, default_state.clone(), EAT, f(4.));

    assert_eq!(agent.choose_action(&tables, &default_state, &actions, &actions, draw), EAT);
    let unseen = choice_set(tables.get(handle), f(0.), &vec![Value::VBool(false)], &actions, &actions, draw);
    assert_eq!(unseen, actions);

    agent.set_q_value(&mut tables, default_state.clone(), MOVE, f(4.));

    let mut count_eat = 0;
    let mut count_move = 0;

    for _ in 0..1000 {
        let result = agent.choose_action(&tables, &default_state, &actions, &actions, draw);

        match result {
            EAT => count_eat += 1,
            MOVE => count_move += 1,
            _ => panic!("The result must be either eat or move"),
        }
        assert!(result.eq(&EAT) || result.eq(&MOVE));
    }

    // Can technically be false but statistically improbable
    assert!(count_eat > 0);
    assert!(count_move > 0);
}

#[test]
fn update_formula_example() {
    let s: State = vec![Value::VI32(1)];
    let next: State = vec![Value::VI32(2)];
    let mut agent = LearningAgent::new(1, "wolf".to_string(), s.clone(), None, None, None);
    assert_eq!(agent.learning_rate, f(0.1));
    assert_eq!(agent.discount_factor, f(0.9));
    agent.set_q_value(next.clone(), MOVE, f(10.0));
    agent.set_q_value(next.clone(), EAT, f(-3.0));
    let stored = agent.update(&s, SING, f(5.0), &next, &vec![EAT, MOVE], &q_rule);
    let expected = 0.0f32 + 0.1 * (5.0 + 0.9 * 10.0 - 0.0);
    assert!((f32::from_bits(stored) - 1.4).abs() < 1e-6);
    assert_eq!(stored, expected.to_bits());
    assert_eq!(agent.get_q_value(&s, SING), stored);
}

#[test]
fn update_with_no_next_actions_uses_zero_future() {
    let s: State = vec![Value::VI32(1)];
    let mut agent = LearningAgent::new(1, "wolf".to_string(), s.clone(), Some(f(0.5)), Some(f(1.0)), None);
    agent.set_q_value(s.clone(), EAT, f(2.0));
    let stored = agent.update(&s, EAT, f(4.0), &s, &Vec::new(), &q_rule);
    // 2 + 0.5 * (4 + 1 * 0 - 2) = 3
    assert_eq!(f32::from_bits(stored), 3.0);
}

#[test]
fn future_is_the_largest_candidate_even_when_missing_is_larger() {
    // Missing entries count as 0.0, so 0.0 beats the stored -5.0.
    let s: State = vec![Value::VBool(true)];
    let mut table = QTable::new();
    table.set_q_value(s.clone(), EAT, f(-5.0));
    assert_eq!(table.max_q_value(&s, &vec![EAT, MOVE]), f(0.0));
    assert_eq!(table.max_q_value(&s, &vec![EAT]), f(-5.0));
    assert_eq!(table.max_q_value(&s, &Vec::new()), 0);
}

#[test]
fn default_rates() {
    let a = LearningAgent::new(3, "sheep".to_string(), Vec::new(), None, None, None);
    assert_eq!(a.learning_rate, DEFAULT_LEARNING_RATE);
    assert_eq!(f32::from_bits(DEFAULT_LEARNING_RATE), 0.1);
    assert_eq!(f32::from_bits(DEFAULT_DISCOUNT_FACTOR), 0.9);
    assert_eq!(f32::from_bits(DEFAULT_EXPLORATION_RATE), 0.2);
    assert_eq!(a.exploration_rate, DEFAULT_EXPLORATION_RATE);
    assert_eq!(a.get_unique_id(), 3);
    assert_eq!(a.get_type(), "sheep");
}

#[test]
fn greedy_pick_is_deterministic() {
    let s = default_state();
    let mut agent = LearningAgent::new(0, "wolf".to_string(), s.clone(), None, None, Some(f(0.0)));
    agent.set_q_value(s.clone(), EAT, f(1.0));
    agent.set_q_value(s.clone(), MOVE, f(-2.0));
    agent.set_q_value(s.clone(), DANCE, f(7.5));
    agent.set_q_value(s.clone(), SING, f(7.25));
    let actions = Vec::from(ACTIONS);
    for i in 0..200 {
        let draw = f((i as f32) / 200.0);
        assert_eq!(agent.choose_action(&s, &actions, &actions, draw), DANCE);
    }
}

#[test]
fn exploration_returns_every_candidate() {
    let s = default_state();
    let mut agent = LearningAgent::new(0, "wolf".to_string(), s.clone(), None, None, Some(f(1.0)));
    agent.set_q_value(s.clone(), EAT, f(9.0));
    let actions = vec![EAT, MOVE];
    let (mut a, mut b) = (0, 0);
    for i in 0..1000 {
        let draw = f((i as f32) / 1000.0);
        match agent.choose_action(&s, &actions, &actions, draw) {
            EAT => a += 1,
            MOVE => b += 1,
            _ => panic!("only candidates may be returned"),
        }
    }
    assert!(a > 0 && b > 0);
}

#[test]
fn empty_table_explores_even_with_zero_rate() {
    let s = default_state();
    let agent = LearningAgent::new(0, "wolf".to_string(), s.clone(), None, None, Some(f(0.0)));
    let actions = vec![EAT, MOVE];
    let set = choice_set(agent.q_table(), f(0.0), &s, &actions, &actions, f(0.9));
    assert_eq!(set, actions);
    let (mut a, mut b) = (0, 0);
    for _ in 0..1000 {
        match agent.choose_action(&s, &actions, &actions, f(0.9)) {
            EAT => a += 1,
            MOVE => b += 1,
            _ => panic!("only candidates may be returned"),
        }
    }
    assert!(a > 0 && b > 0);
}

#[test]
fn no_candidates_falls_back_to_full_action_set() {
    let s = default_state();
    let mut agent = LearningAgent::new(0, "wolf".to_string(), s.clone(), None, None, Some(f(0.0)));
    agent.set_q_value(s.clone(), SING, f(1.0));
    let all = Vec::from(ACTIONS);
    assert_eq!(agent.choose_action(&s, &Vec::new(), &all, f(0.3)), SING);
    let set = choice_set(agent.q_table(), f(1.0), &s, &Vec::new(), &all, f(0.3));
    assert_eq!(set, all);
}

#[test]
fn greedy_set_keeps_ties_in_candidate_order() {
    let s = default_state();
    let mut table = QTable::new();
    table.set_q_value(s.clone(), SING, f(2.0));
    table.set_q_value(s.clone(), MOVE, f(2.0));
    table.set_q_value(s.clone(), EAT, f(1.0));
    assert_eq!(table.best_actions(&s, &Vec::from(ACTIONS)), vec![MOVE, SING]);
    // With all stored estimates negative, the missing one (0.0) wins.
    let mut neg = QTable::new();
    neg.set_q_value(s.clone(), EAT, f(-1.0));
    assert_eq!(neg.best_actions(&s, &vec![EAT, MOVE]), vec![MOVE]);
    assert_eq!(neg.best_actions(&s, &Vec::new()), Vec::<u32>::new());
}

#[test]
fn table_lookup_defaults_and_overwrites() {
    let s = default_state();
    let mut t = QTable::new();
    assert!(t.is_empty());
    assert_eq!(t.get_q_value(&s, EAT), 0);
    t.set_q_value(s.clone(), EAT, f(1.5));
    t.set_q_value(s.clone(), EAT, f(2.5));
    assert!(!t.is_empty());
    assert_eq!(t.get_q_value(&s, EAT), f(2.5));
    assert_eq!(t.get_q_value(&s, MOVE), 0);
    assert_eq!(t.get_q_value(&vec![Value::VI32(4)], EAT), 0);
    assert_eq!(t.to_entries().len(), 1);
}

#[test]
fn table_entries_round_trip() {
    let s1 = default_state();
    let s2: State = vec![Value::VString("x".to_string()), Value::VVec(vec![Value::VU32(1)])];
    let mut t = QTable::new();
    t.set_q_value(s1.clone(), EAT, f(1.0));
    t.set_q_value(s2.clone(), MOVE, f(-2.0));
    t.set_q_value(s1.clone(), SING, f(3.0));
    let back = QTable::from_entries(&t.to_entries());
    for s in [&s1, &s2] {
        for a in ACTIONS {
            assert_eq!(back.get_q_value(s, a), t.get_q_value(s, a));
        }
    }
    assert_eq!(back.to_entries().len(), 3);
    // A later entry for a key overrides an earlier one.
    let dup = vec![
        (Q { state: s1.clone(), action: EAT }, f(1.0)),
        (Q { state: s1.clone(), action: EAT }, f(8.0)),
    ];
    let t2 = QTable::from_entries(&dup);
    assert_eq!(t2.get_q_value(&s1, EAT), f(8.0));
    assert_eq!(t2.to_entries().len(), 1);
}

#[test]
fn swarm_members_share_one_table() {
    let s = default_state();
    let mut tables = QTables::new();
    let h = tables.add(QTable::new());
    let other = tables.add(QTable::new());
    let a = SwarmAgent::new(1, "ant".to_string(), s.clone(), None, None, None, h);
    let b = SwarmAgent::new(2, "ant".to_string(), s.clone(), None, None, None, h);
    a.set_q_value(&mut tables, s.clone(), EAT, f(6.0));
    assert_eq!(b.get_q_value(&tables, &s, EAT), f(6.0));
    assert_eq!(tables.get(other).get_q_value(&s, EAT), 0);
    let r = b.update(&mut tables, &s, EAT, f(1.0), &s, &vec![EAT], &q_rule);
    assert_eq!(a.get_q_value(&tables, &s, EAT), r);
    let mut agent = Agent::Swarm(a);
    agent.set_state(vec![Value::VBool(true)]);
    assert_eq!(agent.get_state(), &vec![Value::VBool(true)]);
    assert_eq!(agent.get_unique_id(), 1);
    assert_eq!(agent.get_q_value(&tables, &s, EAT), r);
}

#[test]
fn agent_sum_type_dispatches() {
    let s = default_state();
    let mut tables = QTables::new();
    let mut agent = Agent::Learning(LearningAgent::new(5, "wolf".to_string(), s.clone(), None, None, Some(f(0.0))));
    agent.set_q_value(&mut tables, s.clone(), MOVE, f(3.0));
    assert_eq!(tables.len(), 0);
    assert_eq!(agent.get_q_value(&tables, &s, MOVE), f(3.0));
    assert_eq!(agent.choose_action(&tables, &s, &Vec::from(ACTIONS), &Vec::new(), f(0.1)), MOVE);
    assert_eq!(agent.get_type(), "wolf");
    let r = agent.update(&mut tables, &s, MOVE, f(0.0), &s, &vec![MOVE], &q_rule);
    // 3 + 0.1 * (0 + 0.9 * 3 - 3) = 2.97
    assert!((f32::from_bits(r) - 2.97).abs() < 1e-6);
}

#[test]
fn float_order_on_bit_patterns() {
    assert!(float_less(f(0.1), f(0.2)));
    assert!(!float_less(f(0.2), f(0.2)));
    assert!(float_less(f(-1.0), f(0.0)));
    assert!(!float_less(f(-0.0), f(0.0)));
    assert!(!float_less(f(0.0), f(-0.0)));
    assert!(!float_less(f(f32::NAN), f(1.0)));
    assert!(!float_less(f(1.0), f(f32::NAN)));
    assert!(float_less(f(f32::NEG_INFINITY), f(-3.0e38)));
    assert!(order_key_of(f(-0.0)) < order_key_of(f(0.0)));
    assert!(order_key_of(f(-2.0)) < order_key_of(f(-1.0)));
    assert!(order_key_of(f(1.0)) < order_key_of(f(1.5)));
}
