use std::collections::HashMap;

use masim::environment::{cell_key_of, Env, GridSize, Position};
use masim::qtable::QTable;
use masim::scheduler::Scheduler;
use masim::value::{State, Value};

const UP: u32 = 0;
const DOWN: u32 = 1;

fn f(x: f32) -> u32 {
    x.to_bits()
}

fn q_rule(old: u32, alpha: u32, gamma: u32, reward: u32, future: u32) -> u32 {
    let (old, alpha, gamma, reward, future) = (
        f32::from_bits(old),
        f32::from_bits(alpha),
        f32::from_bits(gamma),
        f32::from_bits(reward),
        f32::from_bits(future),
    );
    (old + alpha * (reward + gamma * future - old)).to_bits()
}

fn env(width: usize, heigth: usize) -> Env<u32> {
    Env::new(GridSize { width, heigth }, Vec::new(), vec![UP, DOWN], HashMap::new())
}

/// Every registered agent is in exactly one bucket, of its type, and every
/// bucket id is a registered agent of that type.
fn assert_consistent(s: &Scheduler<u32>) {
    let agents = s.agents();
    let buckets = s.agents_per_types();
    for (_, _, a) in agents.iter() {
        let holding: Vec<_> = buckets.iter().filter(|(_, ids)| ids.contains(&a.get_unique_id())).collect();
        assert_eq!(holding.len(), 1);
        assert_eq!(&holding[0].0, a.get_type());
    }
    for (tag, ids) in buckets.iter() {
        for id in ids {
            let owners: Vec<_> = agents.iter().filter(|(_, _, a)| a.get_unique_id() == *id).collect();
            assert_eq!(owners.len(), 1);
            assert_eq!(owners[0].2.get_type(), tag);
        }
        let mut sorted = ids.clone();
        sorted.sort();
        sorted.dedup();
        assert_eq!(sorted.len(), ids.len());
    }
}

/// One tick, driven as the scheduler expects: from the last agent to the
/// first, with a transition that moves up and is done when y reaches 0.
fn tick(s: &mut Scheduler<u32>) -> Vec<u32> {
    let mut retired = Vec::new();
    let mut i = s.agents().len();
    while i > 0 {
        i -= 1;
        let action = s.choose_action_for(i, f(0.5));
        let (pos, _, agent) = &s.agents()[i];
        let new_pos = Position { x: pos.x, y: pos.y - 1 };
        let id = agent.get_unique_id();
        let done = new_pos.y <= 0;
        let next: State = vec![Value::VI32(new_pos.y)];
        s.step_agent(i, action, new_pos, next, f(if done { 1.0 } else { -0.1 }), &q_rule);
        if done {
            s.retire(i);
            retired.push(id);
        }
    }
    retired
}

#[test]
fn ids_start_at_one_and_increase() {
    let mut s = Scheduler::new(env(10, 10));
    s.add_agents(3, Some(Position { x: 1, y: 1 }), 7, "wolf", Vec::new(), None, None, None, &QTable::new());
    let ids: Vec<u32> = s.agents().iter().map(|(_, _, a)| a.get_unique_id()).collect();
    assert_eq!(ids, vec![1, 2, 3]);
    assert!(s.agents().iter().all(|(p, c, _)| *p == Position { x: 1, y: 1 } && *c == 7));
    assert_consistent(&s);
}

#[test]
fn random_positions_are_on_the_grid() {
    let mut s = Scheduler::new(env(3, 2));
    s.add_agents(200, None, 0, "sheep", Vec::new(), None, None, None, &QTable::new());
    for (p, _, _) in s.agents().iter() {
        assert!(s.env().position_inbound(*p));
        assert!(p.x >= 0 && p.x < 3 && p.y >= 0 && p.y < 2);
    }
    // Every column is reached at some point.
    for x in 0..3 {
        assert!(s.agents().iter().any(|(p, _, _)| p.x == x));
    }
}

#[test]
fn buckets_group_by_type() {
    let mut s = Scheduler::new(env(10, 10));
    let h = s.add_q_table(QTable::new());
    s.add_agents(2, None, 1, "wolf", Vec::new(), None, None, None, &QTable::new());
    s.add_swarming_agents(3, None, 2, "ant", Vec::new(), None, None, None, h);
    s.add_agents(1, None, 1, "wolf", Vec::new(), None, None, None, &QTable::new());
    let buckets = s.agents_per_types();
    assert_eq!(buckets.len(), 2);
    assert_eq!(buckets[0], ("wolf".to_string(), vec![1, 2, 6]));
    assert_eq!(buckets[1], ("ant".to_string(), vec![3, 4, 5]));
    assert_consistent(&s);
}

#[test]
fn retired_agents_leave_every_index() {
    let mut s = Scheduler::new(env(10, 10));
    s.add_agents(2, Some(Position { x: 0, y: 1 }), 0, "wolf", vec![Value::VI32(1)], None, None, None, &QTable::new());
    s.add_agents(2, Some(Position { x: 0, y: 5 }), 0, "wolf", vec![Value::VI32(5)], None, None, None, &QTable::new());
    let retired = tick(&mut s);
    assert_eq!(retired, vec![2, 1]);
    assert_eq!(s.agents().len(), 2);
    for id in &retired {
        assert!(s.find_agent(*id).is_none());
        assert!(s.agents_per_types().iter().all(|(_, ids)| !ids.contains(id)));
    }
    assert_consistent(&s);
    // Ids are never given again.
    s.add_agents(1, None, 0, "wolf", Vec::new(), None, None, None, &QTable::new());
    let last = s.agents().last().unwrap().2.get_unique_id();
    assert_eq!(last, 5);
    assert!(!retired.contains(&last));
}

#[test]
fn registry_stays_consistent_over_a_run() {
    let mut s = Scheduler::new(env(8, 8));
    let h = s.add_q_table(QTable::new());
    s.add_agents(3, Some(Position { x: 2, y: 3 }), 0, "wolf", Vec::new(), None, None, None, &QTable::new());
    s.add_swarming_agents(4, Some(Position { x: 1, y: 6 }), 1, "ant", Vec::new(), None, None, None, h);
    assert_consistent(&s);
    let mut all_retired = Vec::new();
    for round in 0..8 {
        all_retired.extend(tick(&mut s));
        assert_consistent(&s);
        if round == 2 {
            s.add_agents(2, Some(Position { x: 0, y: 2 }), 0, "sheep", Vec::new(), None, None, None, &QTable::new());
            assert_consistent(&s);
        }
    }
    assert!(s.agents().is_empty());
    assert_eq!(all_retired.len(), 9);
    let mut sorted = all_retired.clone();
    sorted.sort();
    assert_eq!(sorted, (1..=9).collect::<Vec<u32>>());
    // Buckets stay, empty.
    assert!(s.agents_per_types().iter().all(|(_, ids)| ids.is_empty()));
}

#[test]
fn step_commits_state_position_and_estimate() {
    let mut s = Scheduler::new(env(10, 10));
    let start: State = vec![Value::VI32(5)];
    s.add_agents(1, Some(Position { x: 3, y: 5 }), 0, "wolf", start.clone(), Some(f(0.5)), Some(f(0.0)), Some(f(0.0)), &QTable::new());
    let next: State = vec![Value::VI32(4)];
    let stored = s.step_agent(0, DOWN, Position { x: 3, y: 4 }, next.clone(), f(2.0), &q_rule);
    assert_eq!(f32::from_bits(stored), 1.0);
    let (pos, _, agent) = &s.agents()[0];
    assert_eq!(*pos, Position { x: 3, y: 4 });
    assert_eq!(agent.get_state(), &next);
    assert_eq!(agent.get_q_value(s.q_tables(), &start, DOWN), stored);
    // The agent now prefers DOWN in its old state.
    assert_eq!(s.agents()[0].2.choose_action(s.q_tables(), &start, &vec![UP, DOWN], &Vec::new(), f(0.5)), DOWN);
}

#[test]
fn swarm_steps_write_the_shared_table() {
    let mut s = Scheduler::new(env(10, 10));
    let h = s.add_q_table(QTable::new());
    let st: State = vec![Value::VBool(true)];
    s.add_swarming_agents(2, Some(Position { x: 0, y: 0 }), 0, "ant", st.clone(), None, None, Some(f(0.0)), h);
    let stored = s.step_agent(0, UP, Position { x: 0, y: 0 }, st.clone(), f(10.0), &q_rule);
    assert_eq!(s.q_tables().get(h).get_q_value(&st, UP), stored);
    assert_eq!(s.agents()[1].2.get_q_value(s.q_tables(), &st, UP), stored);
    assert_eq!(s.choose_action_for(1, f(0.9)), UP);
}

#[test]
fn initial_table_is_copied_into_each_agent() {
    let mut s = Scheduler::new(env(10, 10));
    let st: State = vec![Value::VI32(0)];
    let mut t = QTable::new();
    t.set_q_value(st.clone(), DOWN, f(4.0));
    s.add_agents(2, None, 0, "wolf", st.clone(), None, None, None, &t);
    s.step_agent(0, DOWN, Position { x: 0, y: 0 }, st.clone(), f(0.0), &q_rule);
    assert_ne!(s.agents()[0].2.get_q_value(s.q_tables(), &st, DOWN), f(4.0));
    assert_eq!(s.agents()[1].2.get_q_value(s.q_tables(), &st, DOWN), f(4.0));
}

#[test]
fn environment_bounds_and_persistent_elements() {
    let mut e: Env<u32> = Env::new(
        GridSize { width: 4, heigth: 3 },
        vec![(Position { x: 1, y: 1 }, 9), (Position { x: 1, y: 1 }, 8)],
        vec![UP],
        HashMap::new(),
    );
    assert_eq!(e.get_width(), 4);
    assert_eq!(e.get_heigth(), 3);
    assert!(e.position_inbound(Position { x: 3, y: 2 }));
    assert!(!e.position_inbound(Position { x: 4, y: 0 }));
    assert!(!e.position_inbound(Position { x: 0, y: 3 }));
    assert!(!e.position_inbound(Position { x: -1, y: 0 }));
    assert_eq!(e.persistent_element_at(Position { x: 1, y: 1 }), Some(&8));
    e.update_persistent_element(Position { x: 2, y: 0 }, 5);
    e.move_persistent_element(Position { x: 2, y: 0 }, Position { x: 3, y: 2 });
    assert_eq!(e.persistent_element_at(Position { x: 2, y: 0 }), None);
    assert_eq!(e.persistent_element_at(Position { x: 3, y: 2 }), Some(&5));
    e.move_persistent_element(Position { x: 0, y: 0 }, Position { x: 1, y: 1 });
    assert_eq!(e.persistent_element_at(Position { x: 1, y: 1 }), Some(&8));
    assert_eq!(e.persistent_elements.len(), 2);
    for _ in 0..100 {
        let p = e.get_random_position();
        assert!(e.position_inbound(p));
    }
}

#[test]
fn cell_keys_tell_cells_apart() {
    let cells = [
        Position { x: 0, y: 0 },
        Position { x: 0, y: 1 },
        Position { x: 1, y: 0 },
        Position { x: -1, y: 0 },
        Position { x: 0, y: -1 },
    ];
    let keys: Vec<u64> = cells.iter().map(|p| cell_key_of(*p)).collect();
    for i in 0..keys.len() {
        for j in 0..keys.len() {
            assert_eq!(i == j, keys[i] == keys[j]);
        }
    }
    assert_eq!(cell_key_of(Position { x: 1, y: 2 }), (1u64 << 32) + 2);
}

#[test]
fn positions_tables_and_representatives() {
    let mut s = Scheduler::new(env(10, 10));
    let h = s.add_q_table(QTable::new());
    let st: State = vec![Value::VI32(1)];
    s.add_agents(2, Some(Position { x: 1, y: 2 }), 4, "wolf", st.clone(), None, None, None, &QTable::new());
    s.add_swarming_agents(2, Some(Position { x: 3, y: 4 }), 5, "ant", st.clone(), None, None, None, h);
    assert_eq!(
        s.agent_positions(),
        vec![
            (Position { x: 1, y: 2 }, 4),
            (Position { x: 1, y: 2 }, 4),
            (Position { x: 3, y: 4 }, 5),
            (Position { x: 3, y: 4 }, 5),
        ]
    );
    s.step_agent(3, UP, Position { x: 3, y: 3 }, st.clone(), f(1.0), &q_rule);
    assert_eq!(s.table_of(2).get_q_value(&st, UP), s.q_tables().get(h).get_q_value(&st, UP));
    assert_ne!(s.table_of(2).get_q_value(&st, UP), 0);
    assert_eq!(s.table_of(0).get_q_value(&st, UP), 0);
    // Retiring the first wolf makes the second one the representative.
    s.retire(0);
    let reps = s.representatives();
    assert_eq!(reps, vec![("wolf".to_string(), 0), ("ant".to_string(), 1)]);
    assert_eq!(s.agents()[0].2.get_unique_id(), 2);
    s.retire(0);
    let reps = s.representatives();
    assert_eq!(reps, vec![("ant".to_string(), 0)]);
}
