//! A reinforcement-learning simulation engine: grid-bound agents learn by
//! tabular Q-learning, driven by a scheduler that owns their registry.
pub mod value;
pub mod qtable;
pub mod agent;
pub mod environment;
pub mod scheduler;
