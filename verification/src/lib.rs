//! A verified engine for an N-in-a-row board game together with the
//! self-play machinery used to train an automated player: board and win-run
//! detection, coordinate parsing and formatting, the turn state machine,
//! replay generation with reward shaping, a bounded experience-replay buffer,
//! and the training orchestration loop.

pub mod board;
pub mod game;
pub mod index_parser;
pub mod replay;
pub mod replay_buffer;
pub mod trainer;
mod rng;
