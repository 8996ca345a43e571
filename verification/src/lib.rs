//! An interactive shell-history fuzzy finder: a scoring engine that ranks
//! history lines against a typed query, a completions store that biases the
//! ranking toward lines chosen before in the same directory, an input decoder,
//! a terminfo-driven renderer, and the event-loop state machine that ties them
//! together.

pub mod chars;
pub mod constants;
pub mod error;
pub mod event_loop;
pub mod events;
pub mod history;
pub mod latch;
pub mod ringvec;
pub mod completions;
pub mod search;
pub mod strutil;
pub mod terminal;
pub mod ui;
