//! Decisions of the conversational agent that do not depend on the model
//! client: how provider errors are classified and explained, how chart
//! markers are replayed into history, endpoint normalisation, and the leave
//! request date arithmetic.

pub mod runner;
pub mod submit_leave;
pub mod config;
pub mod turns;
pub mod stream;
pub mod confirm;
