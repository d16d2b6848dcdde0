//! Dining philosophers: a ring of forks shared by neighbouring seats, the
//! parity rule that fixes in which order each seat takes its two forks, the
//! life cycle of one philosopher as a step machine, and the harness checks
//! that a run of the whole table must pass.

pub mod agent;
pub mod harness;
pub mod narration;
pub mod pool;

pub use agent::{Action, Phase, Philosopher};
pub use harness::{check_completion, prepare_table, RunError, ITERATIONS, PHILOSOPHERS};
pub use narration::{eating_line, thinking_line};
pub use pool::{Fork, ForkPool};
