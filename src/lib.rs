//! A deadlock-free dining-philosophers simulator.
//!
//! Philosophers (actors) contend for forks (exclusive resources). Every
//! philosopher picks up the lower-numbered of its two forks first, which rules
//! out a circular wait. The crate holds the verified protocol: the fork pool,
//! the seating of philosophers from a topology, the acquisition order, a
//! step-by-step model of the whole table with its safety and progress laws,
//! an audit of recorded event logs, and the fan-in of per-philosopher results
//! of a concurrent run.
//!
//! A few list and value helpers (`etl`, `fruit`, `text`) sit beside it.

mod etl;
mod events;
mod fork;
mod fruit;
mod harness;
mod philosopher;
mod table;
mod text;
mod topology;

pub use etl::{extract_transform_load, transform_value, CleanData, RawData};
pub use events::Event;
pub use fork::{Fork, ForkPool, SimError};
pub use fruit::{remove_all_fruits_manual, remove_all_fruits_retain, remove_at, remove_fruit};
pub use harness::{check_events, gather, on_busy, MealRecord, RunReport};
pub use philosopher::Philosopher;
pub use table::{simulate, Report, Stage, Table};
pub use text::{longest, Fighter};
pub use topology::{ring_seating, ring_topology, seat_philosophers, Seat};
