//! A verified model of a ring of philosophers competing for shared forks.
//!
//! `N` actors sit in a ring with `N` mutually exclusive resources (forks)
//! between them; actor `i` needs forks `i` and `(i + 1) % N` at the same
//! time to eat. The acquisition protocol never blocks while holding a fork:
//! an actor that cannot obtain both forks releases whatever it picked up
//! and backs off before retrying. Each completed cycle emits one event into
//! a single aggregated stream that preserves per-actor emission order.

pub mod event;
pub mod philosopher;
pub mod table;
pub mod sim;
