//! Verified core of a network reachability monitor.
//!
//! The crate tracks, per monitored host, a bounded history of echo-probe
//! outcomes together with lifetime counters, and derives loss percentages,
//! a round-trip-time summary and a connection-quality classification from
//! them.  It also holds the probing state machine that decides, per tick,
//! what a prober does next, the address-literal parsing used at setup, and
//! the derivation of stable host identifiers.
//!
//! All durations are carried as whole microseconds and timestamps as
//! microseconds since an origin chosen by the caller; the unverified shell
//! around this crate converts wall-clock values at the boundary.

pub mod config;
pub mod ping;
pub mod prober;
pub mod resolve;
pub mod stats;
