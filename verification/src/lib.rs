//! Core of a tablet-input daemon: a canonical event model, a per-device
//! router that tags events for an on-screen-display session without ever
//! dropping them, a dispatcher that fans routed events out to one local
//! sink and any number of filtered remote subscribers, and a
//! reference-counted lease manager for per-display overlay surfaces.
//!
//! Everything here is plain state-machine logic on plain values. The
//! display backend, the transports and the async plumbing live outside
//! this crate and talk to it through the decision functions it exports.

pub mod event_model;
pub mod event_router;
pub mod event_dispatcher;
pub mod screen_overlay;
