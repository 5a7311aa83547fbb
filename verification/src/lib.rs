//! Core of a channel-addressed message broker for a distributed-object server:
//! a subscription index (channel map), a routing engine (message director),
//! length-prefixed network framing, a typed binary codec with compiled schema
//! classes, the distributed-object lifecycle state machine, an ordered
//! per-object database pipeline, and the process-control surface.

pub mod errors;
pub mod channel_map;
pub mod director;
pub mod upstream;
pub mod framing;
pub mod envelope;
pub mod codec;
pub mod schema;
pub mod object;
pub mod dbqueue;
pub mod control;
