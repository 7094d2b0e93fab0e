//! Core logic of a self-scaling HTTP load balancer: a worker fleet model,
//! a TTL + capacity bounded response cache, a weighted dispatcher, resource
//! scoring, a hysteresis scaling controller, a reconciler, and the wire
//! codec for the fleet snapshot channel.
pub mod cache;
pub mod channel;
pub mod dispatcher;
pub mod forward;
pub mod keys;
pub mod metrics;
pub mod reconcile;
pub mod rng;
pub mod scale;
pub mod text;
pub mod worker;
