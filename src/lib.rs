//! A discrete-event engine for a limited processor-sharing queue that admits
//! the jobs with the shortest remaining work to its service slots.
//!
//! All quantities are whole clock ticks. Each job stores the service it still
//! needs as the number of ticks it takes at the per-slot rate, so that the
//! engine advances time with exact integer arithmetic.
pub mod job;
pub mod engine;
