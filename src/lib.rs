//! Core of a two-way voice bridge: per-speaker jitter-buffered Opus decoding
//! queues, a mixer that sums all speakers, and the paced re-encoder step.

pub mod window;
pub mod queue;
pub mod mixer;
pub mod pacer;
