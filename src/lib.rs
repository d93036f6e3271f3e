//! Client-side logic for a remote text-to-speech service: splitting text into
//! chunks the service accepts, deciding each step of a chunk's submit-then-poll
//! job, and gathering the per-chunk results in order.

pub mod chunker;
pub mod gather;
pub mod job;
