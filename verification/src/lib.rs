//! A verified model of a chunked multi-party ceremony coordinator: participants
//! queue up, are assigned contribution tasks per chunk, lock chunks, contribute,
//! get verified, and may be dropped with their work reassigned.

pub mod environment;
pub mod error;
pub mod info;
pub mod coordinator;
pub mod laws;
pub mod locator;
pub mod participant;
pub mod round;
pub mod state;
pub mod task;
