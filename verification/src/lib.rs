//! A master/worker engine for streaming a wiki-style page dump into units of
//! work, dispatching them to workers over a length-prefixed wire protocol,
//! and collecting per-page link-frequency statistics.

pub mod analysis;
pub mod codec;
pub mod messages;
pub mod queue;
pub mod session;
pub mod worker;
