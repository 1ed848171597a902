//! Order-preserving page transfer between a paginated remote service and a
//! sequential file: the page plan, the sequencer that puts pages back into
//! order, and the rules by which a transfer succeeds or fails.

pub mod arrival;
pub mod association;
pub mod context;
pub mod credentials;
pub mod plan;
pub mod sequencer;
pub mod transfer;
