//! What holds of provenances and of sharders beyond a single call.

pub mod delivery;
pub mod labels;
pub mod noting;
pub mod order;
pub mod provenance;
pub mod recovery;
pub mod resuming;
pub mod routing;
pub mod sending;
pub mod stamping;
pub mod views;
