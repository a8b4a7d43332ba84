//! Authorization and team-membership core of a competitive challenge-solving
//! platform: credential service, guard pipeline, team lifecycle state machine,
//! and the submission/scoring engine, with machine-checked contracts.

pub mod bytes;
pub mod token;
pub mod store;
pub mod credential;
pub mod team;
pub mod scoring;
pub mod pipeline;
pub mod routes;
