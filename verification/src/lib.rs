//! Verified core of a workflow engine: capability matching, workflow DAGs with
//! cycle rejection, a dependency-driven run state machine, resilience policies
//! (retry with capped exponential backoff, circuit breaking), operator
//! reservation accounting, node-kind type checking and signed attestations.

pub mod text;
pub mod capability;
pub mod count;
pub mod nodemap;
pub mod error;
pub mod outside;
pub mod dag;
pub mod node;
pub mod resilience;
pub mod scheduler;
pub mod operator;
pub mod nodes;
pub mod hash;
pub mod attest;
pub mod event;
pub mod sandbox;
pub mod storage;
pub mod ai;
pub mod api;
pub mod onchain;
