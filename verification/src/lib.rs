//! A verified authorization-to-key-distribution pipeline.
//!
//! Host-level SSH access is derived from a replicated, append-only
//! authorization graph: team membership, role possession, and per-host
//! channel labels are mutated through graph actions, observed through an
//! effect log, and reconciled into concrete `authorized_keys` artifacts.
//!
//! The graph itself and the deployment sink are external collaborators.
//! This crate holds the pipeline's decisions and computations: the
//! deterministic label allocator, the locally observed graph model, the
//! durable host registry, the key materializer, and the access manager
//! that orchestrates them. Callers perform the network and file work and
//! feed observed effects back in.

pub mod graph;
pub mod ids;
pub mod laws;
pub mod labels;
pub mod manager;
pub mod materialize;
pub mod registry;
