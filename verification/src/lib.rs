//! Verified building blocks of the Valence co-processor: the sparse Merkle
//! tree with its openings and its SHA-256 hasher, the scheduling of remote
//! provers and the scaling of worker pools, the portable HTTP types that
//! controllers use, the runtime state and host-call checks of controllers,
//! the requests exchanged with remote provers, and the settings, request
//! contexts and historical walks of the command-line helper and the service.

pub mod backend;
pub mod cache;
pub mod cli;
pub mod context;
pub mod groth16;
pub mod hash;
pub mod historical;
pub mod host;
pub mod http;
pub mod http_commands;
pub mod ids;
pub mod merkle;
pub mod prover;
pub mod runtime;
pub mod scaling;
pub mod scheduler;
pub mod service;
