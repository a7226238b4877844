//! A compose-compatible orchestrator core: given the declared services of a
//! project and a one-shot observation of its containers, the controller
//! plans the minimal ordered sequence of lifecycle operations that makes the
//! observed world match the declaration, and applies them one at a time
//! through a container backend.
//!
//! Stale containers are detected by a stable content digest of each
//! container's declaration, carried as a label on the running container; a
//! two-level label taxonomy (project, service) separates the current,
//! scaled-down and orphan populations.

pub mod compose;
pub mod controller;
pub mod hasher;
pub mod labels;
pub mod laws;
pub mod models;
pub mod observation;
pub mod services;
pub mod text;
