//! Planning-poker session engine.
//!
//! A small group of participants estimates work items in shared sessions.
//! Each session holds a backlog of stories, the single story currently open
//! for voting, the votes cast so far, and the finished estimates.  All state
//! changes go through a deterministic reducer with role-based authorization;
//! accepted actions travel between clients in a small JSON wire format.

pub mod client;
pub mod codec;
pub mod game;
pub mod ids;
pub mod laws;
pub mod model;
pub mod session;
pub mod vote;
