//! Legacy (per-controller hierarchy) cgroup resolution, application planning
//! and teardown decisions for a single container process.
pub mod controller;
pub mod error;
pub mod mount;
pub mod path;
pub mod membership;
pub mod manager;
pub mod removal;
