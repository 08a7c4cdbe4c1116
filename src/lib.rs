//! Cluster ticket tracking: tickets against compute nodes, and the reconciler that keeps
//! the batch scheduler in line with them.
pub mod api;
pub mod auth;
pub mod changelog;
pub mod cluster;
pub mod conf;
pub mod digits;
pub mod expected;
pub mod laws;
pub mod model;
pub mod reconcile;
pub mod scheduler;
pub mod store;
pub mod text;
pub mod topology;
