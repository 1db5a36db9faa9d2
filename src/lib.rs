//! Simulation of a fixed per-iteration capacity shared by a batch of layered
//! workloads, under a priority-driven and an order-driven scheduling policy.
pub mod dataset;
pub mod laws;
pub mod models;
pub mod view;
