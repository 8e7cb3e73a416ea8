//! An in-process publish/subscribe dispatch engine.
//!
//! Registries keep non-owning subscriber handles per category (and, for the
//! prioritized registry, per priority bucket) and deliver events through the
//! propagation-control algorithm of [`dispatch`].
pub mod types;
pub mod dispatch;
pub mod handle;
pub mod bus;
pub mod priority;
pub mod lemmas;
