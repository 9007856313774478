//! The decision core of a client-side load balancer.
//!
//! A balancer dispatches requests over a changing set of services. This crate holds every decision
//! of that work and performs none of its I/O: [`Balance`] says which service (or which source of
//! services) has to be polled next, and is told what the poll returned. Services and their keys are
//! named by `u64` identifiers that the host hands out, and random picks are drawn with a generator
//! that the host has seeded.
pub mod balance;
pub mod chooser;
pub mod endpoints;
pub mod error;
pub mod laws;
pub mod model;
pub mod passes;
pub mod poll;
pub mod reluctance;
pub mod response;
pub mod rotation;
pub mod selection;
pub mod steps;

pub use crate::balance::Balance;
pub use crate::chooser::Choose;
pub use crate::error::Error;
pub use crate::response::ResponseFuture;
