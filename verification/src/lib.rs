//! Which Cloudflare region should a Durable Object be placed in, given the edge
//! (colo) a user arrived at?

pub mod calendar;
pub mod components;
pub mod hysteresis;
pub mod latency;
pub mod laws;
pub mod merge;
pub mod refresh;
pub mod routes;
pub mod service;
pub mod snapshot;
pub mod text;
pub mod textmap;
