//! A "quote of the day" responder library: a per-source-address rate limiter
//! with periodic decay, the admission logic for one connection, and the
//! configuration parsing that the service needs at startup.
pub mod config;
pub mod limiter;
pub mod service;
