//! A small HTTP server library: a per-method route tree with static,
//! variable and wildcard segments, the request and response types it
//! routes, and the decisions of the connection loop around it.

pub mod http;
