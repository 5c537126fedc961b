//! A mockable HTTP-client core: record/replay of request/response pairs and
//! declarative stubbing, with the engine's behaviour stated in contracts.
//!
//! Code is written against plain `Request` and `Response` values.  In
//! production a live transport performs the calls; in testing the
//! [`ReplayClient`](replay::ReplayClient) records an interaction the first
//! time it is made and replays it whenever the exact same request is made
//! again, and the [`StubClient`](stub::StubClient) answers requests from a
//! table of registered patterns.

pub mod codec;
pub mod config;
pub mod direct;
pub mod generic;
pub mod headers;
pub mod error;
pub mod fingerprint;
pub mod store;
pub mod stub;
pub mod replay;
pub mod request;
pub mod response;
