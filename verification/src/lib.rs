//! Verified core of the Ruuter DSL gateway: request routing decisions,
//! guard resolution, DSL text handling, logging helpers and the
//! in-process registries that the server drives.
use vstd::prelude::*;

pub mod text;
pub mod config;
pub mod guards;
pub mod netaddr;
pub mod urls;
pub mod ssrf;
pub mod json;
pub mod router;
pub mod outbound;
pub mod uds;
pub mod logging;
pub mod logfmt;
pub mod scripting;
pub mod interpolate;
pub mod dsl;
pub mod engine;
pub mod steps;
pub mod state;
pub mod ws;
pub mod sources;
pub mod audit;
pub mod lint;
pub mod lint_files;
pub mod loader;
pub mod supervisor;
pub mod context;
pub mod idempotency;
pub mod single_flight;
pub mod triggers;
pub mod flow;
pub mod testkit;
pub mod hot_reload;
pub mod observability;
pub mod settings;
pub mod openapi;
pub mod serve;
pub mod client;
pub mod runner;
pub mod laws;
pub mod executors;
pub mod openapi_doc;
pub mod selfcall;

verus! {

} // verus!
