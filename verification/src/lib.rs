//! Capture and inspection of webhooks: configuration, the per-endpoint
//! webhook store with its retention rule, and the request handling logic
//! of the dashboard and the ingest path.

pub mod config;
pub mod db;
pub mod error;
pub mod laws;
pub mod routes;

use vstd::prelude::*;

verus! {

} // verus!
