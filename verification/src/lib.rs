//! A data-driven, bidirectional URL router with localized path variants,
//! nested sub-routes and query-string parameters.
//!
//! A route space is declared as tables of cases, each case carrying one
//! or more localized path patterns, a field shape and its query
//! parameters; `router::Router::parse` compiles and validates the
//! declaration once, and the resulting table is read-only. Parsing a URL
//! resolves it to a structural route value plus the locales the match is
//! valid for; generation renders such a value back into a URL for a
//! target locale. The laws module states and proves the engine's
//! round-trip and matching properties.

pub mod laws;
pub mod locales;
pub mod pattern;
pub mod percent;
pub mod query;
pub mod router;
pub mod text;
