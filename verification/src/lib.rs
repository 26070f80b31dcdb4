//! Shared golden-rules enforcement for spine tools: the verified core.
//!
//! The modules hold the decisions that the golden-rules assertions make:
//! composite-key normalisation and encoding, operator-manifest checks,
//! refusal-code scanning, and the judgements made on a tool's captured run.
//! Running processes and reading files is left to the callers.

pub mod pipeline;
pub mod text;
pub mod composite_key;
pub mod json;
pub mod keyed;
pub mod types;
pub mod helpers;
