//! The `operator.v0` manifest of a spine tool, as plain values.
//!
//! Maps are kept in ascending key order (`StrMap`), as the manifest's
//! deterministic serialization asks. Members whose shape the manifest leaves
//! open are carried as `serde_json::Value`s.

use vstd::prelude::*;
use crate::keyed::StrMap;

verus! {

/// Top-level operator manifest (`operator.v0`).
#[derive(Debug)]
pub struct OperatorManifest {
    pub schema_version: String,
    pub name: String,
    pub version: String,
    pub description: String,
    pub repository: Option<String>,
    pub license: Option<String>,
    pub agent_guide: Option<String>,
    pub invocation: Option<Invocation>,
    pub arguments: Vec<serde_json::Value>,
    pub options: Vec<serde_json::Value>,
    pub subcommands: Vec<Subcommand>,
    pub exit_codes: StrMap<ExitCode>,
    pub refusals: Vec<RefusalEntry>,
    pub capabilities: Option<Capabilities>,
    pub pipeline: Option<Pipeline>,
}

/// Invocation metadata.
#[derive(Debug)]
pub struct Invocation {
    pub binary: String,
    pub usage: Vec<String>,
    pub output_mode: Option<String>,
    pub output_schema: Option<String>,
    pub json_flag: Option<String>,
}

/// Exit code entry.
#[derive(Debug)]
pub struct ExitCode {
    pub meaning: String,
    pub domain: String,
}

/// A refusal entry, top-level or nested under a subcommand.
#[derive(Debug)]
pub struct RefusalEntry {
    pub code: String,
    pub message: Option<String>,
    pub action: Option<String>,
    pub tool: Option<String>,
    pub flag: Option<String>,
}

/// Subcommand entry, which may declare its own refusals.
#[derive(Debug)]
pub struct Subcommand {
    pub name: String,
    pub description: Option<String>,
    pub refusals: Vec<RefusalEntry>,
    /// The remaining members, without strict typing.
    pub extra: StrMap<serde_json::Value>,
}

/// Tool capabilities.
#[derive(Debug)]
pub struct Capabilities {
    pub formats: Vec<String>,
    pub profile_aware: bool,
    pub streaming: bool,
    pub witness: Option<WitnessCapabilities>,
}

/// Witness sub-capabilities.
#[derive(Debug)]
pub struct WitnessCapabilities {
    pub ambient_recording: Option<String>,
    pub query_subcommands: serde_json::Value,
    pub no_witness_flag: Option<String>,
}

/// Pipeline adjacency.
#[derive(Debug)]
pub struct Pipeline {
    pub upstream: Vec<String>,
    pub downstream: Vec<String>,
}

} // verus!
