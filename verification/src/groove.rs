//! The Groove service-discovery manifest: what arghda announces it can do
//! (its commands, the frozen `dag`/`reason` schema versions, and the live
//! probes of its backends), emitted as JSON for a host to serve at
//! `/.well-known/groove`.

use vstd::prelude::*;
use crate::prover::Probe;

verus! {

/// The frozen JSON-contract schema versions.
#[derive(Clone, Debug)]
pub struct Schemas {
    pub dag: &'static str,
    pub reason: &'static str,
}

/// What arghda announces it can do.
#[derive(Clone, Debug)]
pub struct Capabilities {
    /// Live probe of each known backend.
    pub backends: Vec<Probe>,
    /// The CLI verbs a consumer can drive.
    pub commands: Vec<&'static str>,
    /// The frozen output-schema versions.
    pub schemas: Schemas,
}

/// The `/.well-known/groove` manifest for arghda.
#[derive(Clone, Debug)]
pub struct GrooveManifest {
    /// Groove manifest-schema version.
    pub groove: &'static str,
    pub service: &'static str,
    pub description: &'static str,
    pub capabilities: Capabilities,
}

/// Builds the manifest from live backend probes.
pub fn manifest(backends: Vec<Probe>) -> (m: GrooveManifest)
    ensures
        m.groove@ == "0.1"@,
        m.service@ == "arghda"@,
        m.description@ == "proof-workspace manager for provers and solvers"@,
        m.capabilities.backends@ == backends@,
        m.capabilities.commands@.map_values(|c: &'static str| c@)
            == seq!["scan"@, "check"@, "dag"@, "reason"@, "doctor"@, "groove"@],
        m.capabilities.schemas.dag@ == "0.1"@,
        m.capabilities.schemas.reason@ == "0.1"@,
{
    let commands = vec!["scan", "check", "dag", "reason", "doctor", "groove"];
    assert(commands@.map_values(|c: &'static str| c@) =~= seq!["scan"@, "check"@, "dag"@, "reason"@, "doctor"@, "groove"@]);
    GrooveManifest {
        groove: "0.1",
        service: "arghda",
        description: "proof-workspace manager for provers and solvers",
        capabilities: Capabilities { backends, commands, schemas: Schemas { dag: "0.1", reason: "0.1" } },
    }
}

} // verus!
