//! Language plugin and rule metadata, capability names and severities.
//!
//! A *language plugin* owns parsing and (optionally) cross-file semantic
//! models for its inputs; a *rule* reads capabilities and emits findings.
//! Rules declare which capability they require, and the engine only runs
//! them once that capability is available.

use crate::diagnostic::Severity;
use vstd::prelude::*;

verus! {

/// Whether a capability is produced per file or once per workspace.
#[derive(Clone, Copy, Debug, PartialEq, Eq, Structural)]
pub enum CapabilityScope {
    File,
    Workspace,
}

/// A named capability a plugin can produce.
#[derive(Clone, Debug, PartialEq, Eq)]
pub struct Capability {
    pub name: &'static str,
    pub scope: CapabilityScope,
}

/// Metadata for one rule.
#[derive(Clone, Debug)]
pub struct RuleMeta {
    /// Full id, namespaced by the rule author, e.g. `graphql/no-empty-type`.
    pub id: &'static str,
    pub description: &'static str,
    pub default_severity: Severity,
    /// Capability this rule reads, e.g. `graphql.facts`; `""` means none.
    pub requires: &'static str,
}

/// Effective severity of a rule after a config override: the override when
/// there is one, else the rule's default.
pub fn effective_severity(meta: &RuleMeta, severity_override: Option<Severity>) -> (r: Option<Severity>)
    ensures
        r == Some(
            match severity_override {
                Some(s) => s,
                None => meta.default_severity,
            },
        ),
{
    match severity_override {
        Some(s) => Some(s),
        None => Some(meta.default_severity),
    }
}

} // verus!
