use vstd::prelude::*;

use crate::collections::{StringMap, StringSet};

verus! {

/// How serious a finding is.
#[derive(Clone, Copy, Debug, PartialEq, Eq, PartialOrd, Ord, Hash, Structural)]
pub enum Severity {
    High,
    Warning,
}

/// One privilege-relevant change reported by the comparison.
#[derive(Clone, Debug, PartialEq, Eq)]
pub struct Finding {
    pub severity: Severity,
    pub path: String,
    pub job: Option<String>,
    pub category: String,
    pub message: String,
    pub remediation: String,
}

/// The mathematical content of a finding.
pub struct FindingView {
    pub severity: Severity,
    pub path: Seq<char>,
    pub job: Option<Seq<char>>,
    pub category: Seq<char>,
    pub message: Seq<char>,
    pub remediation: Seq<char>,
}

/// The text of an optional string.
pub open spec fn option_string_view(o: Option<String>) -> Option<Seq<char>> {
    match o {
        Some(s) => Some(s@),
        None => None,
    }
}

impl View for Finding {
    type V = FindingView;

    open spec fn view(&self) -> FindingView {
        FindingView {
            severity: self.severity,
            path: self.path@,
            job: option_string_view(self.job),
            category: self.category@,
            message: self.message@,
            remediation: self.remediation@,
        }
    }
}

/// The capabilities that one workflow file grants.
#[derive(Debug, PartialEq, Eq)]
pub struct WorkflowCapability {
    pub path: String,
    pub triggers: StringSet,
    pub permissions: StringMap<String>,
    pub permissions_all: Option<String>,
    /// False means repository/organization defaults are unavailable locally.
    pub permissions_explicit: bool,
    pub jobs: StringMap<JobCapability>,
    pub warnings: Vec<String>,
}

/// The capabilities that one job of a workflow holds.
#[derive(Debug, PartialEq, Eq)]
pub struct JobCapability {
    pub id: String,
    pub permissions: StringMap<String>,
    pub permissions_all: Option<String>,
    /// True when permissions are declared on this job or inherited from the workflow.
    pub permissions_explicit: bool,
    pub secrets: StringSet,
    pub oidc: bool,
    pub runners: StringSet,
    pub action_refs: Vec<String>,
    pub untrusted_script_context: bool,
}

/// The mathematical content of a job's capabilities.
pub struct JobView {
    pub id: Seq<char>,
    pub permissions: Map<Seq<char>, Seq<char>>,
    pub permissions_all: Option<Seq<char>>,
    pub permissions_explicit: bool,
    pub secrets: Set<Seq<char>>,
    pub oidc: bool,
    pub runners: Set<Seq<char>>,
    pub action_refs: Seq<Seq<char>>,
    pub untrusted_script_context: bool,
}

/// The mathematical content of a workflow's capabilities.
pub struct WorkflowView {
    pub path: Seq<char>,
    pub triggers: Set<Seq<char>>,
    pub permissions: Map<Seq<char>, Seq<char>>,
    pub permissions_all: Option<Seq<char>>,
    pub permissions_explicit: bool,
    pub jobs: Map<Seq<char>, JobView>,
    pub warnings: Seq<Seq<char>>,
}

impl View for JobCapability {
    type V = JobView;

    open spec fn view(&self) -> JobView {
        JobView {
            id: self.id@,
            permissions: self.permissions@,
            permissions_all: option_string_view(self.permissions_all),
            permissions_explicit: self.permissions_explicit,
            secrets: self.secrets@,
            oidc: self.oidc,
            runners: self.runners@,
            action_refs: crate::collections::string_views(self.action_refs@),
            untrusted_script_context: self.untrusted_script_context,
        }
    }
}

impl View for WorkflowCapability {
    type V = WorkflowView;

    open spec fn view(&self) -> WorkflowView {
        WorkflowView {
            path: self.path@,
            triggers: self.triggers@,
            permissions: self.permissions@,
            permissions_all: option_string_view(self.permissions_all),
            permissions_explicit: self.permissions_explicit,
            jobs: self.jobs@,
            warnings: crate::collections::string_views(self.warnings@),
        }
    }
}

} // verus!
