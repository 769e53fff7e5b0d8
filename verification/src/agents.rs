//! The host agent: the one that a user works with, among the installation targets.

use vstd::prelude::*;
use crate::text::{cat3, Text};

verus! {

/// The agent that a user works with. It stands among the built-in targets, under the names that
/// are given here.
#[derive(Debug, PartialEq, Eq)]
pub struct HostAgent {
    /// Its short name, by which its directory below the home directory is called.
    pub kind: String,
    /// Its name as an installation target.
    pub name: String,
    /// Its name for people.
    pub label: String,
}

/// Such an agent in contracts.
pub struct HostView {
    pub kind: Text,
    pub name: Text,
    pub label: Text,
}

impl View for HostAgent {
    type V = HostView;

    open spec fn view(&self) -> HostView {
        HostView { kind: self.kind@, name: self.name@, label: self.label@ }
    }
}

/// Where an agent keeps its skills.
pub open spec fn host_folder(h: HostView) -> Text {
    "."@ + h.kind + "/skills"@
}

impl HostAgent {
    /// Where the agent keeps its skills.
    pub fn folder(&self) -> (r: String)
        ensures
            r@ == host_folder(self@),
    {
        cat3(".", self.kind.as_str(), "/skills")
    }
}

} // verus!
