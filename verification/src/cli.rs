//! Command lines: what the arguments mean once they are read.

use vstd::prelude::*;
use crate::failure::Failure;
use crate::install::{agents_refusal, validate_agents, InstallScope};
use crate::text::{split, split_on, views};

verus! {

/// The scope that a command works on. Outside a project only the global one is there.
pub fn scope(global: bool, project: Result<String, String>) -> (r: Result<InstallScope, Failure>)
    ensures
        match r {
            Ok(InstallScope::Global) => global,
            Ok(InstallScope::Project(root)) => !global && project is Ok && root == project->Ok_0,
            Err(f) => !global && project is Err && f@ == project->Err_0@,
        },
{
    if global {
        return Ok(InstallScope::Global);
    }
    match project {
        Ok(root) => Ok(InstallScope::Project(root)),
        Err(e) => Err(Failure::new(e)),
    }
}

/// Reads a list of agents. None leaves the agents as they are.
pub fn parse_agents(value: Option<&str>) -> (r: Result<Vec<String>, Failure>)
    ensures
        match r {
            Ok(agents) => match value {
                None => agents@.len() == 0,
                Some(v) => views(agents@) == split_on(v@, ',') && agents_refusal(
                    views(agents@),
                ) is None,
            },
            Err(f) => value is Some && agents_refusal(split_on(value->Some_0@, ',')) == Some(f@),
        },
{
    match value {
        None => Ok(Vec::new()),
        Some(v) => {
            let agents = split(v, ',');
            match validate_agents(&agents) {
                Ok(_) => Ok(agents),
                Err(f) => Err(f),
            }
        },
    }
}

/// What a call without a command does.
#[derive(Debug, Clone, Copy, PartialEq, Eq, Structural)]
pub enum BareStep {
    ConfigureGlobal,
    /// Ask which scope to configure.
    Choose,
}

pub fn bare_command(machine: bool, in_project: bool) -> (r: Result<BareStep, Failure>)
    ensures
        match r {
            Ok(step) => !machine && step == (if in_project {
                BareStep::Choose
            } else {
                BareStep::ConfigureGlobal
            }),
            Err(f) => machine && f@
                == "interactive configuration requires a terminal; run `skiller config` or another command"@,
        },
{
    if machine {
        return Err(
            Failure::new(
                String::from_str(
                    "interactive configuration requires a terminal; run `skiller config` or another command",
                ),
            ),
        );
    }
    if in_project {
        Ok(BareStep::Choose)
    } else {
        Ok(BareStep::ConfigureGlobal)
    }
}

} // verus!
