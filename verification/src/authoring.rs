//! Adding a skill to a catalog checkout.

use vstd::prelude::*;
use crate::catalog::{
    catalog_skills, metadata_path, read_skill, scan_catalog, skill_of, skills_of, skills_root,
    CatalogEligibility, CatalogSkill, CatalogSkillView, CatalogSnapshot, Skills,
};
use crate::failure::{
    first_refusal, lemma_first_refusal, lemma_first_refusal_none, lemma_first_refusal_some,
    refusal, Failure,
};
use crate::model::{
    is_name, schema_refusal, valid_name, validate_schema, CatalogMetadata, CatalogSkillMetadata,
};
use crate::name_map::NameMap;
use crate::paths::{is_within, join_path, joined_path, within};
use crate::text::{cat2, cat4, cat5, decimal, decimal_of, opt_view, Text};

verus! {

/// A request to add a skill, with what was observed of the two directories.
#[derive(Debug)]
pub struct AdditionRequest {
    /// The catalog root as it was given, and whether it is a real directory.
    pub catalog_root: String,
    pub root_is_directory: bool,
    /// The skill source as it was given, and whether it is a real directory.
    pub source: String,
    pub source_is_directory: bool,
    /// The resolved path of the skill source.
    pub source_path: String,
    pub scope: String,
    pub eligibility: CatalogEligibility,
    /// Whether the metadata of the catalog is a real file.
    pub metadata_is_file: bool,
    /// What was read of the catalog at its resolved root.
    pub snapshot: CatalogSnapshot,
    pub source_folder: String,
    /// The text of the source's `SKILL.md`.
    pub source_raw: String,
    pub source_digest: String,
    /// A number that sets this run's staging directory apart.
    pub process: u64,
}

/// What adding a skill will do.
#[derive(Debug)]
pub struct SkillAddition {
    pub skill: CatalogSkill,
    pub metadata: CatalogMetadata,
    pub destination: String,
    pub staging: String,
    pub report: String,
}

/// Why one dependency of a new skill is refused.
pub open spec fn new_dependency_faults(skill: CatalogSkillView, current: Skills) -> spec_fn(int) -> Option<Text> {
    |i: int|
        {
            let dependency = skill.requires[i];
            if !current.contains_key(dependency) {
                Some("skill "@ + skill.name + " has invalid dependency "@ + dependency)
            } else if skill.global && !current[dependency].global {
                Some(
                    "global skill "@ + skill.name + " requires project-only skill "@ + dependency
                        + "; mark its dependency closure global"@,
                )
            } else {
                None
            }
        }
}

/// Why a read skill does not fit into the catalog.
pub open spec fn new_skill_refusal(skill: CatalogSkillView, current: Skills, declared: Set<Text>) -> Option<Text> {
    if current.contains_key(skill.name) || declared.contains(skill.name) {
        Some("catalog already contains skill: "@ + skill.name)
    } else {
        first_refusal(skill.requires.len() as int, new_dependency_faults(skill, current))
    }
}

/// The skill that a request adds, or why it is refused.
pub open spec fn requested_skill(q: AdditionRequest) -> Result<CatalogSkillView, Text> {
    let root = q.snapshot.root@;
    if !q.root_is_directory {
        Err("catalog root must be a real directory: "@ + q.catalog_root@)
    } else if !q.source_is_directory {
        Err("skill source must be a real directory: "@ + q.source@)
    } else if within(q.source_path@, root) {
        Err("skill source must be outside the target catalog: "@ + q.source_path@)
    } else if !is_name(q.scope@) {
        Err("invalid catalog scope: "@ + q.scope@)
    } else if !q.metadata_is_file || q.snapshot.metadata is None {
        Err("catalog metadata must be a real file: "@ + metadata_path(root))
    } else {
        let metadata = q.snapshot.metadata->Some_0@;
        match schema_refusal(metadata.version, "catalog metadata"@) {
            Some(m) => Err(m),
            None => if !metadata.scopes.contains_key(q.scope@) {
                Err("catalog has no scope named "@ + q.scope@)
            } else {
                match catalog_skills(q.snapshot) {
                    Err(m) => Err(m),
                    Ok(current) => match skill_of(
                        q.source_raw@,
                        q.source_folder@,
                        joined_path(q.source_path@, "SKILL.md"@),
                        Some(q.scope@),
                        q.eligibility == CatalogEligibility::Global,
                        q.source_digest@,
                    ) {
                        Err(m) => Err(m),
                        Ok(skill) => match new_skill_refusal(skill, current, metadata.skills.dom()) {
                            Some(m) => Err(m),
                            None => Ok(skill),
                        },
                    },
                }
            },
        }
    }
}

pub open spec fn eligibility_text(eligibility: CatalogEligibility) -> Text {
    match eligibility {
        CatalogEligibility::Global => "global"@,
        CatalogEligibility::Project => "project"@,
    }
}

/// `addition` is what the request asks for.
pub open spec fn is_addition(addition: SkillAddition, q: AdditionRequest, skill: CatalogSkillView) -> bool {
    let root = q.snapshot.root@;
    let before = q.snapshot.metadata->Some_0@;
    let after = addition.metadata@;
    &&& addition.skill@ == skill
    &&& after.version == before.version
    &&& after.scopes == before.scopes
    &&& after.renames == before.renames
    &&& after.skills == before.skills.insert(skill.name, after.skills[skill.name])
    &&& opt_view(after.skills[skill.name].scope) == Some(q.scope@)
    &&& after.skills[skill.name].global == (q.eligibility == CatalogEligibility::Global)
    &&& addition.destination@ == joined_path(skills_root(root), skill.name)
    &&& addition.staging@ == joined_path(
        root,
        ".skiller-add-"@ + decimal(q.process as nat) + "-"@ + skill.name,
    )
    &&& addition.report@ == "added "@ + skill.name + " as "@ + eligibility_text(q.eligibility)
        + " skill in scope "@ + q.scope@
}

fn check_new_skill(skill: &CatalogSkill, current: &NameMap<CatalogSkill>, declared: &NameMap<
    CatalogSkillMetadata,
>) -> (r: Result<(), Failure>)
    ensures
        refusal(r) == new_skill_refusal(skill@, skills_of(current@), declared@.dom()),
{
    let name = skill.name.as_str();
    if current.contains(name) || declared.contains(name) {
        return Err(Failure::new(cat2("catalog already contains skill: ", name)));
    }
    let ghost faults = new_dependency_faults(skill@, skills_of(current@));
    let mut i: usize = 0;
    while i < skill.requires.len()
        invariant
            i <= skill.requires.len(),
            name@ == skill.name@,
            !current@.contains_key(name@) && !declared@.contains_key(name@),
            faults == new_dependency_faults(skill@, skills_of(current@)),
            forall|j: int| 0 <= j < i ==> (#[trigger] faults(j)) is None,
        decreases skill.requires.len() - i,
    {
        let dependency = skill.requires[i].as_str();
        let ghost n = skill@.requires.len() as int;
        match current.get(dependency) {
            None => {
                proof {
                    assert(faults(i as int) is Some);
                    lemma_first_refusal_some(n, faults, i as int);
                }
                return Err(
                    Failure::new(cat4("skill ", name, " has invalid dependency ", dependency)),
                );
            },
            Some(required) => {
                if skill.global && !required.global {
                    proof {
                        assert(faults(i as int) is Some);
                        lemma_first_refusal_some(n, faults, i as int);
                    }
                    return Err(
                        Failure::new(
                            cat5(
                                "global skill ",
                                name,
                                " requires project-only skill ",
                                dependency,
                                "; mark its dependency closure global",
                            ),
                        ),
                    );
                }
            },
        }
        assert(faults(i as int) is None);
        i = i + 1;
    }
    proof {
        lemma_first_refusal_none(skill@.requires.len() as int, faults);
    }
    Ok(())
}

/// Decides what adding a skill will do.
pub fn add_skill(q: &AdditionRequest) -> (r: Result<SkillAddition, Failure>)
    ensures
        match r {
            Ok(addition) => requested_skill(*q) matches Ok(skill) && is_addition(addition, *q, skill),
            Err(f) => requested_skill(*q) == Err::<CatalogSkillView, Text>(f@),
        },
{
    if !q.root_is_directory {
        return Err(
            Failure::new(
                cat2("catalog root must be a real directory: ", q.catalog_root.as_str()),
            ),
        );
    }
    if !q.source_is_directory {
        return Err(
            Failure::new(cat2("skill source must be a real directory: ", q.source.as_str())),
        );
    }
    let root = q.snapshot.root.as_str();
    if is_within(q.source_path.as_str(), root) {
        return Err(
            Failure::new(
                cat2(
                    "skill source must be outside the target catalog: ",
                    q.source_path.as_str(),
                ),
            ),
        );
    }
    let scope = q.scope.as_str();
    if !valid_name(scope) {
        return Err(Failure::new(cat2("invalid catalog scope: ", scope)));
    }
    let metadata = match &q.snapshot.metadata {
        Some(metadata) if q.metadata_is_file => metadata,
        _ => {
            return Err(
                Failure::new(
                    cat2(
                        "catalog metadata must be a real file: ",
                        join_path(root, "skiller.json").as_str(),
                    ),
                ),
            );
        },
    };
    match validate_schema(metadata.version, "catalog metadata") {
        Ok(_) => {},
        Err(f) => return Err(f),
    }
    if !metadata.scopes.contains(scope) {
        return Err(Failure::new(cat2("catalog has no scope named ", scope)));
    }
    let current = match scan_catalog("authoring", root, &q.snapshot) {
        Ok(current) => current,
        Err(f) => return Err(f),
    };
    let global = match q.eligibility {
        CatalogEligibility::Global => true,
        CatalogEligibility::Project => false,
    };
    let declared = CatalogSkillMetadata { scope: Some(q.scope.clone()), global };
    let skill = match read_skill(
        q.source_raw.as_str(),
        q.source_folder.as_str(),
        join_path(q.source_path.as_str(), "SKILL.md").as_str(),
        &declared,
        q.source_digest.as_str(),
    ) {
        Ok(skill) => skill,
        Err(f) => return Err(f),
    };
    match check_new_skill(&skill, &current.skills, &metadata.skills) {
        Ok(_) => {},
        Err(f) => return Err(f),
    }
    let destination = join_path(join_path(root, "skills").as_str(), skill.name.as_str());
    let staging = join_path(
        root,
        cat4(
            ".skiller-add-",
            decimal_of(q.process).as_str(),
            "-",
            skill.name.as_str(),
        ).as_str(),
    );
    let mut next = metadata.clone();
    next.skills.insert(skill.name.clone(), declared);
    let kind = if global {
        "global"
    } else {
        "project"
    };
    let mut report = cat5("added ", skill.name.as_str(), " as ", kind, " skill in scope ");
    report.append(scope);
    let addition = SkillAddition { skill, metadata: next, destination, staging, report };
    proof {
        let name = addition.skill@.name;
        assert(addition.metadata@.skills =~= metadata@.skills.insert(
            name,
            addition.metadata@.skills[name],
        ));
    }
    Ok(addition)
}

/// What a global skill that is added requires is global too.
pub proof fn law_addition_keeps_global_closure(q: AdditionRequest, current: Skills, i: int)
    requires
        requested_skill(q) is Ok,
        requested_skill(q)->Ok_0.global,
        catalog_skills(q.snapshot) == Ok::<Skills, Text>(current),
        0 <= i < requested_skill(q)->Ok_0.requires.len(),
    ensures
        current.contains_key(requested_skill(q)->Ok_0.requires[i]),
        current[requested_skill(q)->Ok_0.requires[i]].global,
{
    let skill = requested_skill(q)->Ok_0;
    let faults = new_dependency_faults(skill, current);
    lemma_first_refusal(skill.requires.len() as int, faults);
    assert(faults(i) is None);
}

/// Why an addition cannot be placed.
pub open spec fn placement_refusal(addition: SkillAddition, destination_exists: bool, staging_exists: bool) -> Option<
    Text,
> {
    if destination_exists {
        Some("catalog skill destination already exists: "@ + addition.destination@)
    } else if staging_exists {
        Some("catalog add staging path already exists: "@ + addition.staging@)
    } else {
        None
    }
}

/// Checks that neither path of an addition is taken.
pub fn check_placement(addition: &SkillAddition, destination_exists: bool, staging_exists: bool) -> (r: Result<
    (),
    Failure,
>)
    ensures
        refusal(r) == placement_refusal(*addition, destination_exists, staging_exists),
{
    if destination_exists {
        return Err(
            Failure::new(
                cat2(
                    "catalog skill destination already exists: ",
                    addition.destination.as_str(),
                ),
            ),
        );
    }
    if staging_exists {
        return Err(
            Failure::new(
                cat2("catalog add staging path already exists: ", addition.staging.as_str()),
            ),
        );
    }
    Ok(())
}

/// The steps that place an addition.
#[derive(Debug, Clone, Copy, PartialEq, Eq, Structural)]
pub enum AdditionStep {
    CopyToStaging,
    RenameToDestination,
    WriteMetadata,
    Report,
    /// The step failed: remove the staging directory and give the error up.
    RemoveStaging,
    /// The step failed: remove the destination and give the error up.
    RemoveDestination,
}

/// The step after `step` ended well or badly; none after the last one.
pub open spec fn step_after(step: AdditionStep, done: bool) -> Option<AdditionStep> {
    match step {
        AdditionStep::CopyToStaging => Some(
            if done {
                AdditionStep::RenameToDestination
            } else {
                AdditionStep::RemoveStaging
            },
        ),
        AdditionStep::RenameToDestination => Some(
            if done {
                AdditionStep::WriteMetadata
            } else {
                AdditionStep::RemoveStaging
            },
        ),
        AdditionStep::WriteMetadata => Some(
            if done {
                AdditionStep::Report
            } else {
                AdditionStep::RemoveDestination
            },
        ),
        _ => None,
    }
}

pub fn next_step(step: AdditionStep, done: bool) -> (r: Option<AdditionStep>)
    ensures
        r == step_after(step, done),
{
    match step {
        AdditionStep::CopyToStaging => Some(
            if done {
                AdditionStep::RenameToDestination
            } else {
                AdditionStep::RemoveStaging
            },
        ),
        AdditionStep::RenameToDestination => Some(
            if done {
                AdditionStep::WriteMetadata
            } else {
                AdditionStep::RemoveStaging
            },
        ),
        AdditionStep::WriteMetadata => Some(
            if done {
                AdditionStep::Report
            } else {
                AdditionStep::RemoveDestination
            },
        ),
        _ => None,
    }
}

/// What is on disk of an addition.
pub struct Placed {
    pub staging: bool,
    pub destination: bool,
    pub metadata: bool,
}

/// What a step that ended well leaves on disk; one that ended badly may leave its own
/// directory half made.
pub open spec fn effect(at: Placed, step: AdditionStep, done: bool) -> Placed {
    match step {
        AdditionStep::CopyToStaging => Placed { staging: true, ..at },
        AdditionStep::RenameToDestination => if done {
            Placed { staging: false, destination: true, ..at }
        } else {
            at
        },
        AdditionStep::WriteMetadata => Placed { metadata: done, ..at },
        AdditionStep::RemoveStaging => Placed { staging: false, ..at },
        AdditionStep::RemoveDestination => Placed { destination: false, ..at },
        AdditionStep::Report => at,
    }
}

/// What is on disk once the steps from `step` on have ended; `outcomes` says which of the
/// three placing steps end well, and undoing ends well.
pub open spec fn placed_after(at: Placed, step: AdditionStep, outcomes: spec_fn(AdditionStep) -> bool, n: nat) -> Placed
    decreases n,
{
    let next = effect(at, step, outcomes(step));
    if n == 0 {
        at
    } else {
        match step_after(step, outcomes(step)) {
            Some(s) => placed_after(next, s, outcomes, (n - 1) as nat),
            None => next,
        }
    }
}

/// An addition is placed whole or not at all, whichever step fails.
pub proof fn law_addition_is_all_or_nothing(outcomes: spec_fn(AdditionStep) -> bool)
    ensures
        ({
            let end = placed_after(
                Placed { staging: false, destination: false, metadata: false },
                AdditionStep::CopyToStaging,
                outcomes,
                4,
            );
            &&& !end.staging
            &&& end.destination == end.metadata
            &&& end.destination == (outcomes(AdditionStep::CopyToStaging) && outcomes(
                AdditionStep::RenameToDestination,
            ) && outcomes(AdditionStep::WriteMetadata))
        }),
{
    reveal_with_fuel(placed_after, 5);
}

} // verus!
