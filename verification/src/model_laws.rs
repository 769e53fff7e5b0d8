//! What names are, and what storing and reading an installed state keeps.

use vstd::prelude::*;
use crate::failure::lemma_first_where;
use crate::model::{
    alias_refusal, decoded, encodes, is_name, legacy_mismatch, schema_refusal,
    state_version_refusal, stored_skill, CompactMode, CompactSkill, EffectiveMode,
    InstalledSkillView, InstalledState, InstalledStateWire,
};
use crate::text::Text;

verus! {

/// A name has at most 64 characters, at least one, all of them small letters, digits and hyphens, and
/// every hyphen stands between two letters or digits. An alias is such a name.
pub proof fn law_names_are_portable(s: Text)
    ensures
        is_name(s) <==> {
            &&& 1 <= s.len() <= 64
            &&& forall|i: int|
                0 <= i < s.len() ==> {
                    let c = #[trigger] s[i];
                    ||| 'a' <= c <= 'z'
                    ||| '0' <= c <= '9'
                    ||| (c == '-' && 0 < i < s.len() - 1 && s[i - 1] != '-' && s[i + 1] != '-')
                }
        },
        alias_refusal(s) is None <==> is_name(s),
{
    if is_name(s) {
        assert forall|i: int| 0 <= i < s.len() implies {
            let c = #[trigger] s[i];
            ||| 'a' <= c <= 'z'
            ||| '0' <= c <= '9'
            ||| (c == '-' && 0 < i < s.len() - 1 && s[i - 1] != '-' && s[i + 1] != '-')
        } by {
            if s[i] == '-' {
                assert(i > 0 && i < s.len() - 1);
                assert(!(s[i - 1] == '-' && s[(i - 1) + 1] == '-'));
                assert(!(s[i] == '-' && s[i + 1] == '-'));
            }
        }
    }
    if 1 <= s.len() <= 64 && (forall|i: int|
        0 <= i < s.len() ==> {
            let c = #[trigger] s[i];
            ||| 'a' <= c <= 'z'
            ||| '0' <= c <= '9'
            ||| (c == '-' && 0 < i < s.len() - 1 && s[i - 1] != '-' && s[i + 1] != '-')
        }) {
        assert(s[0] != '-');
        assert(s[s.len() - 1] != '-');
        assert(is_name(s));
    }
}

/// Only the first schema of a file is known, and only the first three of an installed state.
pub proof fn law_versions_are_known(version: u32, kind: Text)
    ensures
        schema_refusal(version, kind) is None <==> version == 1,
        state_version_refusal(version) is None <==> 1 <= version <= 3,
{
}

/// A stored digest stands for a recorded one; nothing stands for none.
pub open spec fn stands_for(stored: Text, digest: Option<Text>) -> bool {
    if stored.len() == 0 {
        digest is None
    } else {
        digest == Some(stored)
    }
}

/// A stored mode stands for a mode.
pub open spec fn means(stored: CompactMode, mode: EffectiveMode) -> bool {
    match stored {
        CompactMode::E => mode is Enable,
        CompactMode::M => mode is Manual,
        CompactMode::D => mode is Dependency,
    }
}

pub open spec fn reads_compact(c: CompactSkill, s: InstalledSkillView) -> bool {
    &&& s.installed_name == c.installed_name@
    &&& means(c.mode, s.mode)
    &&& s.gitignore == c.gitignore
    &&& stands_for(c.digest@, s.digest)
    &&& s.legacy_path is None
}

/// Reading a stored state gives back every field of every skill, under the key it is stored under,
/// and nothing more. A form is accepted only with the version that belongs to it, and the first form
/// only where every key names the catalog and the skill that are stored under it.
pub proof fn law_stored_states_are_read(wire: InstalledStateWire, key: Text)
    ensures
        match wire {
            InstalledStateWire::CompactCurrent { v, skills } => {
                &&& decoded(wire) is Ok <==> v == 3
                &&& decoded(wire) matches Ok(state) ==> {
                    &&& state.version == 3
                    &&& state.skills.dom() == skills@.dom()
                    &&& skills@.contains_key(key) ==> reads_compact(skills@[key], state.skills[key])
                        && state.skills[key].content_digest is None
                }
            },
            InstalledStateWire::CompactBaseline { v, skills } => {
                &&& decoded(wire) is Ok <==> v == 4
                &&& decoded(wire) matches Ok(state) ==> {
                    &&& state.version == 3
                    &&& state.skills.dom() == skills@.dom()
                    &&& skills@.contains_key(key) ==> reads_compact(
                        skills@[key].skill,
                        state.skills[key],
                    ) && stands_for(skills@[key].baseline@, state.skills[key].content_digest)
                }
            },
            InstalledStateWire::CompactPrevious { v, skills } => {
                &&& decoded(wire) is Ok <==> v == 2
                &&& decoded(wire) matches Ok(state) ==> {
                    &&& state.version == 2
                    &&& state.skills.dom() == skills@.dom()
                    &&& skills@.contains_key(key) ==> {
                        let s = state.skills[key];
                        let c = skills@[key];
                        &&& s.installed_name == c.installed_name@
                        &&& means(c.mode, s.mode)
                        &&& s.gitignore == c.gitignore
                        &&& s.digest is None && s.content_digest is None && s.legacy_path is None
                    }
                }
            },
            InstalledStateWire::Legacy { version, skills } => {
                &&& decoded(wire) is Ok <==> version == 1 && forall|i: int|
                    0 <= i < skills.names().len() ==> #[trigger] skills.names()[i]
                        == skills@[skills.names()[i]].catalog@ + "/"@
                        + skills@[skills.names()[i]].source_skill@
                &&& decoded(wire) matches Ok(state) ==> {
                    &&& state.version == 1
                    &&& state.skills.dom() == skills@.dom()
                    &&& skills@.contains_key(key) ==> {
                        let s = state.skills[key];
                        let c = skills@[key];
                        &&& s.installed_name == c.installed_name@
                        &&& s.mode == c.mode
                        &&& s.gitignore == c.gitignore
                        &&& s.digest is None && s.content_digest is None
                        &&& s.legacy_path == Some(c.path@)
                    }
                }
            },
        },
{
    match wire {
        InstalledStateWire::CompactCurrent { v, skills } => {
            if let Ok(state) = decoded(wire) {
                assert(state.skills.dom() =~= skills@.dom());
            }
        },
        InstalledStateWire::CompactBaseline { v, skills } => {
            if let Ok(state) = decoded(wire) {
                assert(state.skills.dom() =~= skills@.dom());
            }
        },
        InstalledStateWire::CompactPrevious { v, skills } => {
            if let Ok(state) = decoded(wire) {
                assert(state.skills.dom() =~= skills@.dom());
            }
        },
        InstalledStateWire::Legacy { version, skills } => {
            let p = legacy_mismatch(skills);
            let n = skills.names().len() as int;
            lemma_first_where(n, p);
            if let Ok(state) = decoded(wire) {
                assert(state.skills.dom() =~= skills@.dom());
                assert forall|i: int| 0 <= i < n implies #[trigger] skills.names()[i]
                    == skills@[skills.names()[i]].catalog@ + "/"@
                    + skills@[skills.names()[i]].source_skill@ by {
                    assert(!p(i));
                }
            } else if version == 1 {
                let i = crate::failure::first_where(n, p)->Some_0;
                assert(p(i));
                assert(skills.names()[i] != skills@[skills.names()[i]].catalog@ + "/"@
                    + skills@[skills.names()[i]].source_skill@);
            }
        },
    }
}

/// What was stored is read back: every skill under its key, with its name, mode, ignore flag and
/// digests. Only an empty digest and the path of the first form are not kept.
pub proof fn law_stored_skills_come_back(state: InstalledState, wire: InstalledStateWire, key: Text)
    requires
        encodes(state@.skills, wire),
    ensures
        decoded(wire) matches Ok(read) && {
            &&& read.version == 3
            &&& read.skills.dom() == state.skills@.dom()
            &&& state.skills@.contains_key(key) ==> {
                let s = read.skills[key];
                let was = state.skills@[key];
                &&& s.installed_name == was.installed_name@
                &&& s.mode == was.mode
                &&& s.gitignore == was.gitignore
                &&& s.digest is Some <==> was.digest is Some && was.digest->Some_0@.len() > 0
                &&& s.digest is Some ==> s.digest->Some_0 == was.digest->Some_0@
                &&& s.content_digest is Some <==> was.content_digest is Some
                    && was.content_digest->Some_0@.len() > 0
                &&& s.content_digest is Some ==> s.content_digest->Some_0
                    == was.content_digest->Some_0@
                &&& s.legacy_path is None
            }
        },
{
    crate::model::law_state_round_trip(state@.skills, wire);
    let read = decoded(wire)->Ok_0;
    assert(read.skills.dom() =~= state.skills@.dom());
    if state.skills@.contains_key(key) {
        assert(read.skills[key] == stored_skill(state.skills@[key]@));
    }
}

} // verus!
