//! The link configuration: one source of skills and the directories that link to it.

use vstd::prelude::*;
use crate::failure::Failure;
use crate::outside::home_directory;
use crate::paths::{join_path, joined_path};
use crate::text::{cat2, opt_view, same, Text};

verus! {

/// Whether a directory links to the source as a whole or skill by skill.
#[derive(Debug, Clone, Copy, PartialEq, Eq, Structural)]
pub enum LinkMode {
    Folder,
    Granular,
}

impl Default for LinkMode {
    fn default() -> (r: LinkMode)
        ensures
            r == LinkMode::Folder,
    {
        LinkMode::Folder
    }
}

pub open spec fn link_mode_text(mode: LinkMode) -> Text {
    match mode {
        LinkMode::Folder => "folder"@,
        LinkMode::Granular => "granular"@,
    }
}

impl LinkMode {
    pub fn label(self) -> (r: &'static str)
        ensures
            r@ == link_mode_text(self),
    {
        match self {
            LinkMode::Folder => "folder",
            LinkMode::Granular => "granular",
        }
    }

    /// Reads a mode by its name.
    pub fn parse(s: &str) -> (r: Result<LinkMode, Failure>)
        ensures
            match r {
                Ok(mode) => s@ == link_mode_text(mode),
                Err(f) => s@ != "folder"@ && s@ != "granular"@ && f@ == "invalid link mode: "@ + s@,
            },
    {
        if same(s, "folder") {
            Ok(LinkMode::Folder)
        } else if same(s, "granular") {
            Ok(LinkMode::Granular)
        } else {
            Err(Failure::new(cat2("invalid link mode: ", s)))
        }
    }
}

/// A directory that links to the source.
#[derive(Debug, PartialEq, Eq)]
pub struct Target {
    pub kind: String,
    pub path: String,
    pub mode: LinkMode,
}

impl Clone for Target {
    fn clone(&self) -> (r: Target)
        ensures
            r == *self,
    {
        Target { kind: self.kind.clone(), path: self.path.clone(), mode: self.mode }
    }
}

#[derive(Debug, PartialEq, Eq)]
pub struct Config {
    pub source: Option<String>,
    pub targets: Vec<Target>,
}

impl Default for Config {
    fn default() -> (r: Config)
        ensures
            r.source is None,
            r.targets@.len() == 0,
    {
        Config { source: None, targets: Vec::new() }
    }
}

/// Where the configuration is kept, by the home directory.
pub open spec fn config_path_of(home: Option<Text>) -> Result<Text, Text> {
    match home {
        Some(h) => Ok(joined_path(joined_path(h, ".config/skiller"@), "config.json"@)),
        None => Err("cannot find home dir"@),
    }
}

/// `r` is where the configuration is kept by some home directory.
pub open spec fn is_config_path(r: Result<String, Failure>, home: Option<Text>) -> bool {
    match r {
        Ok(p) => config_path_of(home) == Ok::<Text, Text>(p@),
        Err(f) => config_path_of(home) == Err::<Text, Text>(f@),
    }
}

impl Config {
    /// Where the configuration is kept, by the home directory.
    pub fn path_in(home: &Option<String>) -> (r: Result<String, Failure>)
        ensures
            is_config_path(r, opt_view(*home)),
    {
        match home {
            Some(h) => Ok(
                join_path(join_path(h.as_str(), ".config/skiller").as_str(), "config.json"),
            ),
            None => Err(Failure::new(String::from_str("cannot find home dir"))),
        }
    }

    /// Where the configuration is kept. Which home directory that is by depends on the
    /// environment.
    pub fn path() -> (r: Result<String, Failure>)
        ensures
            exists|home: Option<Text>| #[trigger] is_config_path(r, home),
    {
        let home = home_directory();
        Config::path_in(&home)
    }

    /// The source, which must be configured.
    pub fn source_dir(&self) -> (r: Result<&String, Failure>)
        ensures
            match r {
                Ok(s) => self.source == Some(*s),
                Err(f) => self.source is None && f@
                    == "source not configured — run: skiller source <path>"@,
            },
    {
        match &self.source {
            Some(source) => Ok(source),
            None => Err(
                Failure::new(
                    String::from_str("source not configured — run: skiller source <path>"),
                ),
            ),
        }
    }
}

} // verus!
