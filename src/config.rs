//! The journal's configuration, as the core consumes it.
use vstd::prelude::*;

verus! {

/// Where the journal lives and which sections each entry has.
#[derive(Debug)]
pub struct Config {
    /// The journal root, with any `~` already expanded.
    pub root_path: String,
    /// The sections of an entry, in the order they are written.
    pub sections: Vec<SectionConfig>,
    /// How many hours after midnight a new day begins.
    pub reset_hours_after_midnight: u32,
}

/// One section of an entry.
#[derive(Debug)]
pub struct SectionConfig {
    /// The heading text, written after `## `.
    pub title: String,
    /// Whether a new entry starts with the previous entry's body of this section.
    pub persist: bool,
    /// Whether the section is shown in a report over several days.
    pub collate: bool,
}

/// Why the configuration could not be loaded.
#[derive(Debug, Clone, Copy, PartialEq, Eq, Structural)]
pub enum ConfigError {
    FileNotFound,
    InvalidFormat,
}

impl SectionConfig {
    /// A section with the given heading and flags.
    pub fn new(title: &str, persist: bool, collate: bool) -> (r: SectionConfig)
        ensures
            r.title@ == title@,
            r.persist == persist,
            r.collate == collate,
    {
        SectionConfig { title: String::from_str(title), persist, collate }
    }
}

} // verus!
