//! Client provided settings, read from the initialization options the editor
//! sends once at startup.

use vstd::prelude::*;

verus! {

/// Settings vesper understands. Unknown keys are ignored, so a newer editor
/// config never breaks an older server.
#[derive(Debug, PartialEq)]
pub struct Config {
    /// The directory that holds the dusk `lib` standard library. Vesper sets it
    /// as `DUSK_HOME` so the loader can resolve `@import std.*`. When it is
    /// absent, the loader falls back to the checkout it was built against.
    pub dusk_home: Option<String>,
}

impl Default for Config {
    fn default() -> (config: Config)
        ensures
            config.dusk_home is None,
    {
        Config { dusk_home: None }
    }
}

impl Config {
    /// The settings the editor sent, falling back to the defaults when there were
    /// none or they were malformed.
    pub fn from_value(sent: Option<Config>) -> (config: Config)
        ensures
            match sent {
                Some(c) => config == c,
                None => config.dusk_home is None,
            },
    {
        match sent {
            Some(config) => config,
            None => Config::default(),
        }
    }

    /// The setting that must live in the process environment before any analysis
    /// runs: a variable and its value.
    pub fn apply(&self) -> (setting: Option<(String, String)>)
        ensures
            match self.dusk_home {
                Some(home) => setting matches Some((key, value)) && key@ == "DUSK_HOME"@ && value@
                    == home@,
                None => setting is None,
            },
    {
        match &self.dusk_home {
            Some(home) => Some(("DUSK_HOME".to_owned(), home.clone())),
            None => None,
        }
    }
}

} // verus!
