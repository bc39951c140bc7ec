//! Application configuration: the persisted theme choice.

use vstd::prelude::*;
use vstd::string::StringExecFns;

verus! {

/// The configuration document persisted beside the projects.
#[derive(Debug, Clone)]
pub struct AppConfig {
    /// One of "light", "dark" or "system".
    pub theme: String,
}

impl Default for AppConfig {
    /// The default configuration follows the system theme.
    fn default() -> (c: AppConfig)
        ensures
            c.theme@ == "system"@,
    {
        AppConfig { theme: String::from_str("system") }
    }
}

} // verus!
