use vstd::prelude::*;

use crate::config::join_path;

verus! {

/// Settings of the command-line front end that persist between runs.
pub struct CliConfig {
    /// Bypass the config snapshot on every apply.
    pub force_apply: bool,
}

impl Default for CliConfig {
    fn default() -> (r: CliConfig)
        ensures
            !r.force_apply,
    {
        CliConfig { force_apply: false }
    }
}

impl CliConfig {
    /// Where these settings live inside the data directory `data_dir`.
    pub fn get_config_path(data_dir: &str) -> (r: String)
        ensures
            r@ == join_path(data_dir@, "cli.toml"@),
    {
        crate::config::join(data_dir, "cli.toml")
    }

    /// Flips persistent force mode; returns the new setting.
    pub fn toggle_force(&mut self) -> (r: bool)
        ensures
            final(self).force_apply == !old(self).force_apply,
            r == final(self).force_apply,
    {
        self.force_apply = !self.force_apply;
        self.force_apply
    }
}

} // verus!
