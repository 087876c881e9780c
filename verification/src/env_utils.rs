//! Where the broker's home directory comes from.
//!
//! Reading and setting the environment is left to the caller; what is decided
//! here is which directory counts as home, given what the caller found.

use vstd::prelude::*;

verus! {

/// The name of the environment variable that names the home directory.
pub const ROCKETMQ_HOME_ENV: &'static str = "ROCKETMQ_HOME";

/// Which directory is the home directory, and whether the environment has to
/// be told.
#[derive(Debug)]
pub struct HomeDirectory {
    /// The home directory.
    pub path: String,
    /// Whether the environment variable has to be set to `path`, because it
    /// was not set.
    pub must_export: bool,
}

/// Decisions about the environment.
pub struct EnvUtils;

impl EnvUtils {
    /// The name that the home directory has in the environment.
    pub fn home_variable() -> (name: &'static str)
        ensures
            name@ == ROCKETMQ_HOME_ENV@,
    {
        ROCKETMQ_HOME_ENV
    }

    /// The home directory: what the environment variable holds if it is set,
    /// else the current directory, which the variable is then to be set to.
    pub fn rocketmq_home(variable: Option<String>, current_dir: String) -> (home: HomeDirectory)
        ensures
            variable matches Some(value) ==> home.path@ == value@ && !home.must_export,
            variable is None ==> home.path@ == current_dir@ && home.must_export,
    {
        match variable {
            Some(value) => HomeDirectory { path: value, must_export: false },
            None => HomeDirectory { path: current_dir, must_export: true },
        }
    }
}

} // verus!
