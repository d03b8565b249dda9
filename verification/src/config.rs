//! The settings the store is driven with: the root directory and the
//! default executor for opening projects.  Reading them from disk is
//! the surrounding program's concern.

use vstd::prelude::*;

verus! {

/// The two settings the store needs.
pub struct Config {
    /// The root directory whose children are the projects.
    pub dir: String,
    /// The command template run by default when opening a project.
    pub exec_cmd: String,
}

impl Config {
    pub fn new(dir: String, exec_cmd: String) -> (r: Config)
        ensures
            r.dir@ == dir@,
            r.exec_cmd@ == exec_cmd@,
    {
        Config { dir, exec_cmd }
    }
}

} // verus!
