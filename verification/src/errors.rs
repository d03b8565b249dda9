//! Error values reported by the project store.

use vstd::prelude::*;

verus! {

/// The kind of a store error: which resource the failed step touched.
#[derive(Clone, Copy, Debug, PartialEq, Eq, Structural)]
pub enum ProjectErrorTypes {
    DirectoryRead,
    DirectoryWrite,
    ProjectRead,
    ProjectWrite,
    NonExistingProject,
}

/// An error of one store operation: its kind plus a human-readable
/// message naming the paths involved.
#[derive(Clone, Debug)]
pub struct ProjectError {
    pub typ: ProjectErrorTypes,
    pub msg: String,
}

impl ProjectError {
    /// Builds an error of the given kind whose message is the
    /// concatenation of a description and a detail string.
    pub fn new(typ: ProjectErrorTypes, context: &str, detail: &str) -> (r: ProjectError)
        ensures
            r.typ == typ,
            r.msg@ == context@ + detail@,
    {
        let mut msg = context.to_owned();
        msg.append(detail);
        ProjectError { typ, msg }
    }
}

} // verus!
