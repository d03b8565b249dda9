//! The project entity: one tracked directory with its metadata.

use vstd::prelude::*;

use crate::codec::encode_sidecar;
use crate::codec::spec_encode_sidecar;
use crate::strutil::clone_strings;
use crate::strutil::strs_view;

verus! {

/// What a project is mathematically: its directory name, the two
/// timestamps, and its tags in first-appearance order.
pub struct ProjectView {
    pub name: Seq<char>,
    pub created: u64,
    pub accessed: u64,
    pub tags: Seq<Seq<char>>,
}

/// No two equal strings in the sequence: the tag list behaves as a set.
pub open spec fn distinct_seqs(ts: Seq<Seq<char>>) -> bool {
    forall|i: int, j: int| 0 <= i < j < ts.len() ==> ts[i] != ts[j]
}

/// One project: a directory under the store's root together with the
/// metadata kept in its sidecar file.
#[derive(Debug)]
pub struct Project {
    name: String,
    created: u64,
    accessed: u64,
    tags: Vec<String>,
}

impl View for Project {
    type V = ProjectView;

    closed spec fn view(&self) -> ProjectView {
        ProjectView {
            name: self.name@,
            created: self.created,
            accessed: self.accessed,
            tags: strs_view(self.tags@),
        }
    }
}

impl Project {
    /// The tag list holds no duplicates.
    pub open spec fn wf(self) -> bool {
        distinct_seqs(self@.tags)
    }

    pub fn new(name: String, created_time: u64, accessed_time: u64, tags: Vec<String>) -> (r:
        Project)
        ensures
            r@ == (ProjectView {
                name: name@,
                created: created_time,
                accessed: accessed_time,
                tags: strs_view(tags@),
            }),
    {
        Project { name, created: created_time, accessed: accessed_time, tags }
    }

    /// A copy of the tag list.
    pub fn get_tags(&self) -> (r: Vec<String>)
        ensures
            strs_view(r@) == self@.tags,
    {
        clone_strings(&self.tags)
    }

    pub fn get_name(&self) -> (r: &String)
        ensures
            r@ == self@.name,
    {
        &self.name
    }

    /// In-memory rename; the store renames the backing directory.
    pub(crate) fn rename(&mut self, name: String)
        ensures
            final(self)@ == (ProjectView { name: name@, ..old(self)@ }),
    {
        self.name = name;
    }

    /// Replaces the tag set wholesale; the store persists afterwards.
    pub(crate) fn modify(&mut self, new_tags: Vec<String>)
        ensures
            final(self)@ == (ProjectView { tags: strs_view(new_tags@), ..old(self)@ }),
    {
        self.tags = new_tags;
    }

    /// Refreshes the access time and renders the sidecar text that makes
    /// the change durable once written.
    pub(crate) fn save_data(&mut self, now: u64) -> (r: String)
        ensures
            final(self)@ == (ProjectView { accessed: now, ..old(self)@ }),
            r@ == spec_encode_sidecar(old(self)@.created, now, old(self)@.tags),
    {
        self.accessed = now;
        encode_sidecar(self.created, self.accessed, &self.tags)
    }

    pub(crate) fn created_time(&self) -> (r: u64)
        ensures
            r == self@.created,
    {
        self.created
    }

    pub(crate) fn accessed_time(&self) -> (r: u64)
        ensures
            r == self@.accessed,
    {
        self.accessed
    }

    /// A copy with the same name, timestamps and tags.
    pub fn duplicate(&self) -> (r: Project)
        ensures
            r@ == self@,
    {
        Project {
            name: self.name.clone(),
            created: self.created,
            accessed: self.accessed,
            tags: clone_strings(&self.tags),
        }
    }
}

} // verus!
