//! A directory-backed project bookmark store.
//!
//! Subdirectories of a configured root directory are treated as projects;
//! each carries a JSON sidecar file with its creation time, last-access
//! time and free-form tags.  The store loads the whole collection from a
//! scan of the root, tolerating unreadable or corrupt entries, and keeps
//! the in-memory collection and the on-disk sidecar files consistent
//! through create, rename, retag and open operations.

use vstd::prelude::*;

mod cmd;
mod codec;
mod config;
mod errors;
mod laws;
mod num;
mod project;
mod store;
mod strutil;
mod suggest;

pub use codec::encode_sidecar;
pub use codec::parse_sidecar;
pub use codec::ProjectData;
pub use config::Config;
pub use errors::ProjectError;
pub use errors::ProjectErrorTypes;
pub use project::Project;
pub use project::ProjectView;
pub use store::CandidateEntry;
pub use store::CreateRequest;
pub use store::DirTimes;
pub use store::ExecRequest;
pub use store::PersistRequest;
pub use store::ProjectManager;
pub use store::RenameRequest;
pub use store::ScanEntry;
pub use store::SortOrder;
pub use store::PROJECT_FILE;
pub use suggest::Suggester;

verus! {

} // verus!
