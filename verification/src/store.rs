//! The project store: the collection of projects under one root
//! directory, its derived tag index, and the operations that keep the
//! collection and the sidecar files consistent.
//!
//! The store itself performs no I/O.  Loading takes the outcome of a
//! directory scan as a value; each mutation is split into a verified
//! step that checks, decides and renders what must be written, and a
//! verified step that folds the write's outcome back into the state.
//! The thin driver around the library performs the reads and writes in
//! between.

use vstd::multiset::Multiset;
use vstd::prelude::*;
use vstd::seq_lib::to_multiset_build;
use vstd::seq_lib::to_multiset_contains;
use vstd::seq_lib::to_multiset_remove;
use vstd::string::StringExecFns;

use crate::errors::ProjectError;
use crate::errors::ProjectErrorTypes;
use crate::project::distinct_seqs;
use crate::project::Project;
use crate::strutil::clone_strings;
use crate::strutil::contains_str;
use crate::strutil::strs_view;

verus! {

/// The name of the sidecar file inside each project directory.
pub const PROJECT_FILE: &'static str = ".project.json";

/// The orders in which the project list can be handed out.
pub enum SortOrder {
    Creation,
    AccessTime,
    Name,
}

/// A path below the store's root: `root/name`.
pub open spec fn joined(root: Seq<char>, name: Seq<char>) -> Seq<char> {
    root + seq!['/'] + name
}

/// The sidecar file's path inside the directory `dir`.
pub open spec fn sidecar_in(dir: Seq<char>) -> Seq<char> {
    dir + seq!['/'] + ".project.json"@
}

/// Merging `ts` into the index `acc`: each tag not yet present is
/// appended, in order of first appearance.
pub open spec fn merge_tags(acc: Seq<Seq<char>>, ts: Seq<Seq<char>>) -> Seq<Seq<char>>
    decreases ts.len(),
{
    if ts.len() == 0 {
        acc
    } else {
        merge_tags(
            if acc.contains(ts[0]) {
                acc
            } else {
                acc.push(ts[0])
            },
            ts.drop_first(),
        )
    }
}

/// Merging never removes, never duplicates, and adds exactly the new
/// tags.
pub proof fn lemma_merge_tags_props(acc: Seq<Seq<char>>, ts: Seq<Seq<char>>)
    ensures
        distinct_seqs(acc) ==> distinct_seqs(merge_tags(acc, ts)),
        forall|x: Seq<char>|
            #[trigger] merge_tags(acc, ts).contains(x) <==> acc.contains(x) || ts.contains(x),
        acc.len() <= merge_tags(acc, ts).len(),
        forall|i: int| 0 <= i < acc.len() ==> #[trigger] merge_tags(acc, ts)[i] == acc[i],
    decreases ts.len(),
{
    if ts.len() == 0 {
        assert forall|x: Seq<char>| #[trigger] ts.contains(x) implies false by {
        }
    } else {
        let t0 = ts[0];
        let acc2 = if acc.contains(t0) {
            acc
        } else {
            acc.push(t0)
        };
        assert(distinct_seqs(acc) ==> distinct_seqs(acc2)) by {
            if distinct_seqs(acc) && !acc.contains(t0) {
                assert forall|i: int, j: int| 0 <= i < j < acc2.len() implies acc2[i] != acc2[j] by {
                    if j < acc.len() {
                    } else {
                        assert(acc2[j] == t0);
                        assert(acc2[i] == acc[i]);
                        if acc2[i] == t0 {
                            assert(acc.contains(t0));
                        }
                    }
                }
            }
        }
        lemma_merge_tags_props(acc2, ts.drop_first());
        assert forall|x: Seq<char>| #[trigger] merge_tags(acc, ts).contains(x) <==> acc.contains(x)
            || ts.contains(x) by {
            assert(merge_tags(acc, ts) == merge_tags(acc2, ts.drop_first()));
            assert(acc2.contains(x) <==> acc.contains(x) || x == t0) by {
                if acc2.contains(x) && acc2 != acc {
                    let k = choose|k: int| 0 <= k < acc2.len() && acc2[k] == x;
                    if k < acc.len() {
                        assert(acc.contains(x));
                    } else {
                        assert(x == t0);
                    }
                }
                if acc.contains(x) {
                    let k = choose|k: int| 0 <= k < acc.len() && acc[k] == x;
                    assert(acc2[k] == x);
                }
                if x == t0 && acc2 != acc {
                    assert(acc2[acc.len() as int] == t0);
                }
            }
            assert(ts.contains(x) <==> x == t0 || ts.drop_first().contains(x)) by {
                if ts.contains(x) {
                    let k = choose|k: int| 0 <= k < ts.len() && ts[k] == x;
                    if k > 0 {
                        assert(ts.drop_first()[k - 1] == x);
                    }
                }
                if ts.drop_first().contains(x) {
                    let k = choose|k: int|
                        0 <= k < ts.drop_first().len() && ts.drop_first()[k] == x;
                    assert(ts[k + 1] == x);
                }
            }
        }
    }
}

/// Merging one element at the end of the batch.
pub proof fn lemma_merge_tags_snoc(acc: Seq<Seq<char>>, ts: Seq<Seq<char>>, x: Seq<char>)
    ensures
        merge_tags(acc, ts.push(x)) == (if merge_tags(acc, ts).contains(x) {
            merge_tags(acc, ts)
        } else {
            merge_tags(acc, ts).push(x)
        }),
    decreases ts.len(),
{
    if ts.len() == 0 {
        assert(ts.push(x)[0] == x);
        assert(ts.push(x).drop_first() =~= Seq::<Seq<char>>::empty());
        let acc2 = if acc.contains(x) {
            acc
        } else {
            acc.push(x)
        };
        assert(merge_tags(acc, ts.push(x)) == merge_tags(acc2, ts.push(x).drop_first()));
        assert(merge_tags(acc2, ts.push(x).drop_first()) == acc2);
        assert(merge_tags(acc, ts) == acc);
    } else {
        assert(ts.push(x)[0] == ts[0]);
        assert(ts.push(x).drop_first() =~= ts.drop_first().push(x));
        let acc2 = if acc.contains(ts[0]) {
            acc
        } else {
            acc.push(ts[0])
        };
        assert(merge_tags(acc, ts) == merge_tags(acc2, ts.drop_first()));
        assert(merge_tags(acc, ts.push(x)) == merge_tags(acc2, ts.drop_first().push(x)));
        lemma_merge_tags_snoc(acc2, ts.drop_first(), x);
    }
}

/// Merges the tags of `ts` that the index `acc` lacks into `acc`.
pub fn merge_strings(acc: &mut Vec<String>, ts: &Vec<String>)
    ensures
        strs_view(final(acc)@) == merge_tags(strs_view(old(acc)@), strs_view(ts@)),
{
    let mut i: usize = 0;
    while i < ts.len()
        invariant
            i <= ts@.len(),
            strs_view(acc@) == merge_tags(strs_view(old(acc)@), strs_view(ts@).take(i as int)),
        decreases ts@.len() - i,
    {
        let ghost pre = strs_view(acc@);
        proof {
            assert(strs_view(ts@)[i as int] == ts@[i as int]@);
        }
        if !contains_str(acc, &ts[i]) {
            acc.push(ts[i].clone());
            proof {
                assert(strs_view(acc@) =~= pre.push(ts@[i as int]@));
            }
        }
        i = i + 1;
        proof {
            lemma_merge_tags_snoc(
                strs_view(old(acc)@),
                strs_view(ts@).take(i - 1),
                strs_view(ts@)[i - 1],
            );
            assert(strs_view(ts@).take(i as int) =~= strs_view(ts@).take(i - 1).push(
                strs_view(ts@)[i - 1],
            ));
        }
    }
    proof {
        assert(strs_view(ts@).take(ts@.len() as int) =~= strs_view(ts@));
    }
}

/// A directory's own timestamps, where the filesystem offers them; they
/// stand in for sidecar fields that are absent.
#[derive(Clone, Copy)]
pub struct DirTimes {
    pub created: Option<u64>,
    pub accessed: Option<u64>,
}

/// What the driver observed about one project candidate: a child
/// directory of the root that contains a sidecar file.
pub struct CandidateEntry {
    /// The directory's name, or nothing when it is not valid UTF-8.
    pub name: Option<String>,
    /// The sidecar file's text, or the text of the read error.
    pub data: Result<String, String>,
    /// The directory's timestamps, or the text of the metadata error.
    pub meta: Result<DirTimes, String>,
}

/// One observation of the scan of the root directory.
pub enum ScanEntry {
    /// An entry that could not be enumerated at all.
    Faulty(String),
    /// A project candidate with everything read about it.
    Candidate(CandidateEntry),
}

/// A candidate loads successfully when its name is UTF-8, its sidecar
/// file was read, the text matches the sidecar grammar, and the
/// directory metadata was read.
pub open spec fn cand_ok(c: CandidateEntry) -> bool {
    &&& c.data is Ok
    &&& c.name is Some
    &&& crate::codec::spec_parse_sidecar(c.data->Ok_0@) is Some
    &&& c.meta is Ok
}

/// The kind of the error recorded for a failed candidate, following the
/// order in which the checks run: directory metadata first, then the
/// directory's name, then the sidecar file.
pub open spec fn cand_err_typ(c: CandidateEntry) -> ProjectErrorTypes {
    if c.meta is Err {
        ProjectErrorTypes::DirectoryRead
    } else if c.name is None {
        ProjectErrorTypes::DirectoryRead
    } else if c.data is Err {
        ProjectErrorTypes::ProjectRead
    } else {
        ProjectErrorTypes::ProjectRead
    }
}

/// The message recorded for a failed candidate: the paths involved,
/// then the underlying error's own text.
pub open spec fn cand_err_msg(root: Seq<char>, c: CandidateEntry) -> Seq<char> {
    if c.meta is Err {
        "couldn't read directory metadata under "@ + root + ": "@ + c.meta->Err_0@
    } else if c.name is None {
        "non-UTF-8 project directory names are not supported under "@ + root
    } else if c.data is Err {
        "couldn't read the sidecar file "@ + sidecar_in(joined(root, c.name->0@)) + ": "@
            + c.data->Err_0@
    } else {
        "broken sidecar file "@ + sidecar_in(joined(root, c.name->0@))
    }
}

pub open spec fn entry_err_msg(root: Seq<char>, e: ScanEntry) -> Seq<char> {
    match e {
        ScanEntry::Faulty(m) => "couldn't read an entry of the root directory "@ + root + ": "@
            + m@,
        ScanEntry::Candidate(c) => cand_err_msg(root, c),
    }
}

pub open spec fn cand_model(c: CandidateEntry) -> crate::codec::SidecarModel {
    crate::codec::spec_parse_sidecar(c.data->Ok_0@)->0
}

/// The created time: the sidecar field, else the directory's creation
/// time, else the epoch.
pub open spec fn cand_created(c: CandidateEntry) -> u64 {
    match cand_model(c).created {
        Some(t) => t,
        None => match c.meta->Ok_0.created {
            Some(t) => t,
            None => 0,
        },
    }
}

/// The accessed time: the sidecar field, else the directory's access
/// time, else the created fallback.
pub open spec fn cand_accessed(c: CandidateEntry) -> u64 {
    match cand_model(c).accessed {
        Some(t) => t,
        None => match c.meta->Ok_0.accessed {
            Some(t) => t,
            None => match c.meta->Ok_0.created {
                Some(t) => t,
                None => 0,
            },
        },
    }
}

/// The project a successful candidate loads as.
pub open spec fn cand_view(c: CandidateEntry) -> crate::project::ProjectView {
    crate::project::ProjectView {
        name: c.name->0@,
        created: cand_created(c),
        accessed: cand_accessed(c),
        tags: merge_tags(Seq::empty(), cand_model(c).tags),
    }
}

pub open spec fn entry_ok(e: ScanEntry) -> bool {
    match e {
        ScanEntry::Faulty(_) => false,
        ScanEntry::Candidate(c) => cand_ok(c),
    }
}

pub open spec fn entry_err_typ(e: ScanEntry) -> ProjectErrorTypes {
    match e {
        ScanEntry::Faulty(_) => ProjectErrorTypes::DirectoryRead,
        ScanEntry::Candidate(c) => cand_err_typ(c),
    }
}

pub open spec fn entry_view(e: ScanEntry) -> crate::project::ProjectView {
    match e {
        ScanEntry::Faulty(_) => crate::project::ProjectView {
            name: Seq::empty(),
            created: 0,
            accessed: 0,
            tags: Seq::empty(),
        },
        ScanEntry::Candidate(c) => cand_view(c),
    }
}

/// The projects that a scan loads, in scan order.
pub open spec fn loaded_views(es: Seq<ScanEntry>) -> Seq<crate::project::ProjectView>
    decreases es.len(),
{
    if es.len() == 0 {
        Seq::empty()
    } else {
        loaded_views(es.drop_last()) + (if entry_ok(es.last()) {
            seq![entry_view(es.last())]
        } else {
            Seq::empty()
        })
    }
}

/// The kinds of the errors that a scan records, in scan order.
pub open spec fn load_err_typs(es: Seq<ScanEntry>) -> Seq<ProjectErrorTypes>
    decreases es.len(),
{
    if es.len() == 0 {
        Seq::empty()
    } else {
        load_err_typs(es.drop_last()) + (if entry_ok(es.last()) {
            Seq::empty()
        } else {
            seq![entry_err_typ(es.last())]
        })
    }
}

/// The messages of the errors that a scan records, in scan order.
pub open spec fn load_err_msgs(root: Seq<char>, es: Seq<ScanEntry>) -> Seq<Seq<char>>
    decreases es.len(),
{
    if es.len() == 0 {
        Seq::empty()
    } else {
        load_err_msgs(root, es.drop_last()) + (if entry_ok(es.last()) {
            Seq::empty()
        } else {
            seq![entry_err_msg(root, es.last())]
        })
    }
}

pub proof fn lemma_load_errs_len(root: Seq<char>, es: Seq<ScanEntry>)
    ensures
        load_err_msgs(root, es).len() == load_err_typs(es).len(),
    decreases es.len(),
{
    if es.len() > 0 {
        lemma_load_errs_len(root, es.drop_last());
    }
}

/// The tag index a scan builds: the union of the loaded projects' tags,
/// in order of first appearance.
pub open spec fn load_tags(es: Seq<ScanEntry>) -> Seq<Seq<char>>
    decreases es.len(),
{
    if es.len() == 0 {
        Seq::empty()
    } else {
        let p = load_tags(es.drop_last());
        if entry_ok(es.last()) {
            match es.last() {
                ScanEntry::Faulty(_) => p,
                ScanEntry::Candidate(c) => merge_tags(p, cand_model(c).tags),
            }
        } else {
            p
        }
    }
}

/// The views of a sequence of projects.
pub open spec fn projs_view(ps: Seq<Project>) -> Seq<crate::project::ProjectView> {
    ps.map_values(|p: Project| p@)
}

/// Lexicographic order on names, by code point.
pub open spec fn lex_le(x: Seq<char>, y: Seq<char>) -> bool
    decreases x.len(),
{
    if x.len() == 0 {
        true
    } else if y.len() == 0 {
        false
    } else if (x[0] as u32) < (y[0] as u32) {
        true
    } else if (x[0] as u32) > (y[0] as u32) {
        false
    } else {
        lex_le(x.drop_first(), y.drop_first())
    }
}

pub proof fn lemma_lex_le_total(x: Seq<char>, y: Seq<char>)
    ensures
        lex_le(x, y) || lex_le(y, x),
    decreases x.len(),
{
    if x.len() > 0 && y.len() > 0 && (x[0] as u32) == (y[0] as u32) {
        lemma_lex_le_total(x.drop_first(), y.drop_first());
    }
}

pub proof fn lemma_lex_le_trans(x: Seq<char>, y: Seq<char>, z: Seq<char>)
    requires
        lex_le(x, y),
        lex_le(y, z),
    ensures
        lex_le(x, z),
    decreases x.len(),
{
    if x.len() == 0 {
    } else {
        assert(y.len() > 0);
        assert(z.len() > 0);
        if (x[0] as u32) == (z[0] as u32) {
            assert((x[0] as u32) == (y[0] as u32));
            lemma_lex_le_trans(x.drop_first(), y.drop_first(), z.drop_first());
        }
    }
}

/// The order each listing uses: most recent first for the two time
/// orders, names ascending, with the name as the tie-break throughout.
pub open spec fn proj_le(
    order: SortOrder,
    a: crate::project::ProjectView,
    b: crate::project::ProjectView,
) -> bool {
    match order {
        SortOrder::Creation => b.created < a.created || (a.created == b.created && lex_le(
            a.name,
            b.name,
        )),
        SortOrder::AccessTime => b.accessed < a.accessed || (a.accessed == b.accessed && lex_le(
            a.name,
            b.name,
        )),
        SortOrder::Name => lex_le(a.name, b.name),
    }
}

pub proof fn lemma_proj_le_total(
    order: SortOrder,
    a: crate::project::ProjectView,
    b: crate::project::ProjectView,
)
    ensures
        proj_le(order, a, b) || proj_le(order, b, a),
{
    lemma_lex_le_total(a.name, b.name);
}

pub proof fn lemma_proj_le_trans(
    order: SortOrder,
    a: crate::project::ProjectView,
    b: crate::project::ProjectView,
    c: crate::project::ProjectView,
)
    requires
        proj_le(order, a, b),
        proj_le(order, b, c),
    ensures
        proj_le(order, a, c),
{
    match order {
        SortOrder::Creation => {
            if a.created == b.created && b.created == c.created {
                lemma_lex_le_trans(a.name, b.name, c.name);
            }
        },
        SortOrder::AccessTime => {
            if a.accessed == b.accessed && b.accessed == c.accessed {
                lemma_lex_le_trans(a.name, b.name, c.name);
            }
        },
        SortOrder::Name => {
            lemma_lex_le_trans(a.name, b.name, c.name);
        },
    }
}

/// Every pair of the listing stands in the chosen order.
pub open spec fn sorted_by(order: SortOrder, vs: Seq<crate::project::ProjectView>) -> bool {
    forall|i: int, j: int| 0 <= i < j < vs.len() ==> proj_le(order, vs[i], vs[j])
}

/// Compares two strings lexicographically by code point.
fn lex_le_str(x: &String, y: &String) -> (r: bool)
    ensures
        r == lex_le(x@, y@),
{
    let xv = crate::strutil::str_to_chars(x.as_str());
    let yv = crate::strutil::str_to_chars(y.as_str());
    let mut i: usize = 0;
    proof {
        assert(x@.skip(0) =~= x@);
        assert(y@.skip(0) =~= y@);
    }
    loop
        invariant
            i <= xv@.len(),
            i <= yv@.len(),
            xv@ == x@,
            yv@ == y@,
            lex_le(x@, y@) == lex_le(x@.skip(i as int), y@.skip(i as int)),
        decreases xv@.len() - i,
    {
        if i >= xv.len() {
            proof {
                assert(x@.skip(i as int).len() == 0);
            }
            return true;
        }
        if i >= yv.len() {
            proof {
                assert(y@.skip(i as int).len() == 0);
            }
            return false;
        }
        let cx = xv[i] as u32;
        let cy = yv[i] as u32;
        proof {
            assert(x@.skip(i as int)[0] == x@[i as int]);
            assert(y@.skip(i as int)[0] == y@[i as int]);
            assert(x@.skip(i as int).drop_first() =~= x@.skip(i + 1));
            assert(y@.skip(i as int).drop_first() =~= y@.skip(i + 1));
        }
        if cx < cy {
            return true;
        }
        if cx > cy {
            return false;
        }
        i = i + 1;
    }
}

/// Compares two projects under the chosen order.
fn proj_le_exec(order: &SortOrder, a: &Project, b: &Project) -> (r: bool)
    ensures
        r == proj_le(*order, a@, b@),
{
    match order {
        SortOrder::Creation => {
            if b.created_time() < a.created_time() {
                true
            } else if a.created_time() == b.created_time() {
                lex_le_str(a.get_name(), b.get_name())
            } else {
                false
            }
        },
        SortOrder::AccessTime => {
            if b.accessed_time() < a.accessed_time() {
                true
            } else if a.accessed_time() == b.accessed_time() {
                lex_le_str(a.get_name(), b.get_name())
            } else {
                false
            }
        },
        SortOrder::Name => lex_le_str(a.get_name(), b.get_name()),
    }
}

/// What the driver must do on disk to create a project: make the
/// directory, append the line to the gitignore file (best effort), and
/// write the sidecar file.
#[derive(Debug)]
pub struct CreateRequest {
    pub dir_path: String,
    pub gitignore_path: String,
    pub gitignore_line: String,
    pub sidecar_path: String,
    pub sidecar_content: String,
}

/// What the driver must do on disk to rename a project: rename the
/// directory.
#[derive(Debug)]
pub struct RenameRequest {
    pub src_path: String,
    pub dst_path: String,
}

/// A sidecar file write the driver must perform.
#[derive(Debug)]
pub struct PersistRequest {
    pub path: String,
    pub content: String,
}

/// The resolved command to run inside the project directory.
#[derive(Debug)]
pub struct ExecRequest {
    pub dir: String,
    pub argv: Vec<String>,
}

/// The store: the root path, the loaded projects, and the accumulated
/// tag index.
pub struct ProjectManager {
    root: String,
    projects: Vec<Project>,
    tags: Vec<String>,
}

impl ProjectManager {
    pub closed spec fn spec_root(self) -> Seq<char> {
        self.root@
    }

    pub closed spec fn spec_projects(self) -> Seq<Project> {
        self.projects@
    }

    pub closed spec fn spec_tags(self) -> Seq<Seq<char>> {
        strs_view(self.tags@)
    }

    /// Whether some loaded project bears this name.
    pub open spec fn has_name(self, n: Seq<char>) -> bool {
        exists|i: int|
            0 <= i < self.spec_projects().len() && #[trigger] self.spec_projects()[i]@.name == n
    }

    /// The tag index holds no duplicates and every project's tag list is
    /// itself duplicate-free.
    pub open spec fn wf(self) -> bool {
        &&& distinct_seqs(self.spec_tags())
        &&& forall|i: int|
            0 <= i < self.spec_projects().len() ==> (#[trigger] self.spec_projects()[i]).wf()
    }

    /// Every tag of every project stands in the index, except possibly
    /// tags drawn from `pending`: the accumulate-only index covers the
    /// union of the projects' tags, up to a batch whose merge is still
    /// owed.
    pub open spec fn index_covers_except(self, pending: Seq<Seq<char>>) -> bool {
        forall|i: int, t: Seq<char>|
            0 <= i < self.spec_projects().len() && (#[trigger] self.spec_projects()[i]@.tags.contains(
                t,
            )) ==> self.spec_tags().contains(t) || pending.contains(t)
    }

    /// The accumulate-only index covers the union of all projects'
    /// tags.  This holds after every completed operation; between a
    /// retag and the successful write that finishes it, the retagged
    /// project's new tags are still pending, as in `index_covers_except`.
    pub open spec fn index_covers(self) -> bool {
        self.index_covers_except(Seq::empty())
    }

    /// Builds the store from the outcome of scanning the root
    /// directory.  Never fails: a failed scan yields an empty store and
    /// one `DirectoryRead` error naming the root, and each entry that
    /// cannot be loaded is skipped with an error recorded, while the
    /// rest still load.
    pub fn load(root: String, scan: Result<Vec<ScanEntry>, String>) -> (r: (
        ProjectManager,
        Vec<ProjectError>,
    ))
        ensures
            r.0.spec_root() == root@,
            r.0.wf(),
            r.0.index_covers(),
            match scan {
                Result::Err(m) => r.0.spec_projects().len() == 0 && r.0.spec_tags() == Seq::<
                    Seq<char>,
                >::empty() && r.1@.len() == 1 && r.1@[0].typ == ProjectErrorTypes::DirectoryRead
                    && r.1@[0].msg@ == "couldn't read the root directory "@ + root@ + ": "@ + m@,
                Result::Ok(es) => {
                    &&& projs_view(r.0.spec_projects()) == loaded_views(es@)
                    &&& r.0.spec_tags() == load_tags(es@)
                    &&& r.1@.len() == load_err_typs(es@).len()
                    &&& forall|i: int|
                        0 <= i < r.1@.len() ==> r.1@[i].typ == load_err_typs(es@)[i]
                    &&& forall|i: int|
                        0 <= i < r.1@.len() ==> r.1@[i].msg@ == load_err_msgs(root@, es@)[i]
                },
            },
    {
        let ghost root_view = root@;
        let mut manager = ProjectManager { root, projects: Vec::new(), tags: Vec::new() };
        let mut errors: Vec<ProjectError> = Vec::new();
        proof {
            assert(strs_view(Seq::<String>::empty()) =~= Seq::<Seq<char>>::empty());
            assert(projs_view(Seq::<Project>::empty()) =~= Seq::<
                crate::project::ProjectView,
            >::empty());
        }
        let entries = match scan {
            Ok(es) => es,
            Err(e) => {
                let mut msg = "couldn't read the root directory ".to_owned();
                msg.append(manager.root.as_str());
                msg.append(": ");
                msg.append(e.as_str());
                errors.push(ProjectError { typ: ProjectErrorTypes::DirectoryRead, msg });
                return (manager, errors);
            },
        };
        let mut idx: usize = 0;
        while idx < entries.len()
            invariant
                idx <= entries@.len(),
                manager.spec_root() == root_view,
                manager.wf(),
                manager.index_covers(),
                projs_view(manager.spec_projects()) == loaded_views(entries@.take(idx as int)),
                manager.spec_tags() == load_tags(entries@.take(idx as int)),
                errors@.len() == load_err_typs(entries@.take(idx as int)).len(),
                errors@.len() == load_err_msgs(root_view, entries@.take(idx as int)).len(),
                forall|i: int|
                    0 <= i < errors@.len() ==> errors@[i].typ == load_err_typs(
                        entries@.take(idx as int),
                    )[i],
                forall|i: int|
                    0 <= i < errors@.len() ==> errors@[i].msg@ == load_err_msgs(
                        root_view,
                        entries@.take(idx as int),
                    )[i],
            decreases entries@.len() - idx,
        {
            let ghost pre_take = entries@.take(idx as int);
            let ghost cur = entries@[idx as int];
            proof {
                assert(entries@.take(idx + 1).drop_last() =~= pre_take);
                assert(entries@.take(idx + 1).last() == cur);
            }
            let ghost pre_views = projs_view(manager.spec_projects());
            let ghost pre_tags = manager.spec_tags();
            proof {
                assert forall|i: int, t: Seq<char>|
                    0 <= i < pre_views.len() && #[trigger] pre_views[i].tags.contains(t) implies
                pre_tags.contains(t) by {
                    assert(manager.spec_projects()[i]@ == pre_views[i]);
                }
            }
            match &entries[idx] {
                ScanEntry::Faulty(detail) => {
                    let mut msg = "couldn't read an entry of the root directory ".to_owned();
                    msg.append(manager.root.as_str());
                    msg.append(": ");
                    msg.append(detail.as_str());
                    proof {
                        assert(msg@ == entry_err_msg(root_view, cur));
                    }
                    errors.push(ProjectError { typ: ProjectErrorTypes::DirectoryRead, msg });
                },
                ScanEntry::Candidate(c) => {
                    match &c.meta {
                        Err(e) => {
                            let mut msg = "couldn't read directory metadata under ".to_owned();
                            msg.append(manager.root.as_str());
                            msg.append(": ");
                            msg.append(e.as_str());
                            proof {
                                assert(msg@ == entry_err_msg(root_view, cur));
                            }
                            errors.push(
                                ProjectError { typ: ProjectErrorTypes::DirectoryRead, msg },
                            );
                        },
                        Ok(times) => {
                            match &c.name {
                                None => {
                                    let mut msg =
                                        "non-UTF-8 project directory names are not supported under ".to_owned();
                                    msg.append(manager.root.as_str());
                                    proof {
                                        assert(msg@ == entry_err_msg(root_view, cur));
                                    }
                                    errors.push(
                                        ProjectError { typ: ProjectErrorTypes::DirectoryRead, msg },
                                    );
                                },
                                Some(name) => {
                                    match &c.data {
                                        Err(e) => {
                                            let sp = manager.sidecar_path(name.as_str());
                                            let mut msg =
                                                "couldn't read the sidecar file ".to_owned();
                                            msg.append(sp.as_str());
                                            msg.append(": ");
                                            msg.append(e.as_str());
                                            proof {
                                                assert(msg@ == entry_err_msg(root_view, cur));
                                            }
                                            errors.push(
                                                ProjectError {
                                                    typ: ProjectErrorTypes::ProjectRead,
                                                    msg,
                                                },
                                            );
                                        },
                                        Ok(data) => {
                                            match crate::codec::parse_sidecar(data.as_str()) {
                                                None => {
                                                    let sp = manager.sidecar_path(name.as_str());
                                                    let mut msg =
                                                        "broken sidecar file ".to_owned();
                                                    msg.append(sp.as_str());
                                                    proof {
                                                        assert(msg@ == entry_err_msg(
                                                            root_view,
                                                            cur,
                                                        ));
                                                    }
                                                    errors.push(
                                                        ProjectError {
                                                            typ: ProjectErrorTypes::ProjectRead,
                                                            msg,
                                                        },
                                                    );
                                                },
                                                Some(pd) => {
                                                    let created: u64 = match pd.created {
                                                        Some(t) => t,
                                                        None => match times.created {
                                                            Some(t) => t,
                                                            None => 0,
                                                        },
                                                    };
                                                    let accessed: u64 = match pd.accessed {
                                                        Some(t) => t,
                                                        None => match times.accessed {
                                                            Some(t) => t,
                                                            None => match times.created {
                                                                Some(t) => t,
                                                                None => 0,
                                                            },
                                                        },
                                                    };
                                                    merge_strings(&mut manager.tags, &pd.tags);
                                                    let mut ptags: Vec<String> = Vec::new();
                                                    proof {
                                                        assert(strs_view(Seq::<String>::empty())
                                                            =~= Seq::<Seq<char>>::empty());
                                                    }
                                                    merge_strings(&mut ptags, &pd.tags);
                                                    proof {
                                                        lemma_merge_tags_props(
                                                            Seq::empty(),
                                                            strs_view(pd.tags@),
                                                        );
                                                        lemma_merge_tags_props(
                                                            pre_tags,
                                                            strs_view(pd.tags@),
                                                        );
                                                    }
                                                    let proj = Project::new(
                                                        name.clone(),
                                                        created,
                                                        accessed,
                                                        ptags,
                                                    );
                                                    manager.projects.push(proj);
                                                    proof {
                                                        assert(cand_ok(
                                                            cur->Candidate_0,
                                                        ));
                                                        assert(projs_view(
                                                            manager.spec_projects(),
                                                        ) =~= pre_views.push(entry_view(cur)));
                                                        assert forall|i: int, t: Seq<char>|
                                                            0 <= i < manager.spec_projects().len()
                                                                && (
                                                            #[trigger] manager.spec_projects()[i]@.tags.contains(
                                                                t,
                                                            )) implies manager.spec_tags().contains(
                                                            t,
                                                        ) || Seq::<Seq<char>>::empty().contains(
                                                            t,
                                                        ) by {
                                                            if i < pre_views.len() {
                                                                assert(manager.spec_projects()[i]@
                                                                    == pre_views[i]);
                                                                assert(pre_tags.contains(t));
                                                            } else {
                                                                assert(manager.spec_projects()[i]
                                                                    == proj);
                                                            }
                                                        }
                                                    }
                                                },
                                            }
                                        },
                                    }
                                },
                            }
                        },
                    }
                },
            }
            idx = idx + 1;
            proof {
                let t1 = entries@.take(idx as int);
                lemma_load_errs_len(root_view, t1);
                lemma_load_errs_len(root_view, pre_take);
                if entry_ok(cur) {
                    assert(projs_view(manager.spec_projects()) =~= loaded_views(t1));
                    assert(errors@.len() == load_err_typs(t1).len());
                } else {
                    assert(projs_view(manager.spec_projects()) =~= loaded_views(t1));
                    assert(errors@.len() == load_err_typs(t1).len());
                    assert(errors@[errors@.len() - 1].typ == entry_err_typ(cur));
                    assert(errors@[errors@.len() - 1].msg@ == entry_err_msg(root_view, cur));
                }
                assert forall|i: int| 0 <= i < errors@.len() implies errors@[i].typ
                    == load_err_typs(t1)[i] by {
                    if i < errors@.len() - 1 || entry_ok(cur) {
                        assert(load_err_typs(t1)[i] == load_err_typs(pre_take)[i]);
                    }
                }
                assert forall|i: int| 0 <= i < errors@.len() implies errors@[i].msg@
                    == load_err_msgs(root_view, t1)[i] by {
                    if i < errors@.len() - 1 || entry_ok(cur) {
                        assert(load_err_msgs(root_view, t1)[i] == load_err_msgs(
                            root_view,
                            pre_take,
                        )[i]);
                    }
                }
            }
        }
        proof {
            assert(entries@.take(entries@.len() as int) =~= entries@);
        }
        (manager, errors)
    }

    /// The directory of the project called `name`: `root/name`.  Pure
    /// path arithmetic, no I/O.
    pub fn get_path(&self, name: &str) -> (r: String)
        ensures
            r@ == joined(self.spec_root(), name@),
    {
        let mut p = self.root.clone();
        p.append("/");
        p.append(name);
        proof {
            reveal_strlit("/");
            assert("/"@ =~= seq!['/']);
        }
        p
    }

    /// A copy of the tag index; the caller may mutate it freely.  By
    /// `index_covers`, after every completed operation the index holds
    /// at least the union of all loaded projects' tags, and tags no
    /// project uses any more are never pruned.
    pub fn get_tags(&self) -> (r: Vec<String>)
        ensures
            strs_view(r@) == self.spec_tags(),
    {
        clone_strings(&self.tags)
    }

    /// Records one tag in the index.
    pub fn insert_tag(&mut self, tag: String)
        ensures
            final(self).spec_root() == old(self).spec_root(),
            final(self).spec_projects() == old(self).spec_projects(),
            final(self).spec_tags() == merge_tags(old(self).spec_tags(), seq![tag@]),
            old(self).wf() ==> final(self).wf(),
            old(self).index_covers() ==> final(self).index_covers(),
    {
        let ghost pre = strs_view(self.tags@);
        proof {
            assert(seq![tag@][0] == tag@);
            assert(seq![tag@].drop_first() =~= Seq::<Seq<char>>::empty());
            assert(merge_tags(pre, seq![tag@]) == merge_tags(
                if pre.contains(tag@) {
                    pre
                } else {
                    pre.push(tag@)
                },
                seq![tag@].drop_first(),
            ));
            assert(merge_tags(pre, seq![tag@]) == (if pre.contains(tag@) {
                pre
            } else {
                pre.push(tag@)
            }));
            if old(self).wf() {
                lemma_merge_tags_props(pre, seq![tag@]);
            }
        }
        if !contains_str(&self.tags, &tag) {
            self.tags.push(tag);
            proof {
                assert(strs_view(self.tags@) =~= pre.push(tag@));
            }
        }
        proof {
            if old(self).index_covers() {
                assert forall|i: int, t: Seq<char>|
                    0 <= i < self.spec_projects().len() && (
                #[trigger] self.spec_projects()[i]@.tags.contains(t)) implies
                self.spec_tags().contains(t) || Seq::<Seq<char>>::empty().contains(t) by {
                    assert(self.spec_projects()[i] == old(self).spec_projects()[i]);
                    assert(pre.contains(t));
                    let k = choose|k: int| 0 <= k < pre.len() && pre[k] == t;
                    assert(self.spec_tags()[k] == t);
                }
            }
        }
    }

    /// A copy of the project list, sorted for display: a permutation of
    /// the loaded projects in which every pair stands in the chosen
    /// order.
    pub fn get_projects(&self, order: SortOrder) -> (r: Vec<Project>)
        ensures
            projs_view(r@).to_multiset() == projs_view(self.spec_projects()).to_multiset(),
            sorted_by(order, projs_view(r@)),
    {
        broadcast use vstd::seq_lib::group_to_multiset_ensures;
        broadcast use vstd::multiset::group_multiset_axioms;

        let mut scratch: Vec<Project> = Vec::new();
        let mut i: usize = 0;
        while i < self.projects.len()
            invariant
                i <= self.spec_projects().len(),
                projs_view(scratch@) == projs_view(self.spec_projects()).take(i as int),
            decreases self.spec_projects().len() - i,
        {
            let ghost pre = projs_view(scratch@);
            scratch.push(self.projects[i].duplicate());
            i = i + 1;
            proof {
                assert(projs_view(scratch@) =~= pre.push(self.spec_projects()[i - 1]@));
                assert(projs_view(self.spec_projects()).take(i as int) =~= projs_view(
                    self.spec_projects(),
                ).take(i - 1).push(self.spec_projects()[i - 1]@));
            }
        }
        proof {
            assert(projs_view(self.spec_projects()).take(self.spec_projects().len() as int)
                =~= projs_view(self.spec_projects()));
        }
        let mut out: Vec<Project> = Vec::new();
        proof {
            assert(projs_view(Seq::<Project>::empty()) =~= Seq::<
                crate::project::ProjectView,
            >::empty());
            assert(projs_view(out@).to_multiset().add(projs_view(scratch@).to_multiset())
                =~= projs_view(self.spec_projects()).to_multiset());
        }
        while scratch.len() > 0
            invariant
                sorted_by(order, projs_view(out@)),
                forall|a: int, b: int|
                    0 <= a < out@.len() && 0 <= b < scratch@.len() ==> proj_le(
                        order,
                        projs_view(out@)[a],
                        projs_view(scratch@)[b],
                    ),
                projs_view(out@).to_multiset().add(projs_view(scratch@).to_multiset())
                    == projs_view(self.spec_projects()).to_multiset(),
            decreases scratch@.len(),
        {
            let mut m: usize = 0;
            let mut k: usize = 1;
            proof {
                assert(projs_view(scratch@)[0] == scratch@[0]@);
                lemma_proj_le_total(order, scratch@[0]@, scratch@[0]@);
            }
            while k < scratch.len()
                invariant
                    m < k <= scratch@.len() || (m == 0 && k == 1 && scratch@.len() >= 1),
                    m < scratch@.len(),
                    forall|t: int|
                        0 <= t < k ==> proj_le(
                            order,
                            projs_view(scratch@)[m as int],
                            #[trigger] projs_view(scratch@)[t],
                        ),
                decreases scratch@.len() - k,
            {
                proof {
                    assert(projs_view(scratch@)[m as int] == scratch@[m as int]@);
                    assert(projs_view(scratch@)[k as int] == scratch@[k as int]@);
                }
                if !proj_le_exec(&order, &scratch[m], &scratch[k]) {
                    proof {
                        lemma_proj_le_total(order, scratch@[m as int]@, scratch@[k as int]@);
                        assert forall|t: int| 0 <= t < k + 1 implies proj_le(
                            order,
                            projs_view(scratch@)[k as int],
                            #[trigger] projs_view(scratch@)[t],
                        ) by {
                            assert(projs_view(scratch@)[t] == scratch@[t]@);
                            if t < k {
                                assert(proj_le(order, scratch@[m as int]@, scratch@[t]@));
                                lemma_proj_le_trans(
                                    order,
                                    scratch@[k as int]@,
                                    scratch@[m as int]@,
                                    scratch@[t]@,
                                );
                            } else {
                                lemma_proj_le_total(order, scratch@[k as int]@, scratch@[k as int]@);
                            }
                        }
                    }
                    m = k;
                } else {
                    proof {
                        assert(proj_le(order, projs_view(scratch@)[m as int], projs_view(scratch@)[k as int]));
                    }
                }
                k = k + 1;
            }
            let ghost pre_scratch = projs_view(scratch@);
            let ghost pre_out = projs_view(out@);
            let p = scratch.remove(m);
            out.push(p);
            proof {
                assert(projs_view(scratch@) =~= pre_scratch.remove(m as int));
                assert(projs_view(out@) =~= pre_out.push(pre_scratch[m as int]));
                assert(m < pre_scratch.len());
                to_multiset_build(pre_out, pre_scratch[m as int]);
                to_multiset_remove(pre_scratch, m as int);
                assert(pre_scratch.contains(pre_scratch[m as int]));
                to_multiset_contains(pre_scratch, pre_scratch[m as int]);
                assert(pre_scratch.to_multiset().contains(pre_scratch[m as int]));
                assert(projs_view(out@).to_multiset().add(projs_view(scratch@).to_multiset())
                    =~= pre_out.to_multiset().add(pre_scratch.to_multiset()));
                assert forall|a: int, b: int|
                    0 <= a < out@.len() && 0 <= b < scratch@.len() implies proj_le(
                    order,
                    projs_view(out@)[a],
                    projs_view(scratch@)[b],
                ) by {
                    let sb = if b < m {
                        b
                    } else {
                        b + 1
                    };
                    assert(projs_view(scratch@)[b] == pre_scratch[sb]);
                    if a < pre_out.len() {
                        assert(projs_view(out@)[a] == pre_out[a]);
                    } else {
                        assert(projs_view(out@)[a] == pre_scratch[m as int]);
                    }
                }
            }
        }
        proof {
            assert(projs_view(scratch@).to_multiset() =~= Multiset::<
                crate::project::ProjectView,
            >::empty());
            assert(projs_view(out@).to_multiset() =~= projs_view(
                self.spec_projects(),
            ).to_multiset());
        }
        out
    }

    /// The first position holding a project of this name.
    fn find_pos(&self, name: &String) -> (r: Option<usize>)
        ensures
            match r {
                Some(j) => j < self.spec_projects().len() && self.spec_projects()[j as int]@.name
                    == name@ && forall|k: int|
                    0 <= k < j ==> (#[trigger] self.spec_projects()[k])@.name != name@,
                None => !self.has_name(name@),
            },
    {
        let mut i: usize = 0;
        while i < self.projects.len()
            invariant
                i <= self.spec_projects().len(),
                forall|k: int|
                    0 <= k < i ==> (#[trigger] self.spec_projects()[k])@.name != name@,
            decreases self.spec_projects().len() - i,
        {
            if self.projects[i].get_name().eq(name) {
                return Some(i);
            }
            i = i + 1;
        }
        None
    }

    /// The project called `name`, open for mutation in place, or a
    /// `NonExistingProject` error.
    pub fn get_mut_project(&mut self, name: &str) -> (r: Result<&mut Project, ProjectError>)
        ensures
            match r {
                Ok(p) => {
                    &&& old(self).has_name(name@)
                    &&& (*p)@.name == name@
                    &&& exists|j: int|
                        {
                            &&& 0 <= j < old(self).spec_projects().len()
                            &&& (#[trigger] old(self).spec_projects()[j])@.name == name@
                            &&& *p == old(self).spec_projects()[j]
                            &&& final(self).spec_projects() == old(self).spec_projects().update(
                                j,
                                *final(p),
                            )
                        }
                    &&& final(self).spec_root() == old(self).spec_root()
                    &&& final(self).spec_tags() == old(self).spec_tags()
                },
                Err(e) => {
                    &&& e.typ == ProjectErrorTypes::NonExistingProject
                    &&& e.msg@ == "no project named "@ + name@
                    &&& !old(self).has_name(name@)
                    &&& *final(self) == *old(self)
                },
            },
    {
        let key = name.to_owned();
        match self.find_pos(&key) {
            Some(j) => {
                let p = &mut self.projects[j];
                Ok(p)
            },
            None => Err(
                ProjectError::new(ProjectErrorTypes::NonExistingProject, "no project named ", name),
            ),
        }
    }

    /// The sidecar file's path for the project called `name`.
    fn sidecar_path(&self, name: &str) -> (r: String)
        ensures
            r@ == sidecar_in(joined(self.spec_root(), name@)),
    {
        let mut p = self.get_path(name);
        p.append("/");
        p.append(PROJECT_FILE);
        proof {
            reveal_strlit("/");
            assert("/"@ =~= seq!['/']);
        }
        p
    }

    /// Begins creating a project: refuses a name that is already taken,
    /// and otherwise says what must be written where.  The directory is
    /// created if absent; a failure of the gitignore step must not
    /// abort the creation.
    pub fn create(&self, name: &String, tags: &Vec<String>, now: u64) -> (r: Result<
        CreateRequest,
        ProjectError,
    >)
        ensures
            match r {
                Ok(req) => {
                    &&& !self.has_name(name@)
                    &&& req.dir_path@ == joined(self.spec_root(), name@)
                    &&& req.gitignore_path@ == joined(self.spec_root(), name@) + seq!['/']
                        + ".gitignore"@
                    &&& req.gitignore_line@ == ".project.json"@
                    &&& req.sidecar_path@ == sidecar_in(joined(self.spec_root(), name@))
                    &&& req.sidecar_content@ == crate::codec::spec_encode_sidecar(
                        now,
                        now,
                        merge_tags(Seq::empty(), strs_view(tags@)),
                    )
                },
                Err(e) => e.typ == ProjectErrorTypes::ProjectWrite && e.msg@
                    == "a project already exists with the name "@ + name@ && self.has_name(name@),
            },
    {
        if self.find_pos(name).is_some() {
            return Err(
                ProjectError::new(
                    ProjectErrorTypes::ProjectWrite,
                    "a project already exists with the name ",
                    name.as_str(),
                ),
            );
        }
        let dir_path = self.get_path(name.as_str());
        let mut gitignore_path = dir_path.clone();
        gitignore_path.append("/");
        gitignore_path.append(".gitignore");
        proof {
            reveal_strlit("/");
            assert("/"@ =~= seq!['/']);
        }
        let sidecar_path = self.sidecar_path(name.as_str());
        let mut ptags: Vec<String> = Vec::new();
        proof {
            assert(strs_view(Seq::<String>::empty()) =~= Seq::<Seq<char>>::empty());
        }
        merge_strings(&mut ptags, tags);
        let sidecar_content = crate::codec::encode_sidecar(now, now, &ptags);
        Ok(
            CreateRequest {
                dir_path,
                gitignore_path,
                gitignore_line: PROJECT_FILE.to_owned(),
                sidecar_path,
                sidecar_content,
            },
        )
    }

    /// Finishes creating a project once the driver has written (or
    /// failed to write) the sidecar file.  The tags are merged into the
    /// index in either case, as creation merged them before persisting;
    /// the project joins the collection only when the write succeeded.
    pub fn create_finish(
        &mut self,
        name: String,
        tags: &Vec<String>,
        now: u64,
        written: Result<(), String>,
    ) -> (r: Result<(), ProjectError>)
        ensures
            final(self).spec_root() == old(self).spec_root(),
            final(self).spec_tags() == merge_tags(old(self).spec_tags(), strs_view(tags@)),
            old(self).wf() ==> final(self).wf(),
            old(self).index_covers() ==> final(self).index_covers(),
            match written {
                Ok(_) => r is Ok && projs_view(final(self).spec_projects()) == projs_view(
                    old(self).spec_projects(),
                ).push(
                    crate::project::ProjectView {
                        name: name@,
                        created: now,
                        accessed: now,
                        tags: merge_tags(Seq::empty(), strs_view(tags@)),
                    },
                ),
Err(_) => r is Err && r->Err_0.typ == ProjectErrorTypes::ProjectWrite
                    && r->Err_0.msg@ == "couldn't write the project's sidecar file: "@
                    + written->Err_0@ && final(self).spec_projects() == old(self).spec_projects(),
            },
    {
        merge_strings(&mut self.tags, tags);
        proof {
            lemma_merge_tags_props(old(self).spec_tags(), strs_view(tags@));
        }
        match written {
            Ok(_) => {
                let mut ptags: Vec<String> = Vec::new();
                proof {
                    assert(strs_view(Seq::<String>::empty()) =~= Seq::<Seq<char>>::empty());
                }
                merge_strings(&mut ptags, tags);
                proof {
                    lemma_merge_tags_props(Seq::empty(), strs_view(tags@));
                }
                let ghost pre = projs_view(self.spec_projects());
                let proj = Project::new(name, now, now, ptags);
                self.projects.push(proj);
                proof {
                    assert(projs_view(self.spec_projects()) =~= pre.push(
                        crate::project::ProjectView {
                            name: name@,
                            created: now,
                            accessed: now,
                            tags: merge_tags(Seq::empty(), strs_view(tags@)),
                        },
                    ));
                    if old(self).wf() {
                        assert forall|i: int|
                            0 <= i < self.spec_projects().len() implies (
                        #[trigger] self.spec_projects()[i]).wf() by {
                            if i < old(self).spec_projects().len() {
                                assert(self.spec_projects()[i] == old(self).spec_projects()[i]);
                            } else {
                                assert(self.spec_projects()[i] == proj);
                            }
                        }
                    }
                    if old(self).index_covers() {
                        assert forall|i: int, t: Seq<char>|
                            0 <= i < self.spec_projects().len() && (
                        #[trigger] self.spec_projects()[i]@.tags.contains(t)) implies
                        self.spec_tags().contains(t) || Seq::<Seq<char>>::empty().contains(t) by {
                            if i < old(self).spec_projects().len() {
                                assert(self.spec_projects()[i] == old(self).spec_projects()[i]);
                                assert(old(self).spec_tags().contains(t));
                            } else {
                                assert(self.spec_projects()[i] == proj);
                            }
                        }
                    }
                }
                Ok(())
            },
            Err(m) => {
                proof {
                    if old(self).index_covers() {
                        assert forall|i: int, t: Seq<char>|
                            0 <= i < self.spec_projects().len() && (
                        #[trigger] self.spec_projects()[i]@.tags.contains(t)) implies
                        self.spec_tags().contains(t) || Seq::<Seq<char>>::empty().contains(t) by {
                            assert(self.spec_projects()[i] == old(self).spec_projects()[i]);
                            assert(old(self).spec_tags().contains(t));
                        }
                    }
                }
                Err(
                    ProjectError::new(
                        ProjectErrorTypes::ProjectWrite,
                        "couldn't write the project's sidecar file: ",
                        m.as_str(),
                    ),
                )
            },
        }
    }

    /// Begins renaming a project: refuses when a directory already
    /// stands at the destination, then when the source project does not
    /// exist; otherwise says which directory must move where.
    pub fn rename(&self, src: &str, dst: &str, dst_exists: bool) -> (r: Result<
        RenameRequest,
        ProjectError,
    >)
        ensures
            match r {
                Ok(req) => {
                    &&& !dst_exists
                    &&& self.has_name(src@)
                    &&& req.src_path@ == joined(self.spec_root(), src@)
                    &&& req.dst_path@ == joined(self.spec_root(), dst@)
                },
                Err(e) => (dst_exists && e.typ == ProjectErrorTypes::DirectoryWrite && e.msg@
                    == "a directory already exists with the name "@ + dst@) || (!dst_exists
                    && !self.has_name(src@) && e.typ == ProjectErrorTypes::NonExistingProject
                    && e.msg@ == "no project named "@ + src@),
            },
    {
        if dst_exists {
            return Err(
                ProjectError::new(
                    ProjectErrorTypes::DirectoryWrite,
                    "a directory already exists with the name ",
                    dst,
                ),
            );
        }
        let key = src.to_owned();
        if self.find_pos(&key).is_none() {
            return Err(
                ProjectError::new(ProjectErrorTypes::NonExistingProject, "no project named ", src),
            );
        }
        Ok(RenameRequest { src_path: self.get_path(src), dst_path: self.get_path(dst) })
    }

    /// Finishes a rename once the driver has moved (or failed to move)
    /// the directory.  Only after a successful move is the in-memory
    /// name changed and the access time refreshed, so a failed move
    /// leaves the store untouched; the returned write makes the refresh
    /// durable.
    pub fn rename_finish(&mut self, src: &str, dst: &str, now: u64, renamed: Result<(), String>)
        -> (r: Result<PersistRequest, ProjectError>)
        ensures
            final(self).spec_root() == old(self).spec_root(),
            final(self).spec_tags() == old(self).spec_tags(),
            old(self).wf() ==> final(self).wf(),
            old(self).index_covers() ==> final(self).index_covers(),
            match r {
                Ok(req) => {
                    &&& renamed is Ok
                    &&& old(self).has_name(src@)
                    &&& req.path@ == sidecar_in(joined(old(self).spec_root(), dst@))
                    &&& exists|j: int|
                        {
                            &&& 0 <= j < old(self).spec_projects().len()
                            &&& (#[trigger] old(self).spec_projects()[j])@.name == src@
                            &&& projs_view(final(self).spec_projects()) == projs_view(
                                old(self).spec_projects(),
                            ).update(
                                j,
                                crate::project::ProjectView {
                                    name: dst@,
                                    created: old(self).spec_projects()[j]@.created,
                                    accessed: now,
                                    tags: old(self).spec_projects()[j]@.tags,
                                },
                            )
                            &&& req.content@ == crate::codec::spec_encode_sidecar(
                                old(self).spec_projects()[j]@.created,
                                now,
                                old(self).spec_projects()[j]@.tags,
                            )
                        }
                },
                Err(e) => {
                    &&& *final(self) == *old(self)
                    &&& ((renamed is Err && e.typ == ProjectErrorTypes::ProjectWrite && e.msg@
                        == "couldn't rename "@ + joined(old(self).spec_root(), src@) + " to "@
                        + joined(old(self).spec_root(), dst@) + ": "@ + renamed->Err_0@) || (
                    renamed is Ok && !old(self).has_name(src@) && e.typ
                        == ProjectErrorTypes::NonExistingProject && e.msg@ == "no project named "@
                        + src@))
                },
            },
    {
        match renamed {
            Err(m) => {
                let sp = self.get_path(src);
                let dp = self.get_path(dst);
                let mut msg = "couldn't rename ".to_owned();
                msg.append(sp.as_str());
                msg.append(" to ");
                msg.append(dp.as_str());
                msg.append(": ");
                msg.append(m.as_str());
                Err(ProjectError { typ: ProjectErrorTypes::ProjectWrite, msg })
            },
            Ok(_) => {
                let key = src.to_owned();
                match self.find_pos(&key) {
                    None => Err(
                        ProjectError::new(
                            ProjectErrorTypes::NonExistingProject,
                            "no project named ",
                            src,
                        ),
                    ),
                    Some(j) => {
                        let path = self.sidecar_path(dst);
                        let ghost pre = projs_view(self.spec_projects());
                        let mut p = self.projects.remove(j);
                        p.rename(dst.to_owned());
                        let content = p.save_data(now);
                        self.projects.insert(j, p);
                        proof {
                            assert(projs_view(self.spec_projects()) =~= pre.update(j as int, p@));
                            if old(self).index_covers() {
                                assert forall|i: int, t: Seq<char>|
                                    0 <= i < self.spec_projects().len() && (
                                #[trigger] self.spec_projects()[i]@.tags.contains(t)) implies
                                self.spec_tags().contains(t) || Seq::<Seq<char>>::empty().contains(
                                    t,
                                ) by {
                                    if i == j {
                                        assert(self.spec_projects()[i]@.tags == old(
                                            self,
                                        ).spec_projects()[j as int]@.tags);
                                        assert(old(self).spec_projects()[j as int]@.tags.contains(
                                            t,
                                        ));
                                    } else {
                                        assert(self.spec_projects()[i] == old(
                                            self,
                                        ).spec_projects()[i]);
                                    }
                                    assert(old(self).spec_tags().contains(t));
                                }
                            }
                        }
                        Ok(PersistRequest { path, content })
                    },
                }
            },
        }
    }

    /// Begins retagging a project: replaces its tag set wholesale,
    /// refreshes its access time, and says what must be written to make
    /// that durable.  The store-wide index is only merged once the
    /// write has succeeded.
    pub fn modify(&mut self, name: &str, tags: &Vec<String>, now: u64) -> (r: Result<
        PersistRequest,
        ProjectError,
    >)
        ensures
            final(self).spec_root() == old(self).spec_root(),
            final(self).spec_tags() == old(self).spec_tags(),
            old(self).wf() ==> final(self).wf(),
            old(self).index_covers() ==> final(self).index_covers_except(strs_view(tags@)),
            match r {
                Ok(req) => {
                    &&& old(self).has_name(name@)
                    &&& req.path@ == sidecar_in(joined(old(self).spec_root(), name@))
                    &&& exists|j: int|
                        {
                            &&& 0 <= j < old(self).spec_projects().len()
                            &&& (#[trigger] old(self).spec_projects()[j])@.name == name@
                            &&& projs_view(final(self).spec_projects()) == projs_view(
                                old(self).spec_projects(),
                            ).update(
                                j,
                                crate::project::ProjectView {
                                    name: old(self).spec_projects()[j]@.name,
                                    created: old(self).spec_projects()[j]@.created,
                                    accessed: now,
                                    tags: merge_tags(Seq::empty(), strs_view(tags@)),
                                },
                            )
                            &&& req.content@ == crate::codec::spec_encode_sidecar(
                                old(self).spec_projects()[j]@.created,
                                now,
                                merge_tags(Seq::empty(), strs_view(tags@)),
                            )
                        }
                },
                Err(e) => {
                    &&& *final(self) == *old(self)
                    &&& !old(self).has_name(name@)
                    &&& e.typ == ProjectErrorTypes::NonExistingProject
                    &&& e.msg@ == "no project named "@ + name@
                },
            },
    {
        let key = name.to_owned();
        match self.find_pos(&key) {
            None => Err(
                ProjectError::new(ProjectErrorTypes::NonExistingProject, "no project named ", name),
            ),
            Some(j) => {
                let path = self.sidecar_path(name);
                let mut ptags: Vec<String> = Vec::new();
                proof {
                    assert(strs_view(Seq::<String>::empty()) =~= Seq::<Seq<char>>::empty());
                }
                merge_strings(&mut ptags, tags);
                proof {
                    lemma_merge_tags_props(Seq::empty(), strs_view(tags@));
                }
                let ghost pre = projs_view(self.spec_projects());
                let mut p = self.projects.remove(j);
                p.modify(ptags);
                let content = p.save_data(now);
                self.projects.insert(j, p);
                proof {
                    assert(projs_view(self.spec_projects()) =~= pre.update(j as int, p@));
                    if old(self).index_covers() {
                        assert forall|i: int, t: Seq<char>|
                            0 <= i < self.spec_projects().len() && (
                        #[trigger] self.spec_projects()[i]@.tags.contains(t)) implies
                        self.spec_tags().contains(t) || strs_view(tags@).contains(t) by {
                            if i == j {
                                assert(self.spec_projects()[i]@.tags == merge_tags(
                                    Seq::empty(),
                                    strs_view(tags@),
                                ));
                            } else {
                                assert(self.spec_projects()[i] == old(self).spec_projects()[i]);
                                assert(old(self).spec_tags().contains(t));
                            }
                        }
                    }
                }
                Ok(PersistRequest { path, content })
            },
        }
    }

    /// Finishes a retag once the driver has written (or failed to
    /// write) the sidecar file: merges the new tags into the index on
    /// success.  Tags no project uses any more stay in the index.
    pub fn modify_finish(&mut self, tags: &Vec<String>, written: Result<(), String>) -> (r: Result<
        (),
        ProjectError,
    >)
        ensures
            final(self).spec_root() == old(self).spec_root(),
            final(self).spec_projects() == old(self).spec_projects(),
            old(self).wf() ==> final(self).wf(),
            match written {
                Ok(_) => r is Ok && final(self).spec_tags() == merge_tags(
                    old(self).spec_tags(),
                    strs_view(tags@),
                ) && (old(self).index_covers_except(strs_view(tags@)) ==> final(self).index_covers()),
                Err(_) => r is Err && r->Err_0.typ == ProjectErrorTypes::ProjectWrite
                    && r->Err_0.msg@ == "couldn't write the project's sidecar file: "@
                    + written->Err_0@ && final(self).spec_tags() == old(self).spec_tags(),
            },
    {
        match written {
            Ok(_) => {
                merge_strings(&mut self.tags, tags);
                proof {
                    lemma_merge_tags_props(old(self).spec_tags(), strs_view(tags@));
                    if old(self).wf() {
                        assert forall|i: int|
                            0 <= i < self.spec_projects().len() implies (
                        #[trigger] self.spec_projects()[i]).wf() by {
                            assert(self.spec_projects()[i] == old(self).spec_projects()[i]);
                        }
                    }
                    if old(self).index_covers_except(strs_view(tags@)) {
                        assert forall|i: int, t: Seq<char>|
                            0 <= i < self.spec_projects().len() && (
                        #[trigger] self.spec_projects()[i]@.tags.contains(t)) implies
                        self.spec_tags().contains(t) || Seq::<Seq<char>>::empty().contains(t) by {
                            assert(self.spec_projects()[i] == old(self).spec_projects()[i]);
                            assert(old(self).spec_tags().contains(t) || strs_view(tags@).contains(
                                t,
                            ));
                        }
                    }
                }
                Ok(())
            },
            Err(m) => Err(
                ProjectError::new(
                    ProjectErrorTypes::ProjectWrite,
                    "couldn't write the project's sidecar file: ",
                    m.as_str(),
                ),
            ),
        }
    }

    /// Refreshes the access time of the project about to be opened and
    /// says what must be written to make that durable, before the store
    /// is given up.
    pub fn exec_prepare(&mut self, name: &str, now: u64) -> (r: Result<
        PersistRequest,
        ProjectError,
    >)
        ensures
            final(self).spec_root() == old(self).spec_root(),
            final(self).spec_tags() == old(self).spec_tags(),
            old(self).wf() ==> final(self).wf(),
            old(self).index_covers() ==> final(self).index_covers(),
            match r {
                Ok(req) => {
                    &&& old(self).has_name(name@)
                    &&& req.path@ == sidecar_in(joined(old(self).spec_root(), name@))
                    &&& exists|j: int|
                        {
                            &&& 0 <= j < old(self).spec_projects().len()
                            &&& (#[trigger] old(self).spec_projects()[j])@.name == name@
                            &&& projs_view(final(self).spec_projects()) == projs_view(
                                old(self).spec_projects(),
                            ).update(
                                j,
                                crate::project::ProjectView {
                                    name: old(self).spec_projects()[j]@.name,
                                    created: old(self).spec_projects()[j]@.created,
                                    accessed: now,
                                    tags: old(self).spec_projects()[j]@.tags,
                                },
                            )
                            &&& req.content@ == crate::codec::spec_encode_sidecar(
                                old(self).spec_projects()[j]@.created,
                                now,
                                old(self).spec_projects()[j]@.tags,
                            )
                        }
                },
                Err(e) => {
                    &&& *final(self) == *old(self)
                    &&& !old(self).has_name(name@)
                    &&& e.typ == ProjectErrorTypes::NonExistingProject
                    &&& e.msg@ == "no project named "@ + name@
                },
            },
    {
        let key = name.to_owned();
        match self.find_pos(&key) {
            None => Err(
                ProjectError::new(ProjectErrorTypes::NonExistingProject, "no project named ", name),
            ),
            Some(j) => {
                let path = self.sidecar_path(name);
                let ghost pre = projs_view(self.spec_projects());
                let mut p = self.projects.remove(j);
                let content = p.save_data(now);
                self.projects.insert(j, p);
                proof {
                    assert(projs_view(self.spec_projects()) =~= pre.update(j as int, p@));
                    if old(self).index_covers() {
                        assert forall|i: int, t: Seq<char>|
                            0 <= i < self.spec_projects().len() && (
                        #[trigger] self.spec_projects()[i]@.tags.contains(t)) implies
                        self.spec_tags().contains(t) || Seq::<Seq<char>>::empty().contains(t) by {
                            if i == j {
                                assert(self.spec_projects()[i]@.tags == old(
                                    self,
                                ).spec_projects()[j as int]@.tags);
                                assert(old(self).spec_projects()[j as int]@.tags.contains(t));
                            } else {
                                assert(self.spec_projects()[i] == old(self).spec_projects()[i]);
                            }
                            assert(old(self).spec_tags().contains(t));
                        }
                    }
                }
                Ok(PersistRequest { path, content })
            },
        }
    }

    /// Resolves the command to run for opening a project and gives up
    /// the store: the collection is released before the driver blocks
    /// on the spawned child.  An empty command falls back to the
    /// default executor; every `{}` in the chosen command becomes the
    /// project path; the result splits on single spaces into the
    /// argument words.
    pub fn exec(self, name: &str, default_executor: String, cmd: &str) -> (r: Result<
        ExecRequest,
        ProjectError,
    >)
        ensures
            match r {
                Ok(req) => {
                    &&& self.has_name(name@)
                    &&& req.dir@ == joined(self.spec_root(), name@)
                    &&& strs_view(req.argv@) == crate::cmd::split_sp(
                        crate::cmd::subst(
                            if cmd@.len() == 0 {
                                default_executor@
                            } else {
                                cmd@
                            },
                            joined(self.spec_root(), name@),
                        ),
                    )
                    &&& req.argv@.len() >= 1
                },
                Err(e) => !self.has_name(name@) && e.typ
                    == ProjectErrorTypes::NonExistingProject && e.msg@ == "no project named "@
                    + name@,
            },
    {
        let key = name.to_owned();
        if self.find_pos(&key).is_none() {
            return Err(
                ProjectError::new(ProjectErrorTypes::NonExistingProject, "no project named ", name),
            );
        }
        let dir = self.get_path(name);
        let resolved = if cmd.is_empty() {
            crate::cmd::substitute(default_executor.as_str(), dir.as_str())
        } else {
            crate::cmd::substitute(cmd, dir.as_str())
        };
        let argv = crate::cmd::split_spaces(&resolved);
        Ok(ExecRequest { dir, argv })
    }
}

} // verus!
