//! Store-level laws that tie several operations together.

use vstd::prelude::*;

use crate::codec::spec_encode_sidecar;
use crate::project::distinct_seqs;
use crate::project::ProjectView;
use crate::store::cand_ok;
use crate::store::cand_view;
use crate::store::merge_tags;
use crate::store::proj_le;
use crate::store::sorted_by;
use crate::store::CandidateEntry;
use crate::store::SortOrder;

verus! {

/// Merging a duplicate-free batch that shares nothing with the index
/// appends it unchanged.
pub proof fn lemma_merge_disjoint(acc: Seq<Seq<char>>, ts: Seq<Seq<char>>)
    requires
        distinct_seqs(ts),
        forall|x: Seq<char>| ts.contains(x) ==> !acc.contains(x),
    ensures
        merge_tags(acc, ts) == acc + ts,
    decreases ts.len(),
{
    if ts.len() == 0 {
        assert(acc + ts =~= acc);
    } else {
        let t0 = ts[0];
        assert(ts.contains(t0));
        assert(!acc.contains(t0));
        let acc2 = acc.push(t0);
        assert(merge_tags(acc, ts) == merge_tags(acc2, ts.drop_first()));
        assert(distinct_seqs(ts.drop_first())) by {
            assert forall|i: int, j: int|
                0 <= i < j < ts.drop_first().len() implies ts.drop_first()[i] != ts.drop_first()[j]
            by {
                assert(ts.drop_first()[i] == ts[i + 1]);
                assert(ts.drop_first()[j] == ts[j + 1]);
            }
        }
        assert forall|x: Seq<char>| ts.drop_first().contains(x) implies !acc2.contains(x) by {
            let k = choose|k: int| 0 <= k < ts.drop_first().len() && ts.drop_first()[k] == x;
            assert(ts[k + 1] == x);
            assert(ts.contains(x));
            assert(x != t0);
            if acc2.contains(x) {
                let m = choose|m: int| 0 <= m < acc2.len() && acc2[m] == x;
                assert(m < acc.len());
                assert(acc.contains(x));
            }
        }
        lemma_merge_disjoint(acc2, ts.drop_first());
        assert(acc2 + ts.drop_first() =~= acc + ts);
    }
}

/// A duplicate-free tag list merges into an empty index as itself.
pub proof fn lemma_merge_into_empty(ts: Seq<Seq<char>>)
    requires
        distinct_seqs(ts),
    ensures
        merge_tags(Seq::empty(), ts) == ts,
{
    lemma_merge_disjoint(Seq::empty(), ts);
    assert(Seq::empty() + ts =~= ts);
}

/// Law: in an access-time listing, the project whose access time is
/// strictly the most recent stands first.  After a create, rename,
/// retag or open stamped later than every other project's access time,
/// that project heads the listing.
pub proof fn lemma_most_recent_first(vs: Seq<ProjectView>, k: int)
    requires
        sorted_by(SortOrder::AccessTime, vs),
        0 <= k < vs.len(),
        forall|i: int| 0 <= i < vs.len() && i != k ==> vs[i].accessed < vs[k].accessed,
    ensures
        vs[0] == vs[k],
{
    if k != 0 {
        assert(proj_le(SortOrder::AccessTime, vs[0], vs[k]));
        assert(vs[0].accessed < vs[k].accessed);
    }
}

/// Law: the sidecar file written when a project is persisted reads back
/// as the same project.  A later scan that finds the directory under
/// the same name, with that text in its sidecar file, loads a project
/// with the same name, creation time and tags, and with its access time
/// refreshed to the moment of the save.
pub proof fn lemma_save_reload(c: CandidateEntry, v: ProjectView, now: u64)
    requires
        distinct_seqs(v.tags),
        c.name is Some,
        c.name->0@ == v.name,
        c.data is Ok,
        c.data->Ok_0@ == spec_encode_sidecar(v.created, now, v.tags),
        c.meta is Ok,
    ensures
        cand_ok(c),
        cand_view(c) == (ProjectView {
            name: v.name,
            created: v.created,
            accessed: now,
            tags: v.tags,
        }),
{
    crate::codec::lemma_parse_encode(v.created, now, v.tags);
    lemma_merge_into_empty(v.tags);
}

} // verus!
