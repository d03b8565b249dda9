//! Tag autocompletion: suggests known tags that begin with what the
//! user has typed so far.

use vstd::prelude::*;

use crate::strutil::str_to_chars;
use crate::strutil::strs_view;

verus! {

/// What lowercasing a string yields; the result depends on the
/// characters alone.
pub uninterp spec fn lower_of(s: Seq<char>) -> Seq<char>;

/// Relies on `str::to_lowercase`: maps each character to its lowercase
/// form, a function of the input characters alone.
#[verifier::external_body]
fn lowercase(s: &str) -> (r: String)
    ensures
        r@ == lower_of(s@),
{
    s.to_lowercase()
}

/// `p` is an initial segment of `t`.
pub open spec fn is_prefix(p: Seq<char>, t: Seq<char>) -> bool {
    p.len() <= t.len() && t.take(p.len() as int) == p
}

/// The elements of `ts` that begin with `p`, in order.
pub open spec fn filter_prefix(ts: Seq<Seq<char>>, p: Seq<char>) -> Seq<Seq<char>>
    decreases ts.len(),
{
    if ts.len() == 0 {
        Seq::empty()
    } else {
        filter_prefix(ts.drop_last(), p) + (if is_prefix(p, ts.last()) {
            seq![ts.last()]
        } else {
            Seq::empty()
        })
    }
}

/// Whether the characters of `p` begin the string `t`.
fn has_prefix(t: &String, p: &Vec<char>) -> (r: bool)
    ensures
        r == is_prefix(p@, t@),
{
    let tv = str_to_chars(t.as_str());
    if p.len() > tv.len() {
        return false;
    }
    let mut k: usize = 0;
    while k < p.len()
        invariant
            k <= p@.len() <= tv@.len(),
            tv@ == t@,
            forall|m: int| 0 <= m < k ==> t@[m] == p@[m],
        decreases p@.len() - k,
    {
        if tv[k] != p[k] {
            proof {
                assert(t@.take(p@.len() as int)[k as int] == t@[k as int]);
            }
            return false;
        }
        k = k + 1;
    }
    proof {
        assert(t@.take(p@.len() as int) =~= p@);
    }
    true
}

/// Completes tag input from the set of tags the store knows.
pub struct Suggester {
    tags: Vec<String>,
}

impl Suggester {
    pub closed spec fn spec_tags(self) -> Seq<Seq<char>> {
        strs_view(self.tags@)
    }

    pub fn new(tags: Vec<String>) -> (r: Suggester)
        ensures
            r.spec_tags() == strs_view(tags@),
    {
        Suggester { tags }
    }

    /// The known tags that begin with the lowercased input, in the
    /// order the store listed them.
    pub fn get_suggestions(&self, input: &str) -> (r: Vec<String>)
        ensures
            strs_view(r@) == filter_prefix(self.spec_tags(), lower_of(input@)),
    {
        let low = lowercase(input);
        let lowv = str_to_chars(low.as_str());
        let mut out: Vec<String> = Vec::new();
        let mut i: usize = 0;
        proof {
            assert(strs_view(Seq::<String>::empty()) =~= Seq::<Seq<char>>::empty());
            assert(filter_prefix(self.spec_tags().take(0), lowv@) =~= Seq::<Seq<char>>::empty());
        }
        while i < self.tags.len()
            invariant
                i <= self.spec_tags().len(),
                lowv@ == lower_of(input@),
                strs_view(out@) == filter_prefix(self.spec_tags().take(i as int), lowv@),
            decreases self.spec_tags().len() - i,
        {
            let ghost pre = strs_view(out@);
            proof {
                assert(self.spec_tags()[i as int] == self.tags@[i as int]@);
                assert(self.spec_tags().take(i + 1).drop_last() =~= self.spec_tags().take(
                    i as int,
                ));
                assert(self.spec_tags().take(i + 1).last() == self.spec_tags()[i as int]);
            }
            if has_prefix(&self.tags[i], &lowv) {
                out.push(self.tags[i].clone());
                proof {
                    assert(strs_view(out@) =~= pre.push(self.spec_tags()[i as int]));
                    assert(strs_view(out@) =~= filter_prefix(
                        self.spec_tags().take(i + 1),
                        lowv@,
                    ));
                }
            } else {
                proof {
                    assert(strs_view(out@) =~= filter_prefix(
                        self.spec_tags().take(i + 1),
                        lowv@,
                    ));
                }
            }
            i = i + 1;
        }
        proof {
            assert(self.spec_tags().take(self.spec_tags().len() as int) =~= self.spec_tags());
        }
        out
    }
}

} // verus!
