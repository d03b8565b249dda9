//! Command-template resolution for opening a project: substituting the
//! project path for the placeholder token and splitting the command
//! into an argument list.

use vstd::prelude::*;

use crate::strutil::append_chars;
use crate::strutil::chars_to_string;
use crate::strutil::str_to_chars;
use crate::strutil::strs_view;

verus! {

/// The command with every `{}` replaced by the path `p`, left to right
/// and without overlap.
pub open spec fn subst(s: Seq<char>, p: Seq<char>) -> Seq<char>
    decreases s.len(),
{
    if s.len() >= 2 && s[0] == '{' && s[1] == '}' {
        p + subst(s.skip(2), p)
    } else if s.len() == 0 {
        Seq::empty()
    } else {
        seq![s[0]] + subst(s.drop_first(), p)
    }
}

/// Replaces every `{}` in `s` with `p`.
pub fn substitute(s: &str, p: &str) -> (r: String)
    ensures
        r@ == subst(s@, p@),
{
    let sv = str_to_chars(s);
    let pv = str_to_chars(p);
    let mut out: Vec<char> = Vec::new();
    let mut i: usize = 0;
    proof {
        assert(s@.skip(0) =~= s@);
    }
    while i < sv.len()
        invariant
            i <= sv@.len(),
            sv@ == s@,
            pv@ == p@,
            subst(s@, p@) == out@ + subst(s@.skip(i as int), p@),
        decreases sv@.len() - i,
    {
        let ghost rest = s@.skip(i as int);
        proof {
            assert(rest[0] == s@[i as int]);
            if i + 1 < sv@.len() {
                assert(rest[1] == s@[i + 1]);
            }
        }
        if i + 1 < sv.len() && sv[i] == '{' && sv[i + 1] == '}' {
            append_chars(&mut out, &pv);
            proof {
                assert(rest.skip(2) =~= s@.skip(i + 2));
                assert(subst(rest, p@) == p@ + subst(s@.skip(i + 2), p@));
                assert(out@ + subst(s@.skip(i + 2), p@) =~= subst(s@, p@));
            }
            i = i + 2;
        } else {
            out.push(sv[i]);
            proof {
                assert(rest.drop_first() =~= s@.skip(i + 1));
                assert(subst(rest, p@) == seq![s@[i as int]] + subst(s@.skip(i + 1), p@));
                assert(out@ + subst(s@.skip(i + 1), p@) =~= subst(s@, p@));
            }
            i = i + 1;
        }
    }
    proof {
        assert(s@.skip(s@.len() as int).len() == 0);
        assert(out@ + subst(s@.skip(s@.len() as int), p@) =~= out@);
    }
    chars_to_string(&out)
}

/// The first index at or after `i` holding a space, or the length.
pub open spec fn sp_end(s: Seq<char>, i: int) -> int
    decreases s.len() - i when 0 <= i <= s.len()
{
    if i < s.len() && s[i] != ' ' {
        sp_end(s, i + 1)
    } else {
        i
    }
}

pub proof fn lemma_sp_end_bounds(s: Seq<char>, i: int)
    requires
        0 <= i <= s.len(),
    ensures
        i <= sp_end(s, i) <= s.len(),
    decreases s.len() - i,
{
    if i < s.len() && s[i] != ' ' {
        lemma_sp_end_bounds(s, i + 1);
    }
}

/// The pieces of `s` from `i` on, split on single spaces; empty pieces
/// are kept.
pub open spec fn split_from(s: Seq<char>, i: int) -> Seq<Seq<char>>
    decreases s.len() - i when 0 <= i <= s.len() via split_from_dec
{
    let j = sp_end(s, i);
    if j >= s.len() {
        seq![s.subrange(i, s.len() as int)]
    } else {
        seq![s.subrange(i, j)] + split_from(s, j + 1)
    }
}

#[via_fn]
proof fn split_from_dec(s: Seq<char>, i: int) {
    if 0 <= i <= s.len() {
        lemma_sp_end_bounds(s, i);
    }
}

/// The command split on single spaces into its argument words.
pub open spec fn split_sp(s: Seq<char>) -> Seq<Seq<char>> {
    split_from(s, 0)
}

/// Splits a command on single spaces.
pub fn split_spaces(s: &String) -> (r: Vec<String>)
    ensures
        strs_view(r@) == split_sp(s@),
        r@.len() >= 1,
{
    let v = str_to_chars(s.as_str());
    let mut out: Vec<String> = Vec::new();
    let mut start: usize = 0;
    proof {
        assert(strs_view(Seq::<String>::empty()) =~= Seq::<Seq<char>>::empty());
        assert(strs_view(out@) + split_from(s@, 0) =~= split_from(s@, 0));
    }
    loop
        invariant
            start <= v@.len(),
            v@ == s@,
            split_sp(s@) == strs_view(out@) + split_from(s@, start as int),
        decreases v@.len() - start,
    {
        proof {
            lemma_sp_end_bounds(s@, start as int);
        }
        let mut j: usize = start;
        while j < v.len() && v[j] != ' '
            invariant
                start <= j <= v@.len(),
                v@ == s@,
                sp_end(s@, start as int) == sp_end(s@, j as int),
            decreases v@.len() - j,
        {
            j = j + 1;
        }
        let mut piece: Vec<char> = Vec::new();
        let mut t = start;
        while t < j
            invariant
                start <= t <= j <= v@.len(),
                v@ == s@,
                piece@ == s@.subrange(start as int, t as int),
            decreases j - t,
        {
            piece.push(v[t]);
            t = t + 1;
            proof {
                assert(piece@ =~= s@.subrange(start as int, t as int));
            }
        }
        let ghost pre = strs_view(out@);
        out.push(chars_to_string(&piece));
        proof {
            assert(strs_view(out@) =~= pre.push(piece@));
            assert(sp_end(s@, start as int) == j as int);
        }
        if j >= v.len() {
            proof {
                assert(piece@ == s@.subrange(start as int, s@.len() as int));
                assert(split_from(s@, start as int) == seq![piece@]);
                assert(pre.push(piece@) =~= pre + seq![piece@]);
                assert(strs_view(out@) =~= split_sp(s@));
            }
            return out;
        }
        proof {
            assert(split_from(s@, start as int) == seq![piece@] + split_from(s@, j + 1));
            assert(pre.push(piece@) + split_from(s@, j + 1) =~= pre + (seq![piece@] + split_from(
                s@,
                j + 1,
            )));
        }
        start = j + 1;
    }
}

} // verus!
