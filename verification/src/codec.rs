//! The sidecar file codec.
//!
//! A project's metadata is kept in a JSON object with up to three
//! members: `created` and `accessed` (decimal timestamps) and `tags` (an
//! array of strings).  The writer emits the three members in that fixed
//! order with no surrounding whitespace; the reader accepts the members
//! in any order, each at most once, with JSON whitespace between tokens,
//! and understands the two escapes `\"` and `\\` inside strings.  Both
//! directions are specified against the same grammar functions, and
//! feeding the writer's output back to the reader provably returns the
//! original fields.

use vstd::prelude::*;

use crate::num::dec_seq;
use crate::num::is_digit;
use crate::num::parse_num;
use crate::strutil::chars_eq_str;
use crate::strutil::chars_to_string;
use crate::strutil::str_to_chars;
use crate::strutil::strs_view;

verus! {

/// The four JSON whitespace characters.
pub open spec fn is_ws(c: char) -> bool {
    c == ' ' || c == '\t' || c == '\n' || c == '\r'
}

/// The first index at or after `i` whose character is not whitespace.
pub open spec fn skip_ws(s: Seq<char>, i: int) -> int
    decreases s.len() - i when 0 <= i <= s.len()
{
    if i < s.len() && is_ws(s[i]) {
        skip_ws(s, i + 1)
    } else {
        i
    }
}

pub proof fn lemma_skip_ws_bounds(s: Seq<char>, i: int)
    requires
        0 <= i <= s.len(),
    ensures
        i <= skip_ws(s, i) <= s.len(),
        skip_ws(s, i) < s.len() ==> !is_ws(s[skip_ws(s, i)]),
    decreases s.len() - i,
{
    if i < s.len() && is_ws(s[i]) {
        lemma_skip_ws_bounds(s, i + 1);
    }
}

/// How one character is written inside a quoted string.
pub open spec fn escape_char(c: char) -> Seq<char> {
    if c == '"' || c == '\\' {
        seq!['\\', c]
    } else {
        seq![c]
    }
}

/// How a whole string body is written inside quotes.
pub open spec fn escape(t: Seq<char>) -> Seq<char>
    decreases t.len(),
{
    if t.len() == 0 {
        Seq::empty()
    } else {
        escape_char(t[0]) + escape(t.drop_first())
    }
}

/// A string as written: quotes around the escaped body.
pub open spec fn quoted(t: Seq<char>) -> Seq<char> {
    seq!['"'] + escape(t) + seq!['"']
}

pub proof fn lemma_escape_snoc(t: Seq<char>, c: char)
    ensures
        escape(t.push(c)) == escape(t) + escape_char(c),
    decreases t.len(),
{
    if t.len() == 0 {
        assert(t.push(c)[0] == c);
        assert(t.push(c).drop_first() =~= Seq::<char>::empty());
        assert(escape(t.push(c)) == escape_char(c) + escape(Seq::<char>::empty()));
        assert(escape_char(c) + escape(Seq::<char>::empty()) =~= escape_char(c));
        assert(escape(t) + escape_char(c) =~= escape_char(c));
    } else {
        assert(t.push(c)[0] == t[0]);
        assert(t.push(c).drop_first() =~= t.drop_first().push(c));
        lemma_escape_snoc(t.drop_first(), c);
        assert(escape(t.push(c)) == escape_char(t[0]) + (escape(t.drop_first()) + escape_char(c)));
        assert(escape_char(t[0]) + (escape(t.drop_first()) + escape_char(c)) =~= (escape_char(t[0])
            + escape(t.drop_first())) + escape_char(c));
    }
}

/// Scanning a quoted string body from just after the opening quote:
/// yields `acc` extended with the body, and the index after the closing
/// quote.
pub open spec fn parse_str_body(s: Seq<char>, i: int, acc: Seq<char>) -> Option<(Seq<char>, int)>
    decreases s.len() - i when 0 <= i <= s.len()
{
    if i >= s.len() {
        None
    } else if s[i] == '"' {
        Some((acc, i + 1))
    } else if s[i] == '\\' {
        if i + 1 < s.len() && (s[i + 1] == '"' || s[i + 1] == '\\') {
            parse_str_body(s, i + 2, acc.push(s[i + 1]))
        } else {
            None
        }
    } else {
        parse_str_body(s, i + 1, acc.push(s[i]))
    }
}

pub proof fn lemma_parse_str_body_bounds(s: Seq<char>, i: int, acc: Seq<char>)
    requires
        0 <= i <= s.len(),
    ensures
        match parse_str_body(s, i, acc) {
            Some(r) => i < r.1 <= s.len(),
            None => true,
        },
    decreases s.len() - i,
{
    if i >= s.len() {
    } else if s[i] == '"' {
    } else if s[i] == '\\' {
        if i + 1 < s.len() && (s[i + 1] == '"' || s[i + 1] == '\\') {
            lemma_parse_str_body_bounds(s, i + 2, acc.push(s[i + 1]));
        }
    } else {
        lemma_parse_str_body_bounds(s, i + 1, acc.push(s[i]));
    }
}

/// Scanning the escaped rendering of `t` recovers `t`.
pub proof fn lemma_parse_escaped(s: Seq<char>, i: int, acc: Seq<char>, t: Seq<char>)
    requires
        0 <= i,
        i + escape(t).len() + 1 <= s.len(),
        s.subrange(i, i + escape(t).len() as int) == escape(t),
        s[i + escape(t).len() as int] == '"',
    ensures
        parse_str_body(s, i, acc) == Some((acc + t, i + escape(t).len() + 1)),
    decreases t.len(),
{
    let el = escape(t).len() as int;
    if t.len() == 0 {
        assert(s[i] == '"');
        assert(acc + t =~= acc);
    } else {
        let e0 = escape_char(t[0]);
        let erest = escape(t.drop_first());
        assert(escape(t) == e0 + erest);
        if t[0] == '"' || t[0] == '\\' {
            assert(s.subrange(i, i + el)[0] == s[i]);
            assert(escape(t)[0] == '\\');
            assert(s[i] == '\\');
            assert(s.subrange(i, i + el)[1] == s[i + 1]);
            assert(escape(t)[1] == t[0]);
            assert(s[i + 1] == t[0]);
            assert(s.subrange(i + 2, i + 2 + erest.len() as int) =~= erest) by {
                assert forall|k: int| 0 <= k < erest.len() implies #[trigger] s.subrange(
                    i + 2,
                    i + 2 + erest.len() as int,
                )[k] == erest[k] by {
                    assert(s.subrange(i, i + el)[k + 2] == s[i + k + 2]);
                    assert(escape(t)[k + 2] == erest[k]);
                }
            }
            lemma_parse_escaped(s, i + 2, acc.push(t[0]), t.drop_first());
            assert(acc.push(t[0]) + t.drop_first() =~= acc + t);
        } else {
            assert(s.subrange(i, i + el)[0] == s[i]);
            assert(escape(t)[0] == t[0]);
            assert(s[i] == t[0]);
            assert(s[i] != '"' && s[i] != '\\');
            assert(s.subrange(i + 1, i + 1 + erest.len() as int) =~= erest) by {
                assert forall|k: int| 0 <= k < erest.len() implies #[trigger] s.subrange(
                    i + 1,
                    i + 1 + erest.len() as int,
                )[k] == erest[k] by {
                    assert(s.subrange(i, i + el)[k + 1] == s[i + k + 1]);
                    assert(escape(t)[k + 1] == erest[k]);
                }
            }
            lemma_parse_escaped(s, i + 1, acc.push(t[0]), t.drop_first());
            assert(acc.push(t[0]) + t.drop_first() =~= acc + t);
        }
    }
}

/// Skips whitespace in executable code.
pub fn scan_ws(s: &Vec<char>, i: usize) -> (r: usize)
    requires
        i <= s@.len(),
    ensures
        r == skip_ws(s@, i as int),
        i <= r <= s@.len(),
{
    proof {
        lemma_skip_ws_bounds(s@, i as int);
    }
    let mut j: usize = i;
    while j < s.len() && (s[j] == ' ' || s[j] == '\t' || s[j] == '\n' || s[j] == '\r')
        invariant
            i <= j <= s@.len(),
            skip_ws(s@, i as int) == skip_ws(s@, j as int),
        decreases s@.len() - j,
    {
        j = j + 1;
    }
    j
}

/// Scans a quoted string body in executable code.
pub fn scan_str_body(s: &Vec<char>, i: usize) -> (r: Option<(Vec<char>, usize)>)
    requires
        i <= s@.len(),
    ensures
        match r {
            Some((t, j)) => parse_str_body(s@, i as int, Seq::empty()) == Some((t@, j as int)) && i
                < j <= s@.len(),
            None => parse_str_body(s@, i as int, Seq::empty()) is None,
        },
{
    proof {
        lemma_parse_str_body_bounds(s@, i as int, Seq::empty());
    }
    let mut j: usize = i;
    let mut acc: Vec<char> = Vec::new();
    loop
        invariant_except_break
            i <= j <= s@.len(),
            parse_str_body(s@, i as int, Seq::empty()) == parse_str_body(s@, j as int, acc@),
        ensures
            match parse_str_body(s@, i as int, Seq::empty()) {
                Some((t, e)) => j < s@.len() && s@[j as int] == '"' && t == acc@ && e == j + 1,
                None => j == s@.len() || (s@[j as int] == '\\' && (j + 1 == s@.len() || !(s@[j
                    + 1] == '"' || s@[j + 1] == '\\'))),
            },
        decreases s@.len() - j,
    {
        if j >= s.len() {
            break ;
        }
        let c = s[j];
        if c == '"' {
            break ;
        } else if c == '\\' {
            if j + 1 < s.len() && (s[j + 1] == '"' || s[j + 1] == '\\') {
                acc.push(s[j + 1]);
                j = j + 2;
            } else {
                break ;
            }
        } else {
            acc.push(c);
            j = j + 1;
        }
    }
    if j < s.len() {
        let c = s[j];
        if c == '"' {
            return Some((acc, j + 1));
        }
    }
    None
}

/// Scanning a tag array from just after a string element: a
/// comma-separated run of quoted strings closed by `]`, appended to
/// `acc`.
pub open spec fn parse_tags_rest(s: Seq<char>, i: int, acc: Seq<Seq<char>>) -> Option<
    (Seq<Seq<char>>, int),
>
    decreases s.len() - i when 0 <= i <= s.len() via parse_tags_rest_dec
{
    let j = skip_ws(s, i);
    if j + 1 > s.len() {
        None
    } else if s[j] == ']' {
        Some((acc, j + 1))
    } else if s[j] == ',' {
        let k = skip_ws(s, j + 1);
        if k + 1 > s.len() {
            None
        } else if s[k] != '"' {
            None
        } else {
            match parse_str_body(s, k + 1, Seq::empty()) {
                None => None,
                Some(t) => parse_tags_rest(s, t.1, acc.push(t.0)),
            }
        }
    } else {
        None
    }
}

#[via_fn]
proof fn parse_tags_rest_dec(s: Seq<char>, i: int, acc: Seq<Seq<char>>) {
    if 0 <= i <= s.len() {
        lemma_skip_ws_bounds(s, i);
        let j = skip_ws(s, i);
        if j + 1 <= s.len() && s[j] == ',' {
            lemma_skip_ws_bounds(s, j + 1);
            let k = skip_ws(s, j + 1);
            if k + 1 <= s.len() && s[k] == '"' {
                lemma_parse_str_body_bounds(s, k + 1, Seq::empty());
            }
        }
    }
}

pub proof fn lemma_parse_tags_rest_bounds(s: Seq<char>, i: int, acc: Seq<Seq<char>>)
    requires
        0 <= i <= s.len(),
    ensures
        match parse_tags_rest(s, i, acc) {
            Some(r) => i < r.1 <= s.len(),
            None => true,
        },
    decreases s.len() - i,
{
    lemma_skip_ws_bounds(s, i);
    let j = skip_ws(s, i);
    if j + 1 <= s.len() && s[j] == ',' {
        lemma_skip_ws_bounds(s, j + 1);
        let k = skip_ws(s, j + 1);
        if k + 1 <= s.len() && s[k] != '"' {
        } else if k + 1 <= s.len() {
            lemma_parse_str_body_bounds(s, k + 1, Seq::empty());
            match parse_str_body(s, k + 1, Seq::empty()) {
                None => {},
                Some(t) => {
                    lemma_parse_tags_rest_bounds(s, t.1, acc.push(t.0));
                },
            }
        }
    }
}

/// Scanning a tag array from just after the opening `[`.
pub open spec fn parse_tags_from(s: Seq<char>, i: int) -> Option<(Seq<Seq<char>>, int)> {
    let j = skip_ws(s, i);
    if j + 1 > s.len() {
        None
    } else if s[j] == ']' {
        Some((Seq::empty(), j + 1))
    } else if s[j] != '"' {
        None
    } else {
        match parse_str_body(s, j + 1, Seq::empty()) {
            None => None,
            Some(t) => parse_tags_rest(s, t.1, seq![t.0]),
        }
    }
}

pub proof fn lemma_parse_tags_from_bounds(s: Seq<char>, i: int)
    requires
        0 <= i <= s.len(),
    ensures
        match parse_tags_from(s, i) {
            Some(r) => i < r.1 <= s.len(),
            None => true,
        },
{
    lemma_skip_ws_bounds(s, i);
    let j = skip_ws(s, i);
    if j + 1 <= s.len() && s[j] != ']' && s[j] == '"' {
        lemma_parse_str_body_bounds(s, j + 1, Seq::empty());
        match parse_str_body(s, j + 1, Seq::empty()) {
            None => {},
            Some(t) => {
                lemma_parse_tags_rest_bounds(s, t.1, seq![t.0]);
            },
        }
    }
}

/// Scans a tag array in executable code, from just after the opening
/// `[`, returning the tags as strings.
pub fn scan_tags(s: &Vec<char>, i: usize) -> (r: Option<(Vec<String>, usize)>)
    requires
        i <= s@.len(),
    ensures
        match r {
            Some((ts, j)) => parse_tags_from(s@, i as int) == Some((strs_view(ts@), j as int)) && i
                < j <= s@.len(),
            None => parse_tags_from(s@, i as int) is None,
        },
{
    proof {
        lemma_parse_tags_from_bounds(s@, i as int);
    }
    let j = scan_ws(s, i);
    if j >= s.len() {
        return None;
    }
    if s[j] == ']' {
        let out: Vec<String> = Vec::new();
        proof {
            assert(strs_view(out@) =~= Seq::<Seq<char>>::empty());
        }
        return Some((out, j + 1));
    }
    if s[j] != '"' {
        return None;
    }
    let first = scan_str_body(s, j + 1);
    match first {
        None => None,
        Some((t0, k0)) => {
            let mut out: Vec<String> = Vec::new();
            out.push(chars_to_string(&t0));
            let mut pos = k0;
            proof {
                assert(strs_view(out@) =~= seq![t0@]);
            }
            loop
                invariant
                    i < pos <= s@.len(),
                    parse_tags_from(s@, i as int) == parse_tags_rest(
                        s@,
                        pos as int,
                        strs_view(out@),
                    ),
                decreases s@.len() - pos,
            {
                proof {
                    lemma_parse_tags_rest_bounds(s@, pos as int, strs_view(out@));
                }
                let q = scan_ws(s, pos);
                if q >= s.len() {
                    return None;
                }
                if s[q] == ']' {
                    return Some((out, q + 1));
                }
                if s[q] != ',' {
                    return None;
                }
                let k = scan_ws(s, q + 1);
                if k >= s.len() {
                    return None;
                }
                if s[k] != '"' {
                    return None;
                }
                match scan_str_body(s, k + 1) {
                    None => {
                        return None;
                    },
                    Some((t, m)) => {
                        let ghost prev = strs_view(out@);
                        out.push(chars_to_string(&t));
                        pos = m;
                        proof {
                            assert(strs_view(out@) =~= prev.push(t@));
                        }
                    },
                }
            }
        },
    }
}

/// The fields gathered while scanning the object members; each may be
/// given at most once.
pub struct Fields {
    pub created: Option<u64>,
    pub accessed: Option<u64>,
    pub tags: Option<Seq<Seq<char>>>,
}


/// The fields as scanned so far, with the tag vector viewed.
pub open spec fn fields_of(c: Option<u64>, a: Option<u64>, t: Option<Vec<String>>) -> Fields {
    Fields {
        created: c,
        accessed: a,
        tags: match t {
            Some(ts) => Some(strs_view(ts@)),
            None => None,
        },
    }
}

/// Scanning one member's value, from just after its `:`.
pub open spec fn parse_member_value(s: Seq<char>, vi: int, key: Seq<char>, acc: Fields) -> Option<
    (Fields, int),
> {
    let p = skip_ws(s, vi);
    if key == "created"@ {
        if acc.created is Some {
            None
        } else {
            match parse_num(s, p) {
                None => None,
                Some(v) => Some(
                    (Fields { created: Some(v.0), accessed: acc.accessed, tags: acc.tags }, v.1),
                ),
            }
        }
    } else if key == "accessed"@ {
        if acc.accessed is Some {
            None
        } else {
            match parse_num(s, p) {
                None => None,
                Some(v) => Some(
                    (Fields { created: acc.created, accessed: Some(v.0), tags: acc.tags }, v.1),
                ),
            }
        }
    } else if key == "tags"@ {
        if acc.tags is Some {
            None
        } else if p + 1 > s.len() {
            None
        } else if s[p] != '[' {
            None
        } else {
            match parse_tags_from(s, p + 1) {
                None => None,
                Some(t) => Some(
                    (Fields { created: acc.created, accessed: acc.accessed, tags: Some(t.0) }, t.1),
                ),
            }
        }
    } else {
        None
    }
}

pub proof fn lemma_parse_member_value_bounds(s: Seq<char>, vi: int, key: Seq<char>, acc: Fields)
    requires
        0 <= vi <= s.len(),
    ensures
        match parse_member_value(s, vi, key, acc) {
            Some(r) => vi < r.1 <= s.len(),
            None => true,
        },
{
    lemma_skip_ws_bounds(s, vi);
    let p = skip_ws(s, vi);
    crate::num::lemma_digits_end_bounds(s, p);
    if p + 1 <= s.len() {
        lemma_parse_tags_from_bounds(s, p + 1);
    }
}

/// Scanning the members of the sidecar object, from just after `{` or a
/// member separator, through the closing `}`.
pub open spec fn parse_members(s: Seq<char>, i: int, acc: Fields) -> Option<(Fields, int)>
    decreases s.len() - i when 0 <= i <= s.len() via parse_members_dec
{
    let j = skip_ws(s, i);
    if j + 1 > s.len() {
        None
    } else if s[j] != '"' {
        None
    } else {
        match parse_str_body(s, j + 1, Seq::empty()) {
            None => None,
            Some(kr) => {
                let m = skip_ws(s, kr.1);
                if m + 1 > s.len() {
                    None
                } else if s[m] != ':' {
                    None
                } else {
                    match parse_member_value(s, m + 1, kr.0, acc) {
                        None => None,
                        Some(vr) => {
                            let q = skip_ws(s, vr.1);
                            if q + 1 > s.len() {
                                None
                            } else if s[q] == ',' {
                                parse_members(s, q + 1, vr.0)
                            } else if s[q] == '}' {
                                Some((vr.0, q + 1))
                            } else {
                                None
                            }
                        },
                    }
                }
            },
        }
    }
}

#[via_fn]
proof fn parse_members_dec(s: Seq<char>, i: int, acc: Fields) {
    if 0 <= i <= s.len() {
        lemma_skip_ws_bounds(s, i);
        let j = skip_ws(s, i);
        if j + 1 <= s.len() && s[j] == '"' {
            lemma_parse_str_body_bounds(s, j + 1, Seq::empty());
            match parse_str_body(s, j + 1, Seq::empty()) {
                None => {},
                Some(kr) => {
                    lemma_skip_ws_bounds(s, kr.1);
                    let m = skip_ws(s, kr.1);
                    if m + 1 <= s.len() && s[m] == ':' {
                        lemma_parse_member_value_bounds(s, m + 1, kr.0, acc);
                        match parse_member_value(s, m + 1, kr.0, acc) {
                            None => {},
                            Some(vr) => {
                                lemma_skip_ws_bounds(s, vr.1);
                            },
                        }
                    }
                },
            }
        }
    }
}

pub proof fn lemma_parse_members_bounds(s: Seq<char>, i: int, acc: Fields)
    requires
        0 <= i <= s.len(),
    ensures
        match parse_members(s, i, acc) {
            Some(r) => i < r.1 <= s.len(),
            None => true,
        },
    decreases s.len() - i,
{
    lemma_skip_ws_bounds(s, i);
    let j = skip_ws(s, i);
    if j + 1 <= s.len() && s[j] == '"' {
        lemma_parse_str_body_bounds(s, j + 1, Seq::empty());
        match parse_str_body(s, j + 1, Seq::empty()) {
            None => {},
            Some(kr) => {
                lemma_skip_ws_bounds(s, kr.1);
                let m = skip_ws(s, kr.1);
                if m + 1 <= s.len() && s[m] == ':' {
                    lemma_parse_member_value_bounds(s, m + 1, kr.0, acc);
                    match parse_member_value(s, m + 1, kr.0, acc) {
                        None => {},
                        Some(vr) => {
                            lemma_skip_ws_bounds(s, vr.1);
                            let q = skip_ws(s, vr.1);
                            if q + 1 <= s.len() && s[q] == ',' {
                                lemma_parse_members_bounds(s, q + 1, vr.0);
                            }
                        },
                    }
                }
            },
        }
    }
}

/// What a well-formed sidecar file holds: the two optional timestamps
/// and the tag list (empty when the member is absent).
pub struct SidecarModel {
    pub created: Option<u64>,
    pub accessed: Option<u64>,
    pub tags: Seq<Seq<char>>,
}

pub open spec fn model_of(f: Fields) -> SidecarModel {
    SidecarModel {
        created: f.created,
        accessed: f.accessed,
        tags: match f.tags {
            Some(t) => t,
            None => Seq::empty(),
        },
    }
}

/// What scanning a whole sidecar file yields: a JSON object whose
/// members are drawn from `created`, `accessed` and `tags`, each at most
/// once, in any order.
pub open spec fn spec_parse_sidecar(s: Seq<char>) -> Option<SidecarModel> {
    let i = skip_ws(s, 0);
    if i + 1 > s.len() {
        None
    } else if s[i] != '{' {
        None
    } else {
        let j = skip_ws(s, i + 1);
        if j + 1 <= s.len() && s[j] == '}' {
            if skip_ws(s, j + 1) == s.len() {
                Some(SidecarModel { created: None, accessed: None, tags: Seq::empty() })
            } else {
                None
            }
        } else {
            match parse_members(s, i + 1, Fields { created: None, accessed: None, tags: None }) {
                None => None,
                Some(r) => {
                    if skip_ws(s, r.1) == s.len() {
                        Some(model_of(r.0))
                    } else {
                        None
                    }
                },
            }
        }
    }
}

/// The written tag array after its first element: `,"t"` repeated, then
/// the closing `]`.
pub open spec fn tags_tail(ts: Seq<Seq<char>>) -> Seq<char>
    decreases ts.len(),
{
    if ts.len() == 0 {
        seq![']']
    } else {
        seq![','] + quoted(ts[0]) + tags_tail(ts.drop_first())
    }
}

/// The written tag array after its opening `[`.
pub open spec fn tags_whole(ts: Seq<Seq<char>>) -> Seq<char> {
    if ts.len() == 0 {
        seq![']']
    } else {
        quoted(ts[0]) + tags_tail(ts.drop_first())
    }
}

/// The text the writer emits: the three members in fixed order with no
/// whitespace.
pub open spec fn spec_encode_sidecar(c: u64, a: u64, ts: Seq<Seq<char>>) -> Seq<char> {
    "{\"created\":"@ + dec_seq(c as nat) + ",\"accessed\":"@ + dec_seq(a as nat) + ",\"tags\":["@
        + tags_whole(ts) + seq!['}']
}

/// Escaping changes nothing in a string free of quotes and backslashes.
pub proof fn lemma_escape_plain(t: Seq<char>)
    requires
        forall|k: int| 0 <= k < t.len() ==> t[k] != '"' && t[k] != '\\',
    ensures
        escape(t) == t,
    decreases t.len(),
{
    if t.len() == 0 {
        assert(escape(t) =~= t);
    } else {
        lemma_escape_plain(t.drop_first());
        assert(escape(t) == seq![t[0]] + t.drop_first());
        assert(seq![t[0]] + t.drop_first() =~= t);
    }
}

/// Indexing and slicing a piece standing at a known offset of a
/// concatenation.
pub proof fn lemma_piece(p: Seq<char>, x: Seq<char>, q: Seq<char>)
    ensures
        (p + x + q).len() == p.len() + x.len() + q.len(),
        forall|k: int| 0 <= k < x.len() ==> #[trigger] (p + x + q)[p.len() + k] == x[k],
{
    assert forall|k: int| 0 <= k < x.len() implies #[trigger] (p + x + q)[p.len() + k] == x[k] by {
        assert((p + x + q)[p.len() + k] == (p + x)[p.len() + k]);
        assert((p + x)[p.len() + k] == x[k]);
    }
}

/// Scanning the decimal rendering of `n` followed by a non-digit yields
/// `n`.
pub proof fn lemma_parse_num_of_dec(s: Seq<char>, p: int, n: u64)
    requires
        0 <= p,
        p + dec_seq(n as nat).len() < s.len(),
        s.subrange(p, p + dec_seq(n as nat).len() as int) == dec_seq(n as nat),
        !is_digit(s[p + dec_seq(n as nat).len() as int]),
    ensures
        parse_num(s, p) == Some((n, p + dec_seq(n as nat).len() as int)),
{
    let d = dec_seq(n as nat);
    let dl = d.len() as int;
    crate::num::lemma_dec_seq_digits(n as nat);
    assert forall|k: int| p <= k < p + dl implies is_digit(s[k]) by {
        assert(s.subrange(p, p + dl)[k - p] == s[k]);
        assert(d[k - p] == s[k]);
    }
    crate::num::lemma_digits_end_of_run(s, p, p + dl);
    crate::num::lemma_val_of_dec(s, p, n as nat);
}

/// Scanning the written form of the tags after the first element.
pub proof fn lemma_parse_tags_tail(s: Seq<char>, i: int, acc: Seq<Seq<char>>, ts: Seq<Seq<char>>)
    requires
        0 <= i,
        i + tags_tail(ts).len() <= s.len(),
        s.subrange(i, i + tags_tail(ts).len() as int) == tags_tail(ts),
    ensures
        parse_tags_rest(s, i, acc) == Some((acc + ts, i + tags_tail(ts).len())),
    decreases ts.len(),
{
    let w = tags_tail(ts);
    let wl = w.len() as int;
    if ts.len() == 0 {
        assert(s.subrange(i, i + wl)[0] == s[i]);
        assert(s[i] == ']');
        assert(skip_ws(s, i) == i);
        assert(acc + ts =~= acc);
    } else {
        let t0 = ts[0];
        let el = escape(t0).len() as int;
        let ql = el + 2;
        assert(w == seq![','] + quoted(t0) + tags_tail(ts.drop_first()));
        lemma_piece(seq![','], quoted(t0), tags_tail(ts.drop_first()));
        assert forall|k: int| 0 <= k < wl implies #[trigger] s[i + k] == w[k] by {
            assert(s.subrange(i, i + wl)[k] == s[i + k]);
        }
        assert(quoted(t0) == seq!['"'] + escape(t0) + seq!['"']);
        lemma_piece(seq!['"'], escape(t0), seq!['"']);
        // the separating comma, then the opening quote
        assert(w[0] == ',');
        assert(s[i] == ',');
        assert(skip_ws(s, i) == i);
        assert(w[1] == quoted(t0)[0]);
        assert(quoted(t0)[0] == '"');
        assert(s[i + 1] == '"');
        assert(skip_ws(s, i + 1) == i + 1);
        // the escaped body of the first remaining tag
        assert forall|k: int| 0 <= k < el implies #[trigger] s.subrange(i + 2, i + 2 + el)[k]
            == escape(t0)[k] by {
            assert(s.subrange(i + 2, i + 2 + el)[k] == s[i + 2 + k]);
            assert(w[1 + (1 + k)] == quoted(t0)[1 + k]);
            assert(quoted(t0)[1 + k] == escape(t0)[k]);
        }
        assert(s.subrange(i + 2, i + 2 + el) =~= escape(t0));
        assert(w[1 + (1 + el)] == quoted(t0)[1 + el]);
        assert(quoted(t0)[1 + el] == '"');
        assert(s[i + 2 + el] == '"');
        lemma_parse_escaped(s, i + 2, Seq::empty(), t0);
        assert(parse_str_body(s, i + 2, Seq::empty()) == Some(
            (Seq::empty() + t0, i + 2 + el + 1),
        ));
        assert(Seq::empty() + t0 =~= t0);
        // the rest of the array
        let i2 = i + 1 + ql;
        let rest = tags_tail(ts.drop_first());
        assert forall|k: int| 0 <= k < rest.len() implies #[trigger] s.subrange(
            i2,
            i2 + rest.len() as int,
        )[k] == rest[k] by {
            assert(s.subrange(i2, i2 + rest.len() as int)[k] == s[i2 + k]);
            assert(s[i + (1 + ql + k)] == w[1 + ql + k]);
            assert(w[1 + (ql + k)] == quoted(t0).add(rest)[ql + k]);
            assert(quoted(t0).add(rest)[ql + k] == rest[k]);
        }
        assert(s.subrange(i2, i2 + rest.len() as int) =~= rest);
        lemma_parse_tags_tail(s, i2, acc.push(t0), ts.drop_first());
        assert(acc.push(t0) + ts.drop_first() =~= acc + ts);
        assert(parse_tags_rest(s, i, acc) == Some((acc + ts, i2 + rest.len())));
        assert(i2 + rest.len() == i + wl);
    }
}

/// Scanning the written form of a whole tag array, from just after `[`.
pub proof fn lemma_parse_tags_whole(s: Seq<char>, i: int, ts: Seq<Seq<char>>)
    requires
        0 <= i,
        i + tags_whole(ts).len() <= s.len(),
        s.subrange(i, i + tags_whole(ts).len() as int) == tags_whole(ts),
    ensures
        parse_tags_from(s, i) == Some((ts, i + tags_whole(ts).len())),
{
    let w = tags_whole(ts);
    let wl = w.len() as int;
    if ts.len() == 0 {
        assert(s.subrange(i, i + wl)[0] == s[i]);
        assert(s[i] == ']');
        assert(skip_ws(s, i) == i);
        assert(ts =~= Seq::<Seq<char>>::empty());
    } else {
        let t0 = ts[0];
        let el = escape(t0).len() as int;
        let ql = el + 2;
        assert(w == quoted(t0) + tags_tail(ts.drop_first()));
        let rest = tags_tail(ts.drop_first());
        assert forall|k: int| 0 <= k < wl implies #[trigger] s[i + k] == w[k] by {
            assert(s.subrange(i, i + wl)[k] == s[i + k]);
        }
        assert(quoted(t0) == seq!['"'] + escape(t0) + seq!['"']);
        lemma_piece(seq!['"'], escape(t0), seq!['"']);
        assert(w[0] == quoted(t0)[0]);
        assert(quoted(t0)[0] == '"');
        assert(s[i] == '"');
        assert(skip_ws(s, i) == i);
        assert forall|k: int| 0 <= k < el implies #[trigger] s.subrange(i + 1, i + 1 + el)[k]
            == escape(t0)[k] by {
            assert(s.subrange(i + 1, i + 1 + el)[k] == s[i + 1 + k]);
            assert(w[1 + k] == quoted(t0)[1 + k]);
            assert(quoted(t0)[1 + k] == escape(t0)[k]);
        }
        assert(s.subrange(i + 1, i + 1 + el) =~= escape(t0));
        assert(w[1 + el] == quoted(t0)[1 + el]);
        assert(quoted(t0)[1 + el] == '"');
        assert(s[i + 1 + el] == '"');
        lemma_parse_escaped(s, i + 1, Seq::empty(), t0);
        assert(Seq::empty() + t0 =~= t0);
        let i2 = i + ql;
        assert forall|k: int| 0 <= k < rest.len() implies #[trigger] s.subrange(
            i2,
            i2 + rest.len() as int,
        )[k] == rest[k] by {
            assert(s.subrange(i2, i2 + rest.len() as int)[k] == s[i2 + k]);
            assert(s[i + (ql + k)] == w[ql + k]);
            assert(w[ql + k] == rest[k]);
        }
        assert(s.subrange(i2, i2 + rest.len() as int) =~= rest);
        lemma_parse_tags_tail(s, i2, seq![t0], ts.drop_first());
        assert(seq![t0] + ts.drop_first() =~= ts);
        assert(parse_tags_from(s, i) == Some((ts, i2 + rest.len())));
        assert(i2 + rest.len() == i + wl);
    }
}

/// Reading back what the writer emitted recovers every field: the two
/// timestamps, and the tags in order, escapes and all.
pub proof fn lemma_parse_encode(c: u64, a: u64, ts: Seq<Seq<char>>)
    ensures
        spec_parse_sidecar(spec_encode_sidecar(c, a, ts)) == Some(
            SidecarModel { created: Some(c), accessed: Some(a), tags: ts },
        ),
{
    let s = spec_encode_sidecar(c, a, ts);
    let l1 = "{\"created\":"@;
    let d1 = dec_seq(c as nat);
    let l2 = ",\"accessed\":"@;
    let d2 = dec_seq(a as nat);
    let l3 = ",\"tags\":["@;
    let tw = tags_whole(ts);
    reveal_strlit("{\"created\":");
    reveal_strlit(",\"accessed\":");
    reveal_strlit(",\"tags\":[");
    reveal_strlit("created");
    reveal_strlit("accessed");
    reveal_strlit("tags");
    let x1 = l1 + d1;
    let x2 = x1 + l2;
    let x3 = x2 + d2;
    let x4 = x3 + l3;
    let x5 = x4 + tw;
    assert(s == x5 + seq!['}']);
    let dl1 = d1.len() as int;
    let dl2 = d2.len() as int;
    let twl = tw.len() as int;
    let o1 = 11int;
    let o2 = o1 + dl1;
    let o3 = o2 + 12;
    let o4 = o3 + dl2;
    let o5 = o4 + 9;
    let o6 = o5 + twl;
    assert(l1.len() == 11);
    assert(l2.len() == 12);
    assert(l3.len() == 9);
    crate::num::lemma_dec_seq_digits(c as nat);
    crate::num::lemma_dec_seq_digits(a as nat);
    assert(s.len() == o6 + 1);
    assert forall|k: int| 0 <= k < 11 implies #[trigger] s[k] == l1[k] by {
        assert(s[k] == x5[k]);
        assert(x5[k] == x4[k]);
        assert(x4[k] == x3[k]);
        assert(x3[k] == x2[k]);
        assert(x2[k] == x1[k]);
        assert(x1[k] == l1[k]);
    }
    assert forall|k: int| 0 <= k < dl1 implies #[trigger] s[o1 + k] == d1[k] by {
        assert(s[o1 + k] == x5[o1 + k]);
        assert(x5[o1 + k] == x4[o1 + k]);
        assert(x4[o1 + k] == x3[o1 + k]);
        assert(x3[o1 + k] == x2[o1 + k]);
        assert(x2[o1 + k] == x1[o1 + k]);
        assert(x1[o1 + k] == d1[k]);
    }
    assert forall|k: int| 0 <= k < 12 implies #[trigger] s[o2 + k] == l2[k] by {
        assert(s[o2 + k] == x5[o2 + k]);
        assert(x5[o2 + k] == x4[o2 + k]);
        assert(x4[o2 + k] == x3[o2 + k]);
        assert(x3[o2 + k] == x2[o2 + k]);
        assert(x2[o2 + k] == l2[k]);
    }
    assert forall|k: int| 0 <= k < dl2 implies #[trigger] s[o3 + k] == d2[k] by {
        assert(s[o3 + k] == x5[o3 + k]);
        assert(x5[o3 + k] == x4[o3 + k]);
        assert(x4[o3 + k] == x3[o3 + k]);
        assert(x3[o3 + k] == d2[k]);
    }
    assert forall|k: int| 0 <= k < 9 implies #[trigger] s[o4 + k] == l3[k] by {
        assert(s[o4 + k] == x5[o4 + k]);
        assert(x5[o4 + k] == x4[o4 + k]);
        assert(x4[o4 + k] == l3[k]);
    }
    assert forall|k: int| 0 <= k < twl implies #[trigger] s[o5 + k] == tw[k] by {
        assert(s[o5 + k] == x5[o5 + k]);
        assert(x5[o5 + k] == tw[k]);
    }
    assert(s[o6] == '}');
    // the opening brace and the first key
    assert(s[0] == '{');
    assert(skip_ws(s, 0) == 0);
    assert(s[1] == '"');
    assert(skip_ws(s, 1) == 1);
    lemma_escape_plain("created"@);
    assert forall|k: int| 0 <= k < 7 implies #[trigger] s.subrange(2, 9)[k] == escape("created"@)[k]
        by {
        assert(s.subrange(2, 9)[k] == s[2 + k]);
        assert(l1[2 + k] == "created"@[k]);
    }
    assert(s.subrange(2, 9) =~= escape("created"@));
    assert(s[9] == '"');
    lemma_parse_escaped(s, 2, Seq::empty(), "created"@);
    assert(Seq::empty() + "created"@ =~= "created"@);
    assert(s[10] == ':');
    assert(skip_ws(s, 10) == 10);
    // the first value
    assert(is_digit(s[o1]));
    assert(skip_ws(s, o1) == o1);
    assert forall|k: int| 0 <= k < dl1 implies #[trigger] s.subrange(o1, o2)[k] == d1[k] by {
        assert(s.subrange(o1, o2)[k] == s[o1 + k]);
    }
    assert(s.subrange(o1, o2) =~= d1);
    assert(s[o2] == ',');
    lemma_parse_num_of_dec(s, o1, c);
    let f0 = Fields { created: None, accessed: None, tags: None };
    let f1 = Fields { created: Some(c), accessed: None, tags: None };
    assert(parse_member_value(s, o1, "created"@, f0) == Some((f1, o2)));
    assert(skip_ws(s, o2) == o2);
    // the second key
    assert(s[o2 + 1] == '"');
    assert(skip_ws(s, o2 + 1) == o2 + 1);
    lemma_escape_plain("accessed"@);
    assert forall|k: int| 0 <= k < 8 implies #[trigger] s.subrange(o2 + 2, o2 + 10)[k] == escape(
        "accessed"@,
    )[k] by {
        assert(s.subrange(o2 + 2, o2 + 10)[k] == s[o2 + 2 + k]);
        assert(l2[2 + k] == "accessed"@[k]);
    }
    assert(s.subrange(o2 + 2, o2 + 10) =~= escape("accessed"@));
    assert(s[o2 + 10] == '"');
    lemma_parse_escaped(s, o2 + 2, Seq::empty(), "accessed"@);
    assert(Seq::empty() + "accessed"@ =~= "accessed"@);
    assert(s[o2 + 11] == ':');
    assert(skip_ws(s, o2 + 11) == o2 + 11);
    // the second value
    assert("accessed"@.len() == 8);
    assert("accessed"@ != "created"@);
    assert(is_digit(s[o3]));
    assert(skip_ws(s, o3) == o3);
    assert forall|k: int| 0 <= k < dl2 implies #[trigger] s.subrange(o3, o4)[k] == d2[k] by {
        assert(s.subrange(o3, o4)[k] == s[o3 + k]);
    }
    assert(s.subrange(o3, o4) =~= d2);
    assert(s[o4] == ',');
    lemma_parse_num_of_dec(s, o3, a);
    let f2 = Fields { created: Some(c), accessed: Some(a), tags: None };
    assert(parse_member_value(s, o2 + 12, "accessed"@, f1) == Some((f2, o4)));
    assert(skip_ws(s, o4) == o4);
    // the third key
    assert(s[o4 + 1] == '"');
    assert(skip_ws(s, o4 + 1) == o4 + 1);
    lemma_escape_plain("tags"@);
    assert forall|k: int| 0 <= k < 4 implies #[trigger] s.subrange(o4 + 2, o4 + 6)[k] == escape(
        "tags"@,
    )[k] by {
        assert(s.subrange(o4 + 2, o4 + 6)[k] == s[o4 + 2 + k]);
        assert(l3[2 + k] == "tags"@[k]);
    }
    assert(s.subrange(o4 + 2, o4 + 6) =~= escape("tags"@));
    assert(s[o4 + 6] == '"');
    lemma_parse_escaped(s, o4 + 2, Seq::empty(), "tags"@);
    assert(Seq::empty() + "tags"@ =~= "tags"@);
    assert(s[o4 + 7] == ':');
    assert(skip_ws(s, o4 + 7) == o4 + 7);
    // the tag array
    assert("tags"@.len() == 4);
    assert("tags"@ != "created"@);
    assert("tags"@ != "accessed"@);
    assert(s[o4 + 8] == '[');
    assert(skip_ws(s, o4 + 8) == o4 + 8);
    assert forall|k: int| 0 <= k < twl implies #[trigger] s.subrange(o5, o6)[k] == tw[k] by {
        assert(s.subrange(o5, o6)[k] == s[o5 + k]);
    }
    assert(s.subrange(o5, o6) =~= tw);
    lemma_parse_tags_whole(s, o5, ts);
    let f3 = Fields { created: Some(c), accessed: Some(a), tags: Some(ts) };
    assert(parse_member_value(s, o4 + 8, "tags"@, f2) == Some((f3, o6)));
    // the closing brace, walking the members back to front
    assert(skip_ws(s, o6) == o6);
    assert(s[o6] == '}');
    assert(skip_ws(s, o6 + 1) == s.len());
    assert(parse_members(s, o4 + 1, f2) == Some((f3, o6 + 1)));
    assert(parse_members(s, o2 + 1, f1) == Some((f3, o6 + 1)));
    assert(parse_members(s, 1, f0) == Some((f3, o6 + 1)));
    assert(spec_parse_sidecar(s) == Some(model_of(f3)));
}

/// The written tag array up to its first `k` elements, brackets left
/// out.
pub open spec fn tags_prefix(ts: Seq<Seq<char>>, k: int) -> Seq<char>
    decreases k,
{
    if k <= 0 {
        Seq::empty()
    } else if k == 1 {
        quoted(ts[0])
    } else {
        tags_prefix(ts, k - 1) + seq![','] + quoted(ts[k - 1])
    }
}

proof fn lemma_tags_whole_decomp(ts: Seq<Seq<char>>, k: int)
    requires
        1 <= k <= ts.len(),
    ensures
        tags_whole(ts) == tags_prefix(ts, k) + tags_tail(ts.skip(k)),
    decreases k,
{
    if k == 1 {
        assert(ts.drop_first() =~= ts.skip(1));
    } else {
        lemma_tags_whole_decomp(ts, k - 1);
        let p = ts.skip(k - 1);
        assert(p.len() > 0);
        assert(tags_tail(p) == seq![','] + quoted(p[0]) + tags_tail(p.drop_first()));
        assert(p[0] == ts[k - 1]);
        assert(p.drop_first() =~= ts.skip(k));
        assert(tags_prefix(ts, k - 1) + (seq![','] + quoted(ts[k - 1]) + tags_tail(ts.skip(k)))
            =~= (tags_prefix(ts, k - 1) + seq![','] + quoted(ts[k - 1])) + tags_tail(ts.skip(k)));
    }
}

proof fn lemma_tags_whole_of_prefix(ts: Seq<Seq<char>>)
    ensures
        tags_whole(ts) == tags_prefix(ts, ts.len() as int) + seq![']'],
{
    if ts.len() == 0 {
        assert(tags_prefix(ts, 0) + seq![']'] =~= seq![']']);
    } else {
        lemma_tags_whole_decomp(ts, ts.len() as int);
        assert(ts.skip(ts.len() as int) =~= Seq::<Seq<char>>::empty());
    }
}

/// Appends a tag in its written form: quotes around the escaped body.
fn push_quoted(out: &mut Vec<char>, t: &String)
    ensures
        final(out)@ == old(out)@ + quoted(t@),
{
    let tc = str_to_chars(t.as_str());
    out.push('"');
    let ghost base = out@;
    let mut k: usize = 0;
    while k < tc.len()
        invariant
            k <= tc@.len(),
            out@ == base + escape(tc@.take(k as int)),
        decreases tc@.len() - k,
    {
        let ghost pre = tc@.take(k as int);
        let c = tc[k];
        if c == '"' || c == '\\' {
            out.push('\\');
            out.push(c);
        } else {
            out.push(c);
        }
        proof {
            lemma_escape_snoc(pre, c);
            assert(tc@.take(k + 1) =~= pre.push(c));
            assert(base + escape(pre) + escape_char(c) =~= base + (escape(pre) + escape_char(c)));
            assert(out@ =~= base + escape(tc@.take(k + 1)));
        }
        k = k + 1;
    }
    out.push('"');
    proof {
        assert(tc@.take(tc@.len() as int) =~= tc@);
        assert(out@ =~= old(out)@ + quoted(t@));
    }
}

/// Writes a sidecar file's text for the given fields.
pub fn encode_sidecar(created: u64, accessed: u64, tags: &Vec<String>) -> (r: String)
    ensures
        r@ == spec_encode_sidecar(created, accessed, strs_view(tags@)),
{
    let ghost ts = strs_view(tags@);
    let mut out: Vec<char> = Vec::new();
    let mut lit1 = str_to_chars("{\"created\":");
    out.append(&mut lit1);
    crate::num::push_dec(created, &mut out);
    let mut lit2 = str_to_chars(",\"accessed\":");
    out.append(&mut lit2);
    crate::num::push_dec(accessed, &mut out);
    let mut lit3 = str_to_chars(",\"tags\":[");
    out.append(&mut lit3);
    let ghost base = out@;
    let mut k: usize = 0;
    while k < tags.len()
        invariant
            k <= tags@.len(),
            ts == strs_view(tags@),
            out@ == base + tags_prefix(ts, k as int),
        decreases tags@.len() - k,
    {
        let ghost pre = tags_prefix(ts, k as int);
        if k > 0 {
            out.push(',');
        }
        push_quoted(&mut out, &tags[k]);
        proof {
            assert(tags@[k as int]@ == ts[k as int]);
            if k == 0 {
                assert(base + pre =~= base);
                assert(out@ =~= base + tags_prefix(ts, k + 1));
            } else {
                assert(tags_prefix(ts, k + 1) == tags_prefix(ts, k as int) + seq![','] + quoted(
                    ts[k as int],
                ));
                assert(out@ =~= base + tags_prefix(ts, k + 1));
            }
        }
        k = k + 1;
    }
    out.push(']');
    out.push('}');
    proof {
        lemma_tags_whole_of_prefix(ts);
        assert(out@ =~= base + tags_whole(ts) + seq!['}']);
        assert(base =~= "{\"created\":"@ + dec_seq(created as nat) + ",\"accessed\":"@ + dec_seq(
            accessed as nat,
        ) + ",\"tags\":["@);
        assert(out@ =~= spec_encode_sidecar(created, accessed, ts));
    }
    chars_to_string(&out)
}

/// The metadata read from or written to a sidecar file.
pub struct ProjectData {
    pub created: Option<u64>,
    pub accessed: Option<u64>,
    pub tags: Vec<String>,
}

/// Reads a sidecar file's text.  Returns nothing when the text does not
/// match the sidecar grammar; the store then skips the entry.
pub fn parse_sidecar(s: &str) -> (r: Option<ProjectData>)
    ensures
        r is Some <==> spec_parse_sidecar(s@) is Some,
        match r {
            Some(pd) => spec_parse_sidecar(s@) == Some(
                SidecarModel {
                    created: pd.created,
                    accessed: pd.accessed,
                    tags: strs_view(pd.tags@),
                },
            ),
            None => true,
        },
{
    let v = str_to_chars(s);
    let i = scan_ws(&v, 0);
    if i >= v.len() {
        return None;
    }
    if v[i] != '{' {
        return None;
    }
    let j = scan_ws(&v, i + 1);
    if j < v.len() && v[j] == '}' {
        if scan_ws(&v, j + 1) == v.len() {
            let out = ProjectData { created: None, accessed: None, tags: Vec::new() };
            proof {
                assert(strs_view(out.tags@) =~= Seq::<Seq<char>>::empty());
            }
            return Some(out);
        } else {
            return None;
        }
    }
    match scan_members(&v, i + 1) {
        None => None,
        Some((created, accessed, tags, end)) => {
            if scan_ws(&v, end) == v.len() {
                let out = match tags {
                    Some(ts) => ProjectData { created, accessed, tags: ts },
                    None => ProjectData { created, accessed, tags: Vec::new() },
                };
                proof {
                    assert(strs_view(Seq::<String>::empty()) =~= Seq::<Seq<char>>::empty());
                }
                Some(out)
            } else {
                None
            }
        },
    }
}

/// Scans the member list in executable code.
fn scan_members(s: &Vec<char>, i: usize) -> (r: Option<
    (Option<u64>, Option<u64>, Option<Vec<String>>, usize),
>)
    requires
        i <= s@.len(),
    ensures
        match r {
            Some((c, a, t, j)) => parse_members(
                s@,
                i as int,
                Fields { created: None, accessed: None, tags: None },
            ) == Some((fields_of(c, a, t), j as int)) && i < j <= s@.len(),
            None => parse_members(
                s@,
                i as int,
                Fields { created: None, accessed: None, tags: None },
            ) is None,
        },
{
    let mut created: Option<u64> = None;
    let mut accessed: Option<u64> = None;
    let mut tags: Option<Vec<String>> = None;
    let mut pos = i;
    loop
        invariant
            i <= pos <= s@.len(),
            parse_members(s@, i as int, Fields { created: None, accessed: None, tags: None })
                == parse_members(s@, pos as int, fields_of(created, accessed, tags)),
        decreases s@.len() - pos,
    {
        let ghost cur = fields_of(created, accessed, tags);
        proof {
            lemma_parse_members_bounds(s@, pos as int, cur);
        }
        let j = scan_ws(s, pos);
        if j >= s.len() {
            return None;
        }
        if s[j] != '"' {
            return None;
        }
        let kr = scan_str_body(s, j + 1);
        match kr {
            None => {
                return None;
            },
            Some((key, k)) => {
                let m = scan_ws(s, k);
                if m >= s.len() {
                    return None;
                }
                if s[m] != ':' {
                    return None;
                }
                let p = scan_ws(s, m + 1);
                let ghost vspec = parse_member_value(s@, m + 1 as int, key@, cur);
                let e: usize;
                if chars_eq_str(&key, "created") {
                    if created.is_some() {
                        return None;
                    }
                    match crate::num::parse_u64_at(s, p) {
                        None => {
                            return None;
                        },
                        Some((val, e2)) => {
                            created = Some(val);
                            e = e2;
                        },
                    }
                } else if chars_eq_str(&key, "accessed") {
                    if accessed.is_some() {
                        return None;
                    }
                    match crate::num::parse_u64_at(s, p) {
                        None => {
                            return None;
                        },
                        Some((val, e2)) => {
                            accessed = Some(val);
                            e = e2;
                        },
                    }
                } else if chars_eq_str(&key, "tags") {
                    if tags.is_some() {
                        return None;
                    }
                    if p >= s.len() {
                        return None;
                    }
                    if s[p] != '[' {
                        return None;
                    }
                    match scan_tags(s, p + 1) {
                        None => {
                            return None;
                        },
                        Some((ts, e2)) => {
                            tags = Some(ts);
                            e = e2;
                        },
                    }
                } else {
                    return None;
                }
                let ghost cur2 = fields_of(created, accessed, tags);
                proof {
                    assert(vspec == Some((cur2, e as int)));
                }
                let q = scan_ws(s, e);
                if q >= s.len() {
                    return None;
                }
                if s[q] == ',' {
                    pos = q + 1;
                } else if s[q] == '}' {
                    return Some((created, accessed, tags, q + 1));
                } else {
                    return None;
                }
            },
        }
    }
}

} // verus!

