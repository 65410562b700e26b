//! What `git` prints, taken apart.
//!
//! With `-z` every record ends in a NUL byte and nothing is quoted, so a path
//! may hold spaces and newlines.

use crate::le;
use crate::paths;
use crate::text;
use vstd::prelude::*;
use vstd::slice::slice_subrange;

verus! {

/// The length of `b` before its first NUL, or its whole length.
pub open spec fn token_len(b: Seq<u8>) -> nat
    decreases b.len(),
{
    if b.len() == 0 || b[0] == 0 {
        0
    } else {
        1 + token_len(b.drop_first())
    }
}

pub proof fn lemma_token_len(b: Seq<u8>)
    ensures
        token_len(b) <= b.len(),
        forall|i: int| 0 <= i < token_len(b) ==> b[i] != 0,
        token_len(b) < b.len() ==> b[token_len(b) as int] == 0,
    decreases b.len(),
{
    if b.len() > 0 && b[0] != 0 {
        let t = b.drop_first();
        lemma_token_len(t);
        assert forall|i: int| 0 <= i < token_len(b) implies b[i] != 0 by {
            if i > 0 {
                assert(t[i - 1] == b[i]);
            }
        }
        if token_len(b) < b.len() {
            assert(t[token_len(t) as int] == b[token_len(b) as int]);
        }
    }
}

/// A prefix free of NUL that ends at a NUL, or at the end, is the token.
pub proof fn lemma_token_len_is(b: Seq<u8>, n: nat)
    requires
        n <= b.len(),
        forall|i: int| 0 <= i < n ==> b[i] != 0,
        n < b.len() ==> b[n as int] == 0,
    ensures
        token_len(b) == n,
{
    lemma_token_len(b);
    if token_len(b) < n {
        assert(b[token_len(b) as int] != 0);
    } else if n < token_len(b) {
        assert(b[n as int] != 0);
    }
}

/// The pieces between NUL bytes. There is always one more than there are NULs.
pub open spec fn tokens(b: Seq<u8>) -> Seq<Seq<u8>>
    decreases b.len(),
{
    let n = token_len(b);
    if n >= b.len() {
        seq![b]
    } else {
        seq![b.take(n as int)] + tokens(b.skip(n as int + 1))
    }
}

/// Splits at NUL bytes.
pub fn split_tokens(b: &[u8]) -> (r: Vec<Vec<u8>>)
    ensures
        paths::path_views(r@) == tokens(b@),
{
    let mut out: Vec<Vec<u8>> = Vec::new();
    let mut start: usize = 0;
    let mut i: usize = 0;
    assert(b@.skip(0) =~= b@);
    assert(paths::path_views(out@) =~= Seq::<Seq<u8>>::empty());
    assert(Seq::<Seq<u8>>::empty() + tokens(b@) =~= tokens(b@));
    while i < b.len()
        invariant
            start <= i <= b@.len(),
            forall|k: int| start <= k < i ==> b@[k] != 0,
            paths::path_views(out@) + tokens(b@.skip(start as int)) == tokens(b@),
        decreases b@.len() - i,
    {
        if b[i] == 0 {
            let ghost before = paths::path_views(out@);
            let ghost rest = b@.skip(start as int);
            let piece = le::copy_range(b, start, i);
            let ghost shown = piece@;
            let ghost vec_before = out@;
            out.push(piece);
            proof {
                lemma_token_len_is(rest, (i - start) as nat);
                assert(rest.take(i - start) =~= shown);
                assert(rest.skip(i - start + 1) =~= b@.skip(i + 1));
                assert(paths::path_views(out@) =~= before.push(shown));
                assert(before + (seq![shown] + tokens(b@.skip(i + 1))) =~= before.push(shown)
                    + tokens(b@.skip(i + 1)));
            }
            start = i + 1;
        }
        i = i + 1;
    }
    let ghost rest = b@.skip(start as int);
    let ghost before = paths::path_views(out@);
    let piece = le::copy_range(b, start, b.len());
    let ghost shown = piece@;
    out.push(piece);
    proof {
        lemma_token_len_is(rest, rest.len());
        assert(rest =~= shown);
        assert(paths::path_views(out@) =~= before.push(shown));
        assert(before + seq![shown] =~= before.push(shown));
    }
    out
}

/// A component of `p` that starts at `i` is `..`.
pub open spec fn parent_at(p: Seq<u8>, i: int) -> bool {
    &&& 0 <= i
    &&& i + 2 <= p.len()
    &&& p[i] == 0x2E
    &&& p[i + 1] == 0x2E
    &&& (i == 0 || p[i - 1] == paths::SLASH)
    &&& (i + 2 == p.len() || p[i + 2] == paths::SLASH)
}

/// A component of `p` is `..`.
pub open spec fn has_parent(p: Seq<u8>) -> bool {
    exists|i: int| parent_at(p, i)
}

/// A path that does not lead out of the directory it is taken from: neither
/// absolute nor with a `..` component.
pub open spec fn stays_inside(p: Seq<u8>) -> bool {
    !(p.len() > 0 && p[0] == paths::SLASH) && !has_parent(p)
}

/// A path that names something inside the directory it is taken from.
pub open spec fn safe(p: Seq<u8>) -> bool {
    p.len() > 0 && stays_inside(p)
}

/// Whether a component is `..`.
pub fn has_parent_component(p: &[u8]) -> (r: bool)
    ensures
        r == has_parent(p@),
{
    let len: usize = p.len();
    if len < 2 {
        return false;
    }
    let mut i: usize = 0;
    while i < len - 1
        invariant
            len == p@.len(),
            len >= 2,
            i <= len - 1,
            forall|k: int| 0 <= k < i ==> !parent_at(p@, k),
        decreases len - i,
    {
        if p[i] == 0x2E && p[i + 1] == 0x2E && (i == 0 || p[i - 1] == paths::SLASH) && (i + 2
            == len || p[i + 2] == paths::SLASH) {
            assert(parent_at(p@, i as int));
            return true;
        }
        i = i + 1;
    }
    false
}

/// Whether a path that git reported may be joined to the repository root.
pub fn is_safe_git_path(p: &[u8]) -> (r: bool)
    ensures
        r == safe(p@),
{
    p.len() > 0 && p[0] != paths::SLASH && !has_parent_component(p)
}

/// The two status letters say rename or copy.
pub open spec fn two_paths(tok: Seq<u8>) -> bool {
    tok[0] == 0x52 || tok[0] == 0x43 || tok[1] == 0x52 || tok[1] == 0x43
}

/// The token is a status record that is reported: two letters, a space and a
/// path, neither a branch header (`#`) nor an ignored file (`!!`).
pub open spec fn is_record(tok: Seq<u8>) -> bool {
    &&& tok.len() >= 4
    &&& tok[0] != 0x23
    &&& tok[2] == 0x20
    &&& !(tok[0] == 0x21 && tok[1] == 0x21)
}

/// A list of one path, where it may be used.
pub open spec fn if_safe(p: Seq<u8>) -> Seq<Seq<u8>> {
    if safe(p) {
        seq![p]
    } else {
        Seq::empty()
    }
}

/// The paths that a list of status tokens reports. A rename or a copy is
/// followed by a second path.
pub open spec fn status_paths(toks: Seq<Seq<u8>>) -> Seq<Seq<u8>>
    decreases toks.len(),
{
    if toks.len() == 0 {
        Seq::empty()
    } else {
        let tok = toks[0];
        if !is_record(tok) {
            status_paths(toks.skip(1))
        } else if two_paths(tok) && toks.len() >= 2 {
            if_safe(tok.skip(3)) + if_safe(toks[1]) + status_paths(toks.skip(2))
        } else {
            if_safe(tok.skip(3)) + status_paths(toks.skip(1))
        }
    }
}

/// `b` up to and with its last NUL.
pub open spec fn complete(b: Seq<u8>) -> Seq<u8>
    decreases b.len(),
{
    if b.len() == 0 || b.last() == 0 {
        b
    } else {
        complete(b.drop_last())
    }
}

/// What `git status --porcelain=v1 -z` reports. Output that was cut off ends in
/// a torn record, which is dropped.
pub open spec fn status_report(b: Seq<u8>) -> Seq<Seq<u8>> {
    if complete(b).len() == 0 {
        Seq::empty()
    } else {
        status_paths(tokens(complete(b)))
    }
}

/// Bytes that end in a NUL are split on their own.
pub(crate) proof fn lemma_tokens_concat(a: Seq<u8>, b: Seq<u8>)
    requires
        a.len() > 0,
        a.last() == 0,
    ensures
        tokens(a).len() > 0,
        tokens(a).last() == Seq::<u8>::empty(),
        tokens(a + b) == tokens(a).drop_last() + tokens(b),
    decreases a.len(),
{
    let n = token_len(a);
    lemma_token_len(a);
    if n >= a.len() {
        assert(a[a.len() - 1] != 0);
    }
    let all = a + b;
    lemma_token_len_is(all, n);
    let head = a.take(n as int);
    let rest = a.skip(n as int + 1);
    assert(all.take(n as int) =~= head);
    assert(all.skip(n as int + 1) =~= rest + b);
    if rest.len() == 0 {
        assert(rest + b =~= b);
        assert(rest =~= Seq::<u8>::empty());
        assert(tokens(rest) =~= seq![Seq::<u8>::empty()]);
        assert(tokens(a).drop_last() =~= seq![head]);
    } else {
        assert(rest.last() == a.last());
        lemma_tokens_concat(rest, b);
        assert(tokens(a).last() == tokens(rest).last());
        assert(tokens(a).drop_last() =~= seq![head] + tokens(rest).drop_last());
    }
    assert(tokens(all) =~= tokens(a).drop_last() + tokens(b));
}

/// No token is a record that is followed by a second path.
pub open spec fn single_paths(toks: Seq<Seq<u8>>) -> bool {
    forall|i: int| 0 <= i < toks.len() ==> !(is_record(#[trigger] toks[i]) && two_paths(toks[i]))
}

/// Tokens that each stand for themselves report on their own.
proof fn lemma_status_paths_concat(a: Seq<Seq<u8>>, b: Seq<Seq<u8>>)
    requires
        single_paths(a),
    ensures
        status_paths(a + b) == status_paths(a) + status_paths(b),
    decreases a.len(),
{
    if a.len() == 0 {
        assert(a + b =~= b);
        assert(status_paths(a) + status_paths(b) =~= status_paths(b));
    } else {
        let tail = a.skip(1);
        assert forall|i: int| 0 <= i < tail.len() implies !(is_record(#[trigger] tail[i])
            && two_paths(tail[i])) by {
            assert(tail[i] == a[i + 1]);
        }
        lemma_status_paths_concat(tail, b);
        assert((a + b)[0] == a[0]);
        assert((a + b).skip(1) =~= tail + b);
        assert(if_safe(a[0].skip(3)) + (status_paths(tail) + status_paths(b)) =~= if_safe(
            a[0].skip(3),
        ) + status_paths(tail) + status_paths(b));
    }
}

/// Cutting off a torn record leaves what comes before it.
pub(crate) proof fn lemma_complete_concat(a: Seq<u8>, b: Seq<u8>)
    requires
        a.len() == 0 || a.last() == 0,
    ensures
        complete(a + b) == a + complete(b),
        (forall|i: int| 0 <= i < b.len() ==> b[i] != 0) ==> complete(b).len() == 0,
    decreases b.len(),
{
    if b.len() == 0 {
        assert(a + b =~= a);
        assert(a + complete(b) =~= a);
    } else if b.last() == 0 {
        assert((a + b).last() == 0);
        assert(!(forall|i: int| 0 <= i < b.len() ==> b[i] != 0)) by {
            assert(b[b.len() - 1] == 0);
        }
    } else {
        assert((a + b).last() == b.last());
        assert((a + b).drop_last() =~= a + b.drop_last());
        lemma_complete_concat(a, b.drop_last());
    }
}

/// Output that ends after a record reports on its own: what follows it adds its
/// own paths, and a torn record adds none. The output must not hold a rename or
/// a copy, whose second path would be taken from what follows.
pub proof fn law_status_reports_concatenate(a: Seq<u8>, b: Seq<u8>)
    requires
        a.len() == 0 || a.last() == 0,
        single_paths(tokens(a)),
    ensures
        status_report(a + b) == status_report(a) + status_report(b),
        (forall|i: int| 0 <= i < b.len() ==> b[i] != 0) ==> status_report(a + b) == status_report(
            a,
        ),
{
    lemma_complete_concat(a, b);
    lemma_complete_concat(a, Seq::empty());
    assert(a + Seq::<u8>::empty() =~= a);
    assert(complete(a) =~= a);
    let cb = complete(b);
    if a.len() == 0 {
        assert(a + cb =~= cb);
        assert(status_report(a) + status_report(b) =~= status_report(b));
    } else if cb.len() == 0 {
        assert(a + cb =~= a);
        assert(status_report(a) + status_report(b) =~= status_report(a));
    } else {
        lemma_tokens_concat(a, cb);
        let ts = tokens(a).drop_last();
        let end = seq![Seq::<u8>::empty()];
        assert forall|i: int| 0 <= i < ts.len() implies !(is_record(#[trigger] ts[i]) && two_paths(
            ts[i],
        )) by {
            assert(ts[i] == tokens(a)[i]);
        }
        lemma_status_paths_concat(ts, tokens(cb));
        lemma_status_paths_concat(ts, end);
        assert(tokens(a) =~= ts + end);
        assert(end.skip(1).len() == 0);
        assert(end[0].len() == 0);
        assert(status_paths(end.skip(1)) =~= Seq::<Seq<u8>>::empty());
        assert(status_paths(end) =~= Seq::<Seq<u8>>::empty());
        assert(status_paths(ts) + status_paths(end) =~= status_paths(ts));
    }
    assert(status_report(a) + Seq::<Seq<u8>>::empty() =~= status_report(a));
}

fn push_path(out: &mut Vec<Vec<u8>>, raw: &[u8])
    ensures
        paths::path_views(final(out)@) == paths::path_views(old(out)@) + if_safe(raw@),
{
    let ghost before = paths::path_views(out@);
    if is_safe_git_path(raw) {
        out.push(le::bytes_clone(raw));
        assert(paths::path_views(out@) =~= before + seq![raw@]);
    } else {
        assert(before + Seq::<Seq<u8>>::empty() =~= before);
    }
}

/// The repository-relative paths that `git status --porcelain=v1 -z` printed,
/// in the order of the records and with repetitions.
///
/// Branch headers, ignored files and tokens that are no record are passed
/// over; so are paths that are absolute or leave the repository.
pub fn parse_status_z(bytes: &[u8]) -> (r: Vec<Vec<u8>>)
    ensures
        paths::path_views(r@) == status_report(bytes@),
{
    let mut end: usize = bytes.len();
    assert(bytes@.take(end as int) =~= bytes@);
    while end > 0 && bytes[end - 1] != 0
        invariant
            end <= bytes@.len(),
            complete(bytes@) == complete(bytes@.take(end as int)),
        decreases end,
    {
        assert(bytes@.take(end as int).drop_last() =~= bytes@.take(end - 1));
        end = end - 1;
    }
    let mut out: Vec<Vec<u8>> = Vec::new();
    assert(paths::path_views(out@) =~= Seq::<Seq<u8>>::empty());
    if end == 0 {
        return out;
    }
    assert(bytes@.take(end as int) =~= bytes@.subrange(0, end as int));
    let toks = split_tokens(slice_subrange(bytes, 0, end));
    let ghost ts = paths::path_views(toks@);
    let mut i: usize = 0;
    assert(ts.skip(0) =~= ts);
    assert(Seq::<Seq<u8>>::empty() + status_paths(ts) =~= status_paths(ts));
    while i < toks.len()
        invariant
            ts == paths::path_views(toks@),
            i <= ts.len(),
            paths::path_views(out@) + status_paths(ts.skip(i as int)) == status_paths(ts),
        decreases ts.len() - i,
    {
        let tok: &[u8] = toks[i].as_slice();
        let ghost rest = ts.skip(i as int);
        let ghost before = paths::path_views(out@);
        assert(rest[0] == tok@);
        assert(rest.skip(1) =~= ts.skip(i + 1));
        if tok.len() < 4 || tok[0] == 0x23 || tok[2] != 0x20 || (tok[0] == 0x21 && tok[1] == 0x21) {
            i = i + 1;
            continue;
        }
        let path: &[u8] = slice_subrange(tok, 3, tok.len());
        assert(path@ =~= tok@.skip(3));
        push_path(&mut out, path);
        let twice: bool = tok[0] == 0x52 || tok[0] == 0x43 || tok[1] == 0x52 || tok[1] == 0x43;
        if twice && i + 1 < toks.len() {
            assert(rest[1] == ts[i + 1]);
            assert(rest.skip(2) =~= ts.skip(i + 2));
            push_path(&mut out, toks[i + 1].as_slice());
            assert(before + (if_safe(tok@.skip(3)) + if_safe(ts[i + 1]) + status_paths(
                ts.skip(i + 2),
            )) =~= paths::path_views(out@) + status_paths(ts.skip(i + 2)));
            i = i + 2;
        } else {
            assert(before + (if_safe(tok@.skip(3)) + status_paths(ts.skip(i + 1)))
                =~= paths::path_views(out@) + status_paths(ts.skip(i + 1)));
            i = i + 1;
        }
    }
    assert(ts.skip(i as int).len() == 0);
    assert(paths::path_views(out@) =~= status_paths(ts));
    out
}

/// Bytes after the last NUL change nothing: a record that was cut off is not
/// reported.
pub proof fn law_torn_record_is_dropped(whole: Seq<u8>, torn: Seq<u8>)
    requires
        whole.len() == 0 || whole.last() == 0,
        forall|i: int| 0 <= i < torn.len() ==> torn[i] != 0,
    ensures
        status_report(whole + torn) == status_report(whole),
    decreases torn.len(),
{
    if torn.len() == 0 {
        assert(whole + torn =~= whole);
    } else {
        assert((whole + torn).last() == torn.last());
        assert((whole + torn).drop_last() =~= whole + torn.drop_last());
        law_torn_record_is_dropped(whole, torn.drop_last());
    }
}

/// Every path that is reported is relative and stays in the repository.
pub proof fn law_reported_paths_are_safe(toks: Seq<Seq<u8>>)
    ensures
        forall|i: int| 0 <= i < status_paths(toks).len() ==> safe(#[trigger] status_paths(toks)[i]),
    decreases toks.len(),
{
    if toks.len() > 0 {
        let first = if_safe(toks[0].skip(3));
        let one = status_paths(toks.skip(1));
        law_reported_paths_are_safe(toks.skip(1));
        if toks.len() >= 2 {
            let second = if_safe(toks[1]);
            let two = status_paths(toks.skip(2));
            law_reported_paths_are_safe(toks.skip(2));
            assert forall|i: int| 0 <= i < (first + second + two).len() implies safe(
                #[trigger] (first + second + two)[i],
            ) by {
                if i >= first.len() + second.len() {
                    assert((first + second + two)[i] == two[i - first.len() - second.len()]);
                } else if i >= first.len() {
                    assert((first + second + two)[i] == second[i - first.len()]);
                }
            }
        }
        assert forall|i: int| 0 <= i < (first + one).len() implies safe(
            #[trigger] (first + one)[i],
        ) by {
            if i >= first.len() {
                assert((first + one)[i] == one[i - first.len()]);
            }
        }
    }
}

/// A commit id: 40 to 64 hexadecimal digits.
pub open spec fn is_commit(s: Seq<u8>) -> bool {
    40 <= s.len() <= 64 && forall|i: int| 0 <= i < s.len() ==> is_hex_digit(#[trigger] s[i])
}

pub open spec fn is_hex_digit(b: u8) -> bool {
    0x30 <= b <= 0x39 || 0x41 <= b <= 0x46 || 0x61 <= b <= 0x66
}

/// Whether `s` can be a commit id, and so cannot be taken for an option.
pub fn is_hex_commit(s: &[u8]) -> (r: bool)
    ensures
        r == is_commit(s@),
{
    if s.len() < 40 || s.len() > 64 {
        return false;
    }
    let mut i: usize = 0;
    while i < s.len()
        invariant
            i <= s@.len(),
            forall|k: int| 0 <= k < i ==> is_hex_digit(#[trigger] s@[k]),
        decreases s@.len() - i,
    {
        let b: u8 = s[i];
        if !((0x30 <= b && b <= 0x39) || (0x41 <= b && b <= 0x46) || (0x61 <= b && b <= 0x66)) {
            assert(!is_hex_digit(s@[i as int]));
            return false;
        }
        i = i + 1;
    }
    true
}

/// The bytes of a commit's name, if it is not empty.
pub open spec fn named(s: Seq<char>) -> Option<Seq<u8>> {
    if s.len() == 0 {
        None
    } else {
        Some(vstd::utf8::encode_utf8(s))
    }
}

/// The bytes of a commit's name, if it is not empty.
pub fn named_commit(name: &str) -> (r: Option<Vec<u8>>)
    ensures
        match r {
            Some(v) => named(name@) == Some(v@),
            None => named(name@) is None,
        },
{
    let bytes = name.as_bytes();
    if bytes.len() == 0 {
        return None;
    }
    Some(le::bytes_clone(bytes))
}

/// The commit that `rev-parse` named, from what it printed: none where it
/// failed or printed nothing but white space.
pub fn current_repo_head(stdout: Option<&[u8]>) -> (r: Option<Vec<u8>>)
    ensures
        match (stdout, r) {
            (Some(b), Some(v)) => named(text::trimmed(text::lossy_text(b@))) == Some(v@),
            (Some(b), None) => named(text::trimmed(text::lossy_text(b@))) is None,
            (None, _) => r is None,
        },
        stdout matches Some(b) ==> vstd::utf8::valid_utf8(b@) ==> match r {
            Some(v) => named(text::trimmed(vstd::utf8::decode_utf8(b@))) == Some(v@),
            None => named(text::trimmed(vstd::utf8::decode_utf8(b@))) is None,
        },
{
    match stdout {
        None => None,
        Some(b) => {
            let printed = text::from_lossy(b);
            let name = text::trim(printed.as_str());
            named_commit(name.as_str())
        },
    }
}

/// A text can be a commit id exactly if it has 40 to 64 characters, each a digit or one of
/// the letters `a` to `f` in either case.
pub proof fn law_commit_ids_are_hexadecimal(s: Seq<u8>)
    ensures
        is_commit(s) <==> s.len() >= 40 && s.len() <= 64 && forall|i: int|
            0 <= i < s.len() ==> (0x30 <= #[trigger] s[i] && s[i] <= 0x39) || (0x61 <= s[i]
                && s[i] <= 0x66) || (0x41 <= s[i] && s[i] <= 0x46),
{
    assert(forall|i: int|
        0 <= i < s.len() ==> (is_hex_digit(#[trigger] s[i]) <==> (0x30 <= s[i] && s[i] <= 0x39) || (
        0x61 <= s[i] && s[i] <= 0x66) || (0x41 <= s[i] && s[i] <= 0x46)));
}

/// A commit is named exactly by what is not empty, and by all of it.
pub proof fn law_commits_are_named_in_full(s: Seq<char>)
    ensures
        named(s) is None <==> s.len() == 0,
        named(s) matches Some(b) ==> b == vstd::utf8::encode_utf8(s),
{
}

} // verus!
