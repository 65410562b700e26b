//! What a status report says of each record that `git status` printed.

use crate::git;
use crate::path_resolve;
use crate::paths;
use vstd::prelude::*;

verus! {

/// The component `..` is among the names between slashes exactly if it stands
/// somewhere in the text.
proof fn lemma_parent_is_a_name(p: Seq<u8>)
    ensures
        git::has_parent(p) <==> path_resolve::names(p).contains(seq![0x2Eu8, 0x2Eu8]),
    decreases p.len(),
{
    let up = seq![0x2Eu8, 0x2Eu8];
    let n = path_resolve::name_len(p) as int;
    path_resolve::lemma_name_len(p);
    let ns = path_resolve::names(p);
    if n >= p.len() {
        assert(ns =~= seq![p]);
        if git::has_parent(p) {
            let i = choose|i: int| git::parent_at(p, i);
            assert(i == 0);
            assert(p =~= up);
            assert(ns[0] == up);
        }
        if ns.contains(up) {
            assert(p == up);
            assert(git::parent_at(p, 0));
        }
    } else {
        let rest = p.skip(n + 1);
        let tail = path_resolve::names(rest);
        lemma_parent_is_a_name(rest);
        assert(ns =~= seq![p.take(n)] + tail);
        if git::has_parent(p) {
            let i = choose|i: int| git::parent_at(p, i);
            if i == 0 {
                assert(n == 2);
                assert(p.take(n) =~= up);
                assert(ns[0] == up);
            } else {
                assert(i >= n + 1);
                assert(git::parent_at(rest, i - n - 1));
                let k = choose|k: int| 0 <= k < tail.len() && tail[k] == up;
                assert(ns[k + 1] == up);
            }
        }
        if ns.contains(up) {
            let k = choose|k: int| 0 <= k < ns.len() && ns[k] == up;
            if k == 0 {
                assert(p.take(n) == up);
                assert(p.take(n).len() == 2);
                assert(p.take(n)[0] == p[0] && p.take(n)[1] == p[1]);
                assert(git::parent_at(p, 0));
            } else {
                assert(tail[k - 1] == up);
                let j = choose|j: int| git::parent_at(rest, j);
                assert(git::parent_at(p, j + n + 1));
            }
        }
    }
}

proof fn lemma_proper_contains(ns: Seq<Seq<u8>>, c: Seq<u8>)
    requires
        !path_resolve::is_void(c),
    ensures
        path_resolve::proper(ns).contains(c) <==> ns.contains(c),
    decreases ns.len(),
{
    if ns.len() > 0 {
        let rest = ns.skip(1);
        lemma_proper_contains(rest, c);
        if ns.contains(c) {
            let k = choose|k: int| 0 <= k < ns.len() && ns[k] == c;
            if k > 0 {
                assert(rest[k - 1] == c);
            }
        }
        if rest.contains(c) {
            let k = choose|k: int| 0 <= k < rest.len() && rest[k] == c;
            assert(ns[k + 1] == c);
        }
        let pr = path_resolve::proper(rest);
        if !path_resolve::is_void(ns[0]) {
            let all = seq![ns[0]] + pr;
            assert(all[0] == ns[0]);
            if pr.contains(c) {
                let k = choose|k: int| 0 <= k < pr.len() && pr[k] == c;
                assert(all[k + 1] == c);
            }
            if all.contains(c) {
                let k = choose|k: int| 0 <= k < all.len() && all[k] == c;
                if k > 0 {
                    assert(pr[k - 1] == c);
                } else {
                    assert(ns[0] == c);
                }
            }
        } else {
            if ns.contains(c) {
                assert(ns[0] != c);
            }
        }
    }
}

/// A path may be used exactly if it is not empty and none of its components is
/// the root or `..`.
pub proof fn law_usable_paths_have_no_way_out(p: Seq<u8>)
    ensures
        git::safe(p) <==> p.len() > 0 && !path_resolve::components(p).contains(seq![0x2Fu8])
            && !path_resolve::components(p).contains(seq![0x2Eu8, 0x2Eu8]),
{
    let up = seq![0x2Eu8, 0x2Eu8];
    let top = seq![0x2Fu8];
    let ns = path_resolve::names(p);
    let cs = path_resolve::components(p);
    let h = path_resolve::head(p);
    let pr = path_resolve::proper(ns);
    lemma_parent_is_a_name(p);
    assert(up != path_resolve::dot()) by {
        assert(up.len() == 2);
    }
    lemma_proper_contains(ns, up);
    assert(h.len() <= 1);
    assert(up != path_resolve::root()) by {
        assert(up.len() == 2);
    }
    if pr.contains(up) {
        let k = choose|k: int| 0 <= k < pr.len() && pr[k] == up;
        assert(cs[h.len() + k] == up);
    }
    if cs.contains(up) {
        let k = choose|k: int| 0 <= k < cs.len() && cs[k] == up;
        assert(k >= h.len());
        assert(pr[k - h.len()] == up);
    }
    assert(top =~= path_resolve::root());
    if p.len() > 0 && p[0] == paths::SLASH {
        assert(cs[0] == top);
    } else if cs.contains(top) {
        let k = choose|k: int| 0 <= k < cs.len() && cs[k] == top;
        assert(top != path_resolve::dot()) by {
            assert(top[0] == 0x2F);
            assert(path_resolve::dot()[0] == 0x2E);
        }
        assert(k >= h.len());
        path_resolve::lemma_proper_names(p, k - h.len());
        assert(pr[k - h.len()] == top);
        assert(top[0] == paths::SLASH);
    }
}

/// A status record as it is printed, without its end.
pub open spec fn printed(x: u8, y: u8, p: Seq<u8>) -> Seq<u8> {
    seq![x, y, 0x20u8] + p
}

/// A token that ends in a NUL.
pub open spec fn ended(tok: Seq<u8>) -> Seq<u8> {
    tok.push(0u8)
}

/// No byte is NUL.
pub open spec fn is_token(tok: Seq<u8>) -> bool {
    forall|i: int| 0 <= i < tok.len() ==> tok[i] != 0u8
}

/// The path, if it names something in the repository: it is not empty, and no
/// component is the root or `..`.
pub open spec fn inside(p: Seq<u8>) -> Seq<Seq<u8>> {
    let cs = path_resolve::components(p);
    if p.len() > 0 && !cs.contains(seq![0x2Fu8]) && !cs.contains(seq![0x2Eu8, 0x2Eu8]) {
        seq![p]
    } else {
        Seq::empty()
    }
}

/// Splitting output after its first token.
proof fn lemma_first_token(tok: Seq<u8>, rest: Seq<u8>)
    requires
        is_token(tok),
    ensures
        git::complete(ended(tok) + rest) == ended(tok) + git::complete(rest),
        git::tokens(ended(tok) + git::complete(rest)) == seq![tok] + git::tokens(
            git::complete(rest),
        ),
        git::status_report(ended(tok) + rest) == git::status_paths(
            seq![tok] + git::tokens(git::complete(rest)),
        ),
        git::status_report(rest) == git::status_paths(git::tokens(git::complete(rest))),
{
    let a = ended(tok);
    let c = git::complete(rest);
    git::lemma_complete_concat(a, rest);
    git::lemma_tokens_concat(a, c);
    git::lemma_token_len_is(a, tok.len());
    assert(a.take(tok.len() as int) =~= tok);
    assert(a.skip(tok.len() as int + 1) =~= Seq::<u8>::empty());
    assert(git::tokens(Seq::<u8>::empty()) =~= seq![Seq::<u8>::empty()]);
    assert(git::tokens(a) =~= seq![tok, Seq::<u8>::empty()]);
    assert(git::tokens(a).drop_last() =~= seq![tok]);
    if c.len() == 0 {
        let end = seq![Seq::<u8>::empty()];
        assert(c =~= Seq::<u8>::empty());
        assert(git::tokens(c) =~= end);
        assert(end[0].len() == 0);
        assert(end.skip(1).len() == 0);
        assert(git::status_paths(end) == git::status_paths(end.skip(1)));
        assert(git::status_paths(end.skip(1)) =~= Seq::<Seq<u8>>::empty());
    }
}

proof fn lemma_inside(p: Seq<u8>)
    ensures
        git::if_safe(p) == inside(p),
{
    law_usable_paths_have_no_way_out(p);
}

/// A record with `R` or `C` in either place, whatever stands in the other, reports
/// its path and the one that follows it; both belong to the one record.
pub proof fn law_renames_report_both_paths(
    x: u8,
    y: u8,
    p: Seq<u8>,
    q: Seq<u8>,
    rest: Seq<u8>,
)
    requires
        is_token(printed(x, y, p)),
        is_token(q),
        p.len() > 0,
        x == 0x52 || x == 0x43 || (x != 0x23 && (y == 0x52 || y == 0x43)),
    ensures
        git::status_report(ended(printed(x, y, p)) + ended(q) + rest) == inside(p) + inside(q)
            + git::status_report(rest),
{
    let tok = printed(x, y, p);
    let c = git::complete(rest);
    assert(ended(tok) + ended(q) + rest =~= ended(tok) + (ended(q) + rest));
    lemma_first_token(tok, ended(q) + rest);
    lemma_first_token(q, rest);
    assert(tok[0] == x && tok[1] == y && tok[2] == 0x20u8);
    assert(tok.skip(3) =~= p);
    let toks = seq![tok] + (seq![q] + git::tokens(c));
    assert(toks[0] == tok && toks[1] == q);
    assert(toks.skip(2) =~= git::tokens(c));
    lemma_inside(p);
    lemma_inside(q);
}

/// Any other record reports its path alone, and what follows it is a record of its
/// own.
pub proof fn law_other_records_report_one_path(x: u8, y: u8, p: Seq<u8>, rest: Seq<u8>)
    requires
        is_token(printed(x, y, p)),
        p.len() > 0,
        x != 0x52 && x != 0x43 && y != 0x52 && y != 0x43,
        x != 0x23,
        !(x == 0x21 && y == 0x21),
    ensures
        git::status_report(ended(printed(x, y, p)) + rest) == inside(p) + git::status_report(rest),
{
    let tok = printed(x, y, p);
    let c = git::complete(rest);
    lemma_first_token(tok, rest);
    assert(tok[0] == x && tok[1] == y && tok[2] == 0x20u8);
    assert(tok.skip(3) =~= p);
    let toks = seq![tok] + git::tokens(c);
    assert(toks[0] == tok);
    assert(toks.skip(1) =~= git::tokens(c));
    lemma_inside(p);
}

/// Branch headers, ignored files, and tokens without two letters, a space and a
/// path report nothing, and hide nothing that follows.
pub proof fn law_other_tokens_report_nothing(tok: Seq<u8>, rest: Seq<u8>)
    requires
        is_token(tok),
        tok.len() < 4 || tok[0] == 0x23 || tok[2] != 0x20 || (tok[0] == 0x21 && tok[1] == 0x21),
    ensures
        git::status_report(ended(tok) + rest) == git::status_report(rest),
{
    lemma_first_token(tok, rest);
    let toks = seq![tok] + git::tokens(git::complete(rest));
    assert(toks[0] == tok);
    assert(toks.skip(1) =~= git::tokens(git::complete(rest)));
}

/// Without a NUL there is no whole record, and nothing is reported; and a rename
/// whose second path is missing or torn reports its path.
pub proof fn law_torn_output_reports_whole_records(x: u8, y: u8, p: Seq<u8>, torn: Seq<u8>)
    requires
        is_token(torn),
    ensures
        git::status_report(torn) == Seq::<Seq<u8>>::empty(),
        is_token(printed(x, y, p)) && p.len() > 0 && x != 0x23 && !(x == 0x21 && y == 0x21)
            ==> git::status_report(ended(printed(x, y, p)) + torn) == inside(p),
{
    git::lemma_complete_concat(Seq::empty(), torn);
    assert(git::complete(torn).len() == 0);
    let tok = printed(x, y, p);
    if is_token(tok) && p.len() > 0 && x != 0x23 && !(x == 0x21 && y == 0x21) {
        lemma_first_token(tok, torn);
        let end = seq![Seq::<u8>::empty()];
        assert(git::complete(torn) =~= Seq::<u8>::empty());
        assert(git::tokens(git::complete(torn)) =~= end);
        assert(tok[0] == x && tok[1] == y && tok[2] == 0x20u8);
        assert(tok.skip(3) =~= p);
        let toks = seq![tok] + end;
        assert(toks[0] == tok && toks[1] == end[0]);
        assert(toks.skip(1) =~= end);
        assert(toks.skip(2) =~= Seq::<Seq<u8>>::empty());
        assert(end.skip(1) =~= Seq::<Seq<u8>>::empty());
        assert(end[0].len() == 0);
        assert(git::if_safe(end[0]) =~= Seq::<Seq<u8>>::empty());
        assert(git::status_paths(toks.skip(2)) =~= Seq::<Seq<u8>>::empty());
        assert(git::status_paths(end.skip(1)) =~= Seq::<Seq<u8>>::empty());
        assert(git::status_paths(end) =~= Seq::<Seq<u8>>::empty());
        lemma_inside(p);
        assert(git::status_paths(toks) =~= inside(p));
    }
}

} // verus!
