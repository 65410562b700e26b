//! Searches for the uses of a symbol: the patterns they search for, and the lines
//! they report.

use crate::order;
use crate::order::Relation;
use crate::path_resolve;
use crate::search::SearchMatch;
use crate::text;
use std::cmp::Ordering;
use vstd::prelude::*;

verus! {

/// The order of texts: that of their bytes.
pub open spec fn text_lt(a: Seq<char>, b: Seq<char>) -> bool {
    order::bytes_lt(vstd::utf8::encode_utf8(a), vstd::utf8::encode_utf8(b))
}

/// Strings as texts.
pub open spec fn texts(v: Seq<String>) -> Seq<Seq<char>> {
    Seq::new(v.len(), |i: int| v[i]@)
}

/// Texts in strictly ascending order.
pub open spec fn text_ascending(v: Seq<Seq<char>>) -> bool {
    forall|i: int, j: int| 0 <= i < j < v.len() ==> text_lt(#[trigger] v[i], #[trigger] v[j])
}

/// Adds a text to an ascending list, unless it is in it.
fn insert_text(v: &mut Vec<String>, s: String)
    requires
        text_ascending(texts(old(v)@)),
    ensures
        text_ascending(texts(final(v)@)),
        texts(final(v)@).to_set() == texts(old(v)@).to_set().insert(s@),
{
    let ghost before = texts(v@);
    let ghost old_v = v@;
    let mut i: usize = 0;
    while i < v.len()
        invariant
            v@ == old_v,
            before == texts(v@),
            before.len() == v@.len(),
            text_ascending(before),
            i <= v@.len(),
            forall|k: int| 0 <= k < i ==> text_lt(#[trigger] before[k], s@),
        ensures
            i <= v@.len(),
            v@ == old_v,
            forall|k: int| 0 <= k < i ==> text_lt(#[trigger] before[k], s@),
            i < v@.len() ==> before[i as int] == s@ || text_lt(s@, before[i as int]),
        decreases v@.len() - i,
    {
        assert(before[i as int] == v@[i as int]@);
        match order::compare_bytes(v[i].as_str().as_bytes(), s.as_str().as_bytes()) {
            Relation::Before => {},
            Relation::Same => {
                proof {
                    vstd::utf8::encode_utf8_decode_utf8(v@[i as int]@);
                    vstd::utf8::encode_utf8_decode_utf8(s@);
                }
                break;
            },
            Relation::After => {
                break;
            },
        }
        i = i + 1;
    }
    let ghost sv = s@;
    if i < v.len() && v[i] == s {
        proof {
            assert(before[i as int] == sv);
            assert(before.to_set().contains(sv));
            assert(before.to_set() =~= before.to_set().insert(sv));
        }
        return;
    }
    v.insert(i, s);
    proof {
        let after = texts(v@);
        assert(after =~= before.insert(i as int, sv));
        assert forall|a: int, b: int| 0 <= a < b < after.len() implies text_lt(
            #[trigger] after[a],
            #[trigger] after[b],
        ) by {
            if a < i && b > i {
                assert(text_lt(before[a], before[b - 1]));
            } else if a < i && b < i {
                assert(text_lt(before[a], before[b]));
            } else if a > i {
                assert(text_lt(before[a - 1], before[b - 1]));
            } else if a == i && b > i {
                assert(after[b] == before[b - 1]);
                if b - 1 > i {
                    assert(text_lt(before[i as int], before[b - 1]));
                    order::lemma_bytes_lt_transitive(
                        vstd::utf8::encode_utf8(sv),
                        vstd::utf8::encode_utf8(before[i as int]),
                        vstd::utf8::encode_utf8(before[b - 1]),
                    );
                }
            }
        }
        assert forall|t: Seq<char>|
            after.to_set().contains(t) <==> before.to_set().insert(sv).contains(t) by {
            if after.contains(t) {
                let k = choose|k: int| 0 <= k < after.len() && after[k] == t;
                if k < i {
                    assert(before[k] == t);
                } else if k > i {
                    assert(before[k - 1] == t);
                }
            }
            if before.contains(t) {
                let k = choose|k: int| 0 <= k < before.len() && before[k] == t;
                if k < i {
                    assert(after[k] == t);
                } else {
                    assert(after[k + 1] == t);
                }
            }
            assert(after[i as int] == sv);
        }
        assert(after.to_set() =~= before.to_set().insert(sv));
    }
}

/// The texts whose lower-case form is `target`.
pub open spec fn exact_texts(
    names: Seq<Seq<char>>,
    lowered: Seq<Seq<char>>,
    target: Seq<char>,
) -> Set<Seq<char>> {
    Set::new(
        |t: Seq<char>|
            exists|i: int|
                0 <= i < names.len() && #[trigger] names[i] == t && lowered[i] == target,
    )
}

/// The names whose lower-case form is `target`, in ascending order, each once.
pub fn keep_exact(names: &Vec<String>, lowered: &Vec<String>, target: &String) -> (r: Vec<String>)
    requires
        names@.len() == lowered@.len(),
    ensures
        text_ascending(texts(r@)),
        texts(r@).to_set() == exact_texts(texts(names@), texts(lowered@), target@),
{
    let ghost ns = texts(names@);
    let ghost ls = texts(lowered@);
    let mut r: Vec<String> = Vec::new();
    let mut i: usize = 0;
    assert(texts(r@).to_set() =~= exact_texts(ns.take(0), ls.take(0), target@));
    while i < names.len()
        invariant
            ns == texts(names@),
            ls == texts(lowered@),
            ns.len() == names@.len(),
            ls.len() == lowered@.len(),
            ns.len() == ls.len(),
            i <= ns.len(),
            text_ascending(texts(r@)),
            texts(r@).to_set() == exact_texts(ns.take(i as int), ls.take(i as int), target@),
        decreases ns.len() - i,
    {
        let ghost before = texts(r@).to_set();
        assert(ns[i as int] == names@[i as int]@);
        assert(ls[i as int] == lowered@[i as int]@);
        if lowered[i] == *target {
            insert_text(&mut r, names[i].clone());
        }
        proof {
            let a = ns.take(i as int);
            let b = ns.take(i + 1);
            let la = ls.take(i as int);
            let lb = ls.take(i + 1);
            assert forall|t: Seq<char>|
                texts(r@).to_set().contains(t) <==> exact_texts(b, lb, target@).contains(t) by {
                if exact_texts(a, la, target@).contains(t) {
                    let k = choose|k: int|
                        0 <= k < a.len() && #[trigger] a[k] == t && la[k] == target@;
                    assert(b[k] == t && lb[k] == target@);
                }
                if exact_texts(b, lb, target@).contains(t) {
                    let k = choose|k: int|
                        0 <= k < b.len() && #[trigger] b[k] == t && lb[k] == target@;
                    if k < i {
                        assert(a[k] == t && la[k] == target@);
                    }
                }
                assert(b[i as int] == ns[i as int] && lb[i as int] == ls[i as int]);
            }
            assert(texts(r@).to_set() =~= exact_texts(b, lb, target@));
        }
        i = i + 1;
    }
    assert(ns.take(i as int) =~= ns);
    assert(ls.take(i as int) =~= ls);
    r
}

/// Characters with a meaning of their own in a pattern.
pub open spec fn is_meta(c: char) -> bool {
    c == '\\' || c == '.' || c == '+' || c == '*' || c == '?' || c == '(' || c == ')' || c == '|'
        || c == '[' || c == ']' || c == '{' || c == '}' || c == '^' || c == '$' || c == '#' || c
        == '&' || c == '-' || c == '~'
}

/// A text as a pattern that matches it: a backslash before each character with a
/// meaning of its own.
pub open spec fn escaped(s: Seq<char>) -> Seq<char>
    decreases s.len(),
{
    if s.len() == 0 {
        Seq::empty()
    } else if is_meta(s.last()) {
        escaped(s.drop_last()).push('\\').push(s.last())
    } else {
        escaped(s.drop_last()).push(s.last())
    }
}

/// `regex::escape`: the text with a backslash before each of the characters that
/// the crate counts as special.
#[verifier::external_body]
fn escape(s: &str) -> (r: String)
    ensures
        r@ == escaped(s@),
{
    regex::escape(s)
}

/// The names of definitions.
pub open spec fn def_names(defs: Seq<SearchMatch>) -> Seq<Seq<char>> {
    Seq::new(defs.len(), |i: int| text::lossy_text(defs[i].line_content@))
}

/// Texts in lower case.
pub open spec fn all_lowercased(v: Seq<Seq<char>>) -> Seq<Seq<char>> {
    Seq::new(v.len(), |i: int| text::lowercased(v[i]))
}

/// These are the names of the definitions that are the name that is asked for.
pub open spec fn is_resolved(name: Seq<char>, defs: Seq<SearchMatch>, r: Seq<Seq<char>>) -> bool {
    &&& text_ascending(r)
    &&& r.to_set() == exact_texts(
        def_names(defs),
        all_lowercased(def_names(defs)),
        text::lowercased(name),
    )
}

/// The names among those of the definitions that are the name that is asked for,
/// whatever its case. A definition that only starts with the name is none.
pub fn resolve_names(name: &str, defs: &Vec<SearchMatch>) -> (r: Vec<String>)
    ensures
        is_resolved(name@, defs@, texts(r@)),
{
    let mut names: Vec<String> = Vec::new();
    let mut lowered: Vec<String> = Vec::new();
    let mut i: usize = 0;
    while i < defs.len()
        invariant
            i <= defs@.len(),
            names@.len() == i,
            lowered@.len() == i,
            forall|k: int| 0 <= k < i ==> (#[trigger] names@[k])@ == def_names(defs@)[k],
            forall|k: int|
                0 <= k < i ==> (#[trigger] lowered@[k])@ == all_lowercased(def_names(defs@))[k],
        decreases defs@.len() - i,
    {
        let found = text::from_lossy(defs[i].line_content.as_slice());
        lowered.push(text::lowercase(found.as_str()));
        names.push(found);
        i = i + 1;
    }
    proof {
        assert(texts(names@) =~= def_names(defs@));
        assert(texts(lowered@) =~= all_lowercased(def_names(defs@)));
    }
    let target = text::lowercase(name);
    keep_exact(&names, &lowered, &target)
}

/// A pattern that matches any of the names.
pub open spec fn alternation(names: Seq<Seq<char>>) -> Seq<char>
    decreases names.len(),
{
    if names.len() == 0 {
        Seq::empty()
    } else if names.len() == 1 {
        escaped(names[0])
    } else {
        alternation(names.drop_last()) + "|"@ + escaped(names.last())
    }
}

/// Patterns for the uses of names.
#[derive(Debug)]
pub struct ReferencePatterns {
    /// Finds the candidates.
    pub routing: String,
    /// Matches whole words only.
    pub verify: String,
}

/// The patterns for the uses of names, all names in one; none without names.
pub fn reference_patterns(names: &Vec<String>) -> (r: Option<ReferencePatterns>)
    ensures
        match r {
            Some(p) => {
                &&& names@.len() > 0
                &&& p.routing@ == "(?:"@ + alternation(texts(names@)) + ")"@
                &&& p.verify@ == "\\b(?:"@ + alternation(texts(names@)) + ")\\b"@
            },
            None => names@.len() == 0,
        },
{
    if names.len() == 0 {
        return None;
    }
    let ghost ns = texts(names@);
    let mut alt = String::new();
    let mut i: usize = 0;
    assert(alt@ =~= alternation(ns.take(0)));
    while i < names.len()
        invariant
            ns == texts(names@),
            ns.len() == names@.len(),
            i <= ns.len(),
            alt@ == alternation(ns.take(i as int)),
        decreases ns.len() - i,
    {
        let ghost before = alt@;
        proof {
            assert(ns.take(i + 1).drop_last() =~= ns.take(i as int));
            assert(ns.take(i + 1).last() == names@[i as int]@);
        }
        if i > 0 {
            alt.append("|");
        }
        let e = escape(names[i].as_str());
        alt.append(e.as_str());
        proof {
            if i == 0 {
                assert(alt@ =~= escaped(ns[0]));
            } else {
                assert(alt@ =~= before + "|"@ + escaped(ns[i as int]));
            }
        }
        i = i + 1;
    }
    assert(ns.take(i as int) =~= ns);
    let mut routing = String::new();
    routing.append("(?:");
    routing.append(alt.as_str());
    routing.append(")");
    let mut verify = String::new();
    verify.append("\\b(?:");
    verify.append(alt.as_str());
    verify.append(")\\b");
    proof {
        assert(routing@ =~= "(?:"@ + alternation(ns) + ")"@);
        assert(verify@ =~= "\\b(?:"@ + alternation(ns) + ")\\b"@);
    }
    Some(ReferencePatterns { routing, verify })
}

/// Where a match is: its path and its line.
pub open spec fn place(m: SearchMatch) -> (Seq<u8>, u32) {
    (m.path@, m.line_number)
}

/// The order of matches: by path, then by line.
pub open spec fn place_lt(a: (Seq<u8>, u32), b: (Seq<u8>, u32)) -> bool {
    order::bytes_lt(a.0, b.0) || (a.0 == b.0 && a.1 < b.1)
}

/// Matches in ascending order, repetitions allowed.
pub open spec fn places_sorted(s: Seq<SearchMatch>) -> bool {
    forall|i: int, j: int|
        0 <= i < j < s.len() ==> !place_lt(place(#[trigger] s[j]), place(#[trigger] s[i]))
}

/// Matches in strictly ascending order.
pub open spec fn places_ascending(s: Seq<SearchMatch>) -> bool {
    forall|i: int, j: int|
        0 <= i < j < s.len() ==> place_lt(place(#[trigger] s[i]), place(#[trigger] s[j]))
}

/// Compares two matches by path and line.
fn order_by_place(a: &SearchMatch, b: &SearchMatch) -> (r: Ordering)
    ensures
        r == Ordering::Less <==> place_lt(place(*a), place(*b)),
        r == Ordering::Equal <==> place(*a) == place(*b),
        r == Ordering::Greater <==> place_lt(place(*b), place(*a)),
{
    proof {
        order::lemma_bytes_lt_irreflexive(a.path@);
        if order::bytes_lt(a.path@, b.path@) && order::bytes_lt(b.path@, a.path@) {
            order::lemma_bytes_lt_transitive(a.path@, b.path@, a.path@);
        }
    }
    match order::compare_bytes(a.path.as_slice(), b.path.as_slice()) {
        Relation::Before => Ordering::Less,
        Relation::After => Ordering::Greater,
        Relation::Same => if a.line_number < b.line_number {
            Ordering::Less
        } else if a.line_number > b.line_number {
            Ordering::Greater
        } else {
            Ordering::Equal
        },
    }
}

/// `<[T]>::sort_unstable_by` with the order of path and line: the same matches, in
/// that order.
#[verifier::external_body]
fn sort_by_place(v: &mut Vec<SearchMatch>)
    ensures
        order::rearranged(old(v)@, final(v)@),
        places_sorted(final(v)@),
{
    v.sort_unstable_by(|a, b| order_by_place(a, b))
}

/// Two matches are on one line. Paths are told apart by their components.
pub open spec fn same_line(a: SearchMatch, b: SearchMatch) -> bool {
    path_resolve::components(a.path@) == path_resolve::components(b.path@) && a.line_number
        == b.line_number
}

/// The matches without those on the line of the match kept before them.
pub open spec fn one_per_line(s: Seq<SearchMatch>) -> Seq<SearchMatch>
    decreases s.len(),
{
    if s.len() == 0 {
        s
    } else {
        let rest = one_per_line(s.drop_last());
        if rest.len() > 0 && same_line(rest.last(), s.last()) {
            rest
        } else {
            rest.push(s.last())
        }
    }
}

proof fn lemma_kept_matches(s: Seq<SearchMatch>)
    ensures
        forall|k: int|
            0 <= k < one_per_line(s).len() ==> s.contains(#[trigger] one_per_line(s)[k]),
    decreases s.len(),
{
    if s.len() > 0 {
        let front = s.drop_last();
        let rest = one_per_line(front);
        lemma_kept_matches(front);
        assert forall|k: int| 0 <= k < one_per_line(s).len() implies s.contains(
            #[trigger] one_per_line(s)[k],
        ) by {
            if k < rest.len() {
                assert(front.contains(rest[k]));
                let i = choose|i: int| 0 <= i < front.len() && front[i] == rest[k];
                assert(s[i] == rest[k]);
            } else {
                assert(s[s.len() - 1] == one_per_line(s)[k]);
            }
        }
    }
}

proof fn lemma_kept_ascend(s: Seq<SearchMatch>)
    requires
        places_sorted(s),
    ensures
        places_ascending(one_per_line(s)),
    decreases s.len(),
{
    if s.len() > 0 {
        let front = s.drop_last();
        let rest = one_per_line(front);
        let r = one_per_line(s);
        let last = place(s.last());
        lemma_kept_ascend(front);
        if r.len() > rest.len() && rest.len() > 0 {
            lemma_kept_matches(front);
            let i = choose|i: int| 0 <= i < front.len() && front[i] == rest.last();
            assert(front.contains(rest[rest.len() - 1]));
            assert(s[i] == rest.last());
            assert(!place_lt(place(s[s.len() - 1]), place(s[i])));
            lemma_place_total(place(rest.last()), last);
            assert forall|a: int, b: int| 0 <= a < b < r.len() implies place_lt(
                place(#[trigger] r[a]),
                place(#[trigger] r[b]),
            ) by {
                if b < rest.len() {
                    assert(place_lt(place(rest[a]), place(rest[b])));
                } else if a < rest.len() - 1 {
                    assert(place_lt(place(rest[a]), place(rest[rest.len() - 1])));
                    lemma_place_lt_transitive(place(rest[a]), place(rest.last()), last);
                }
            }
        }
    }
}

proof fn lemma_line_is_kept(s: Seq<SearchMatch>, k: int)
    requires
        0 <= k < s.len(),
    ensures
        exists|j: int|
            0 <= j < one_per_line(s).len() && same_line(#[trigger] one_per_line(s)[j], s[k]),
    decreases s.len(),
{
    let front = s.drop_last();
    let rest = one_per_line(front);
    let r = one_per_line(s);
    if k < front.len() {
        lemma_line_is_kept(front, k);
        let j = choose|j: int| 0 <= j < rest.len() && same_line(#[trigger] rest[j], front[k]);
        assert(r[j] == rest[j]);
    } else {
        assert(same_line(r[r.len() - 1], s[k]));
    }
}

/// These are the matches by path and line, one for each line.
pub open spec fn is_reduced(matches: Seq<SearchMatch>, r: Seq<SearchMatch>) -> bool {
    exists|sorted: Seq<SearchMatch>|
        {
            &&& #[trigger] order::rearranged(matches, sorted)
            &&& places_sorted(sorted)
            &&& r == one_per_line(sorted)
        }
}

/// The matches by path and line, one for each line.
pub fn unique_lines(matches: Vec<SearchMatch>) -> (r: Vec<SearchMatch>)
    ensures
        is_reduced(matches@, r@),
        places_ascending(r@),
        forall|k: int| 0 <= k < r@.len() ==> matches@.contains(#[trigger] r@[k]),
        forall|k: int|
            0 <= k < matches@.len() ==> exists|j: int|
                0 <= j < r@.len() && same_line(#[trigger] r@[j], #[trigger] matches@[k]),
{
    let ghost all = matches@;
    let mut sorted = matches;
    sort_by_place(&mut sorted);
    let ghost sv = sorted@;
    proof {
        order::lemma_rearranged_contains(all, sv);
        lemma_kept_matches(sv);
        lemma_kept_ascend(sv);
    }
    let mut r: Vec<SearchMatch> = Vec::new();
    let mut queue = sorted;
    let ghost mut n: int = 0;
    proof {
        assert(queue@ =~= sv.skip(0));
        assert(r@ =~= one_per_line(sv.take(0)));
    }
    while queue.len() > 0
        invariant
            0 <= n <= sv.len(),
            queue@ == sv.skip(n),
            r@ == one_per_line(sv.take(n)),
        decreases queue@.len(),
    {
        let m = queue.remove(0);
        proof {
            assert(sv.skip(n)[0] == sv[n]);
            assert(queue@ =~= sv.skip(n + 1));
            assert(sv.take(n + 1).drop_last() =~= sv.take(n));
        }
        let mut fresh: bool = true;
        if r.len() > 0 {
            let last = &r[r.len() - 1];
            fresh = last.line_number != m.line_number || !path_resolve::same_path(
                last.path.as_slice(),
                m.path.as_slice(),
            );
        }
        if fresh {
            r.push(m);
        }
        proof {
            n = n + 1;
        }
    }
    proof {
        assert(sv.take(n) =~= sv);
        assert forall|k: int| 0 <= k < all.len() implies exists|j: int|
            0 <= j < r@.len() && same_line(#[trigger] r@[j], #[trigger] all[k]) by {
            assert(all.contains(all[k]));
            let i = choose|i: int| 0 <= i < sv.len() && sv[i] == all[k];
            lemma_line_is_kept(sv, i);
            let j = choose|j: int| 0 <= j < r@.len() && same_line(#[trigger] r@[j], sv[i]);
            assert(same_line(r@[j], all[k]));
        }
    }
    r
}

proof fn lemma_place_lt_transitive(a: (Seq<u8>, u32), b: (Seq<u8>, u32), c: (Seq<u8>, u32))
    requires
        place_lt(a, b),
        place_lt(b, c),
    ensures
        place_lt(a, c),
{
    if order::bytes_lt(a.0, b.0) && order::bytes_lt(b.0, c.0) {
        order::lemma_bytes_lt_transitive(a.0, b.0, c.0);
    }
}

proof fn lemma_place_total(a: (Seq<u8>, u32), b: (Seq<u8>, u32))
    ensures
        place_lt(a, b) || a == b || place_lt(b, a),
{
    order::lemma_bytes_lt_total(a.0, b.0);
}

/// The matches that are reported hold one for every line with a match: on the same line of
/// the same file; and no two of them are on one line of one path.
pub proof fn law_every_line_is_reported(matches: Seq<SearchMatch>, r: Seq<SearchMatch>, k: int)
    requires
        is_reduced(matches, r),
        0 <= k < matches.len(),
    ensures
        exists|j: int|
            0 <= j < r.len() && (#[trigger] r[j]).line_number == matches[k].line_number
                && path_resolve::components(r[j].path@) == path_resolve::components(
                matches[k].path@,
            ),
        forall|i: int, j: int|
            0 <= i < j < r.len() ==> !((#[trigger] r[i]).path@ == (#[trigger] r[j]).path@
                && r[i].line_number >= r[j].line_number),
        forall|j: int| 0 <= j < r.len() ==> matches.contains(#[trigger] r[j]),
{
    let sorted = choose|sorted: Seq<SearchMatch>| #[trigger]
        order::rearranged(matches, sorted) && places_sorted(sorted) && r == one_per_line(sorted);
    order::lemma_rearranged_contains(matches, sorted);
    assert(matches.contains(matches[k]));
    let i = choose|i: int| 0 <= i < sorted.len() && sorted[i] == matches[k];
    lemma_line_is_kept(sorted, i);
    lemma_kept_ascend(sorted);
    lemma_kept_matches(sorted);
    assert forall|i: int, j: int| 0 <= i < j < r.len() implies !((#[trigger] r[i]).path@ == (
    #[trigger] r[j]).path@ && r[i].line_number >= r[j].line_number) by {
        assert(place_lt(place(r[i]), place(r[j])));
        order::lemma_bytes_lt_irreflexive(r[i].path@);
    }
}

/// A name is resolved to exactly the names of definitions that have its lower-case form.
pub proof fn law_names_are_resolved_by_their_lower_case(
    name: Seq<char>,
    defs: Seq<SearchMatch>,
    r: Seq<Seq<char>>,
    t: Seq<char>,
)
    requires
        is_resolved(name, defs, r),
    ensures
        r.contains(t) <==> exists|i: int|
            0 <= i < defs.len() && text::lossy_text((#[trigger] defs[i]).line_content@) == t
                && text::lowercased(t) == text::lowercased(name),
{
    let ns = def_names(defs);
    let set = exact_texts(ns, all_lowercased(ns), text::lowercased(name));
    assert(r.to_set().contains(t) <==> set.contains(t));
    if set.contains(t) {
        let i = choose|i: int|
            0 <= i < ns.len() && #[trigger] ns[i] == t && all_lowercased(ns)[i] == text::lowercased(
                name,
            );
        assert(text::lossy_text(defs[i].line_content@) == t);
    }
    if exists|i: int|
        0 <= i < defs.len() && text::lossy_text((#[trigger] defs[i]).line_content@) == t
            && text::lowercased(t) == text::lowercased(name) {
        let i = choose|i: int|
            0 <= i < defs.len() && text::lossy_text((#[trigger] defs[i]).line_content@) == t
                && text::lowercased(t) == text::lowercased(name);
        assert(ns[i] == t);
    }
}

/// The names that are kept are those whose lower-case form is the one asked for.
pub proof fn law_names_are_kept_by_their_lower_case(
    names: Seq<Seq<char>>,
    lowered: Seq<Seq<char>>,
    target: Seq<char>,
    i: int,
)
    requires
        0 <= i < names.len(),
    ensures
        lowered[i] == target ==> exact_texts(names, lowered, target).contains(names[i]),
        (forall|k: int| 0 <= k < names.len() && names[k] == names[i] ==> lowered[k] != target)
            ==> !exact_texts(names, lowered, target).contains(names[i]),
{
}

} // verus!
