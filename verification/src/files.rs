//! Names of the files in an index directory.

use crate::le;
use vstd::prelude::*;

verus! {

/// `b` occurs in `s`.
pub open spec fn has_byte(s: Seq<u8>, b: u8) -> bool {
    exists|i: int| 0 <= i < s.len() && s[i] == b
}

/// Two dots stand next to each other in `s`.
pub open spec fn has_dot_dot(s: Seq<u8>) -> bool {
    exists|i: int| 0 <= i < s.len() - 1 && #[trigger] s[i] == 0x2E && s[i + 1] == 0x2E
}

/// `s` starts with `p`.
pub open spec fn starts_with(s: Seq<u8>, p: Seq<u8>) -> bool {
    s.len() >= p.len() && s.take(p.len() as int) == p
}

/// `s` ends with `p`.
pub open spec fn ends_with(s: Seq<u8>, p: Seq<u8>) -> bool {
    s.len() >= p.len() && s.skip(s.len() - p.len()) == p
}

/// No separator of either kind and no `..`: joined to a directory, the name
/// stays in it.
pub open spec fn stays_inside(name: Seq<u8>) -> bool {
    !has_byte(name, 0x2F) && !has_byte(name, 0x5C) && !has_dot_dot(name)
}

/// A name that is not empty and stays inside its directory.
pub open spec fn plain(name: Seq<u8>) -> bool {
    name.len() > 0 && stays_inside(name)
}

pub fn contains_byte(s: &[u8], b: u8) -> (r: bool)
    ensures
        r == has_byte(s@, b),
{
    let mut i: usize = 0;
    while i < s.len()
        invariant
            i <= s@.len(),
            forall|k: int| 0 <= k < i ==> s@[k] != b,
        decreases s@.len() - i,
    {
        if s[i] == b {
            return true;
        }
        i = i + 1;
    }
    false
}

pub fn contains_dot_dot(s: &[u8]) -> (r: bool)
    ensures
        r == has_dot_dot(s@),
{
    let mut i: usize = 1;
    while i < s.len()
        invariant
            1 <= i,
            i <= s@.len() || s@.len() == 0,
            forall|k: int|
                0 <= k < i - 1 && k < s@.len() - 1 ==> !(#[trigger] s@[k] == 0x2E && s@[k + 1]
                    == 0x2E),
        decreases s@.len() - i,
    {
        if s[i - 1] == 0x2E && s[i] == 0x2E {
            assert(s@[i - 1] == 0x2E && s@[i - 1 + 1] == 0x2E);
            return true;
        }
        i = i + 1;
    }
    false
}

pub fn has_prefix(s: &[u8], p: &[u8]) -> (r: bool)
    ensures
        r == starts_with(s@, p@),
{
    if s.len() < p.len() {
        return false;
    }
    let head = vstd::slice::slice_subrange(s, 0, p.len());
    assert(head@ =~= s@.take(p@.len() as int));
    le::bytes_eq(head, p)
}

pub fn has_suffix(s: &[u8], p: &[u8]) -> (r: bool)
    ensures
        r == ends_with(s@, p@),
{
    if s.len() < p.len() {
        return false;
    }
    let tail = vstd::slice::slice_subrange(s, s.len() - p.len(), s.len());
    assert(tail@ =~= s@.skip(s@.len() - p@.len()));
    le::bytes_eq(tail, p)
}

/// Whether a segment file name stays inside the index directory.
pub fn is_inside(name: &[u8]) -> (r: bool)
    ensures
        r == stays_inside(name@),
{
    !contains_byte(name, 0x2F) && !contains_byte(name, 0x5C) && !contains_dot_dot(name)
}

/// Whether a sidecar name from the manifest is a plain file name.
pub fn is_plain_filename(name: &[u8]) -> (r: bool)
    ensures
        r == plain(name@),
{
    name.len() > 0 && is_inside(name)
}

/// A hexadecimal digit.
pub open spec fn hex_digit(b: u8) -> bool {
    (0x30 <= b <= 0x39) || (0x41 <= b <= 0x46) || (0x61 <= b <= 0x66)
}

/// Groups of 8, 4, 4, 4 and 12 hexadecimal digits with hyphens between them.
pub open spec fn grouped_digits(s: Seq<u8>) -> bool {
    &&& s.len() == 36
    &&& forall|i: int|
        #![trigger s[i]]
        0 <= i < 36 ==> if i == 8 || i == 13 || i == 18 || i == 23 {
            s[i] == 0x2D
        } else {
            hex_digit(s[i])
        }
}

/// `urn:uuid:`.
pub open spec fn urn_prefix() -> Seq<u8> {
    seq![0x75u8, 0x72, 0x6E, 0x3A, 0x75, 0x75, 0x69, 0x64, 0x3A]
}

/// A UUID: 32 hexadecimal digits, or the groups, plain, in braces or after
/// `urn:uuid:` in whatever case.
pub open spec fn uuid_text(s: Seq<u8>) -> bool {
    ||| s.len() == 32 && forall|i: int| 0 <= i < 32 ==> hex_digit(#[trigger] s[i])
    ||| grouped_digits(s)
    ||| s.len() == 38 && s[0] == 0x7B && s[37] == 0x7D && grouped_digits(s.subrange(1, 37))
    ||| s.len() == 45 && grouped_digits(s.skip(9)) && forall|i: int|
        #![trigger s[i]]
        0 <= i < 9 ==> s[i] == urn_prefix()[i] || (0x41 <= s[i] <= 0x5A && s[i] + 0x20
            == urn_prefix()[i])
}

/// A UUID in its hyphenated lower-case form.
pub open spec fn hyphenated(s: Seq<u8>) -> bool {
    &&& grouped_digits(s)
    &&& forall|i: int| 0 <= i < s.len() ==> !(0x41 <= #[trigger] s[i] <= 0x46)
}

/// Calls `uuid::Uuid::try_parse_ascii`: whether a text is a UUID in one of the
/// four forms that it takes.
#[verifier::external_body]
pub(crate) fn is_uuid(s: &[u8]) -> (r: bool)
    ensures
        r == uuid_text(s@),
{
    uuid::Uuid::try_parse_ascii(s).is_ok()
}

/// Calls `uuid::Uuid::new_v4` and writes it in its hyphenated form: groups of
/// lower-case hexadecimal digits. Which UUID it is is left open.
#[verifier::external_body]
pub(crate) fn new_uuid() -> (r: Vec<u8>)
    ensures
        hyphenated(r@),
{
    uuid::Uuid::new_v4().hyphenated().to_string().into_bytes()
}

/// `prefix`, a UUID and `suffix` in one name.
pub open spec fn is_generated(name: Seq<u8>, prefix: Seq<u8>, suffix: Seq<u8>) -> bool {
    exists|id: Seq<u8>|
        #![trigger prefix + id + suffix]
        hyphenated(id) && name == prefix + id + suffix
}

/// A fresh name with a prefix and a suffix.
pub fn generate_name(prefix: &[u8], suffix: &[u8]) -> (r: Vec<u8>)
    ensures
        is_generated(r@, prefix@, suffix@),
{
    let mut r: Vec<u8> = Vec::new();
    le::push_bytes(&mut r, prefix);
    let mut id = new_uuid();
    let ghost shown = id@;
    r.append(&mut id);
    le::push_bytes(&mut r, suffix);
    assert(r@ =~= prefix@ + shown + suffix@);
    r
}

/// A generated name is plain where its prefix and suffix hold no separator and
/// no dot but a single one at the start of the suffix.
pub proof fn lemma_generated_is_plain(name: Seq<u8>, prefix: Seq<u8>, suffix: Seq<u8>)
    requires
        is_generated(name, prefix, suffix),
        forall|i: int|
            0 <= i < prefix.len() ==> #[trigger] prefix[i] != 0x2F && prefix[i] != 0x5C && prefix[i]
                != 0x2E,
        forall|i: int|
            0 <= i < suffix.len() ==> #[trigger] suffix[i] != 0x2F && suffix[i] != 0x5C && (i > 0
                ==> suffix[i] != 0x2E),
    ensures
        plain(name),
{
    let id = choose|id: Seq<u8>|
        #![trigger prefix + id + suffix]
        hyphenated(id) && name == prefix + id + suffix;
    let a = prefix.len() as int;
    assert forall|i: int| 0 <= i < name.len() implies name[i] != 0x2F && name[i] != 0x5C && (name[i]
        == 0x2E ==> i == a + 36) by {
        if i < a {
            assert(name[i] == prefix[i]);
        } else if i < a + 36 {
            assert(name[i] == id[i - a]);
            assert(id[i - a] == 0x2D || hex_digit(id[i - a]));
        } else {
            assert(name[i] == suffix[i - a - 36]);
        }
    }
}

} // verus!
