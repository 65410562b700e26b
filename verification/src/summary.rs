//! The line that a build ends with.

use vstd::prelude::*;

verus! {

/// A decimal digit.
pub open spec fn digit(d: nat) -> Seq<char> {
    if d == 0 {
        "0"@
    } else if d == 1 {
        "1"@
    } else if d == 2 {
        "2"@
    } else if d == 3 {
        "3"@
    } else if d == 4 {
        "4"@
    } else if d == 5 {
        "5"@
    } else if d == 6 {
        "6"@
    } else if d == 7 {
        "7"@
    } else if d == 8 {
        "8"@
    } else {
        "9"@
    }
}

/// A number in decimal digits.
pub open spec fn decimal(n: nat) -> Seq<char>
    decreases n,
{
    if n < 10 {
        digit(n)
    } else {
        decimal(n / 10) + digit(n % 10)
    }
}

fn append_digit(s: &mut String, d: u8)
    requires
        d < 10,
    ensures
        final(s)@ == old(s)@ + digit(d as nat),
{
    if d == 0 {
        s.append("0");
    } else if d == 1 {
        s.append("1");
    } else if d == 2 {
        s.append("2");
    } else if d == 3 {
        s.append("3");
    } else if d == 4 {
        s.append("4");
    } else if d == 5 {
        s.append("5");
    } else if d == 6 {
        s.append("6");
    } else if d == 7 {
        s.append("7");
    } else if d == 8 {
        s.append("8");
    } else {
        s.append("9");
    }
}

/// Appends a number in decimal digits.
pub fn append_decimal(s: &mut String, n: u128)
    ensures
        final(s)@ == old(s)@ + decimal(n as nat),
    decreases n,
{
    let ghost before = s@;
    if n >= 10 {
        append_decimal(s, n / 10);
    }
    append_digit(s, (n % 10) as u8);
    assert(s@ =~= before + decimal(n as nat));
}

/// A list of reasons with one more, unless its number is zero.
pub open spec fn with_reason(text: Seq<char>, n: nat, name: Seq<char>) -> Seq<char> {
    if n == 0 {
        text
    } else if text.len() == 0 {
        decimal(n) + name
    } else {
        text + ", "@ + decimal(n) + name
    }
}

fn append_reason(text: &mut String, n: usize, name: &str)
    ensures
        final(text)@ == with_reason(old(text)@, n as nat, name@),
{
    if n == 0 {
        return;
    }
    let ghost before = text@;
    if !text.as_str().is_empty() {
        text.append(", ");
    }
    append_decimal(text, n as u128);
    text.append(name);
    assert(text@ =~= with_reason(before, n as nat, name@));
}

/// The line that a build ends with: what was indexed, and why files were not.
pub open spec fn build_summary(
    files: nat,
    segments: nat,
    binary: nat,
    unreadable: nat,
    too_large: nat,
) -> Seq<char> {
    let line = "syntext: indexed "@ + decimal(files) + " files into "@ + decimal(segments)
        + " segment(s)"@;
    if binary + unreadable + too_large == 0 {
        line
    } else {
        let reasons = with_reason(
            with_reason(with_reason(Seq::empty(), binary, " binary"@), unreadable, " unreadable"@),
            too_large,
            " too large"@,
        );
        line + " (skipped "@ + decimal(binary + unreadable + too_large) + ": "@ + reasons + ")"@
    }
}

/// The line that a build ends with.
pub fn format_build_summary(
    files: u32,
    segments: usize,
    binary: usize,
    unreadable: usize,
    too_large: usize,
) -> (r: String)
    ensures
        r@ == build_summary(
            files as nat,
            segments as nat,
            binary as nat,
            unreadable as nat,
            too_large as nat,
        ),
{
    let mut s = String::new();
    s.append("syntext: indexed ");
    append_decimal(&mut s, files as u128);
    s.append(" files into ");
    append_decimal(&mut s, segments as u128);
    s.append(" segment(s)");
    proof {
        assert(s@ =~= "syntext: indexed "@ + decimal(files as nat) + " files into "@ + decimal(
            segments as nat,
        ) + " segment(s)"@);
    }
    let skipped: u128 = binary as u128 + unreadable as u128 + too_large as u128;
    if skipped > 0 {
        let mut reasons = String::new();
        assert(reasons@ =~= Seq::<char>::empty());
        append_reason(&mut reasons, binary, " binary");
        append_reason(&mut reasons, unreadable, " unreadable");
        append_reason(&mut reasons, too_large, " too large");
        s.append(" (skipped ");
        append_decimal(&mut s, skipped);
        s.append(": ");
        s.append(reasons.as_str());
        s.append(")");
    }
    s
}

/// The value of decimal digits.
pub open spec fn value_of(s: Seq<char>) -> nat
    decreases s.len(),
{
    if s.len() == 0 {
        0
    } else {
        (10 * value_of(s.drop_last()) + (s.last() as u32 - 48)) as nat
    }
}

proof fn lemma_digit(d: nat)
    requires
        d < 10,
    ensures
        digit(d).len() == 1,
        digit(d)[0] as u32 == 48 + d,
{
    reveal_strlit("0");
    reveal_strlit("1");
    reveal_strlit("2");
    reveal_strlit("3");
    reveal_strlit("4");
    reveal_strlit("5");
    reveal_strlit("6");
    reveal_strlit("7");
    reveal_strlit("8");
    reveal_strlit("9");
}

/// A number is written as the digits whose value it is, without a zero in front.
pub proof fn law_numbers_are_written_in_decimal(n: nat)
    ensures
        value_of(decimal(n)) == n,
        decimal(n).len() > 0,
        n > 0 ==> decimal(n)[0] as u32 != 48,
        forall|i: int|
            0 <= i < decimal(n).len() ==> 48 <= (#[trigger] decimal(n)[i]) as u32 && decimal(
                n,
            )[i] as u32 <= 57,
    decreases n,
{
    if n < 10 {
        lemma_digit(n);
        let s = digit(n);
        assert(s.drop_last().len() == 0);
        assert(value_of(s.drop_last()) == 0);
        assert(s.last() == s[0]);
    } else {
        law_numbers_are_written_in_decimal(n / 10);
        lemma_digit(n % 10);
        let front = decimal(n / 10);
        let s = decimal(n);
        assert(s.drop_last() =~= front);
        assert(s.last() == digit(n % 10)[0]);
        assert(s[0] == front[0]);
        assert forall|i: int| 0 <= i < s.len() implies 48 <= (#[trigger] s[i]) as u32 && s[i] as u32
            <= 57 by {
            if i < front.len() {
                assert(s[i] == front[i]);
            }
        }
    }
}

/// A number of files and why they were left out; nothing for none.
pub open spec fn left_out(n: nat, name: Seq<char>) -> Seq<char> {
    if n == 0 {
        Seq::empty()
    } else {
        decimal(n) + name
    }
}

/// What stands between two things that are both there.
pub open spec fn between(a: bool, b: bool) -> Seq<char> {
    if a && b {
        ", "@
    } else {
        Seq::empty()
    }
}

/// The line tells how many files and segments there are. Where files were left out, it also
/// tells how many, and how many for each reason that has any, with commas between them.
pub proof fn law_summaries_tell_what_was_left_out(
    files: nat,
    segments: nat,
    binary: nat,
    unreadable: nat,
    too_large: nat,
)
    ensures
        ({
            let line = "syntext: indexed "@ + decimal(files) + " files into "@ + decimal(segments)
                + " segment(s)"@;
            let all = binary + unreadable + too_large;
            let reasons = left_out(binary, " binary"@) + between(binary > 0, unreadable > 0)
                + left_out(unreadable, " unreadable"@) + between(
                binary + unreadable > 0,
                too_large > 0,
            ) + left_out(too_large, " too large"@);
            build_summary(files, segments, binary, unreadable, too_large) == (if all == 0 {
                line
            } else {
                line + " (skipped "@ + decimal(all) + ": "@ + reasons + ")"@
            })
        }),
{
    let none = Seq::<char>::empty();
    law_numbers_are_written_in_decimal(binary);
    law_numbers_are_written_in_decimal(unreadable);
    law_numbers_are_written_in_decimal(too_large);
    let a = with_reason(none, binary, " binary"@);
    let b = with_reason(a, unreadable, " unreadable"@);
    let c = with_reason(b, too_large, " too large"@);
    assert(a =~= left_out(binary, " binary"@));
    assert(b =~= left_out(binary, " binary"@) + between(binary > 0, unreadable > 0) + left_out(
        unreadable,
        " unreadable"@,
    ));
    assert(c =~= left_out(binary, " binary"@) + between(binary > 0, unreadable > 0) + left_out(
        unreadable,
        " unreadable"@,
    ) + between(binary + unreadable > 0, too_large > 0) + left_out(too_large, " too large"@));
}

} // verus!
