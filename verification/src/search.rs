//! What a search is asked and what it gives.

use std::sync::Arc;
use vstd::prelude::*;
use vstd::slice::slice_subrange;

verus! {

/// One matching line.
#[derive(Debug, Clone)]
pub struct SearchMatch {
    /// Path of the file in the repository.
    pub path: Vec<u8>,
    /// Number of the line, from one on.
    pub line_number: u32,
    /// The line, without its end.
    pub line_content: Vec<u8>,
    /// Where the first match starts in the file.
    pub byte_offset: u64,
    /// Where the first match starts in the line.
    pub submatch_start: usize,
    /// Where the first match ends in the line.
    pub submatch_end: usize,
}

/// The matches in one file, with the text that they were found in.
///
/// Line numbers and offsets count in this text, not in the file on disk, which
/// may have changed since.
#[derive(Debug, Clone)]
#[non_exhaustive]
pub struct FileMatches {
    /// Path of the file in the repository.
    pub path: Vec<u8>,
    /// The matches, by ascending line number.
    pub matches: Vec<SearchMatch>,
    /// The text of the file when it was searched.
    pub content: Arc<Vec<u8>>,
}

/// What to search for, and how.
#[derive(Debug, Clone)]
#[non_exhaustive]
pub struct SearchOptions {
    /// Search only paths that match this glob.
    pub path_filter: Option<String>,
    /// Search only files of this type.
    pub file_type: Option<String>,
    /// Leave out files of this type.
    pub exclude_type: Option<String>,
    /// Search only files of these types.
    pub file_types: Vec<String>,
    /// Leave out files of these types.
    pub exclude_types: Vec<String>,
    /// The most results.
    pub max_results: Option<usize>,
    /// Ignore case.
    pub case_insensitive: bool,
    /// Match with this pattern; the one searched for only finds candidates.
    pub verify_pattern: Option<String>,
    /// Leave the lines out of the results.
    pub skip_line_content: bool,
    /// Always give the results in the same order.
    pub deterministic: bool,
}

impl Default for SearchOptions {
    fn default() -> (o: Self)
        ensures
            o.path_filter is None,
            o.file_type is None,
            o.exclude_type is None,
            o.file_types@ == Seq::<String>::empty(),
            o.exclude_types@ == Seq::<String>::empty(),
            o.max_results is None,
            !o.case_insensitive,
            o.verify_pattern is None,
            !o.skip_line_content,
            !o.deterministic,
    {
        SearchOptions {
            path_filter: None,
            file_type: None,
            exclude_type: None,
            file_types: Vec::new(),
            exclude_types: Vec::new(),
            max_results: None,
            case_insensitive: false,
            verify_pattern: None,
            skip_line_content: false,
            deterministic: false,
        }
    }
}

/// The byte that ends a line.
pub const NEWLINE: u8 = 0x0A;

/// The byte that may come before the end of a line.
pub const RETURN: u8 = 0x0D;

/// Where the first line of a text ends.
pub open spec fn line_len(b: Seq<u8>) -> nat
    decreases b.len(),
{
    if b.len() == 0 || b[0] == NEWLINE {
        0
    } else {
        1 + line_len(b.skip(1))
    }
}

/// A line that a newline ends, without a carriage return before it.
pub open spec fn without_return(line: Seq<u8>) -> Seq<u8> {
    if line.len() > 0 && line.last() == RETURN {
        line.drop_last()
    } else {
        line
    }
}

/// The lines of a text. What follows the last newline is a line unless it is
/// empty.
pub open spec fn lines_of(b: Seq<u8>) -> Seq<Seq<u8>>
    decreases b.len(),
{
    let n = line_len(b);
    if b.len() == 0 {
        Seq::empty()
    } else if n >= b.len() {
        seq![b]
    } else {
        seq![without_return(b.take(n as int))] + lines_of(b.skip(n as int + 1))
    }
}

pub(crate) proof fn lemma_line_len_is(b: Seq<u8>, n: nat)
    requires
        n <= b.len(),
        forall|i: int| 0 <= i < n ==> b[i] != NEWLINE,
        n < b.len() ==> b[n as int] == NEWLINE,
    ensures
        line_len(b) == n,
    decreases b.len(),
{
    if n > 0 {
        let t = b.skip(1);
        assert forall|i: int| 0 <= i < n - 1 implies t[i] != NEWLINE by {
            assert(t[i] == b[i + 1]);
        }
        lemma_line_len_is(t, (n - 1) as nat);
    }
}

/// Numbered lines are those of a text, from the first on.
pub open spec fn numbers_lines(r: Seq<(u32, &[u8])>, ls: Seq<Seq<u8>>) -> bool {
    &&& r.len() == ls.len()
    &&& forall|i: int| 0 <= i < r.len() ==> (#[trigger] r[i]).0 == i + 1 && r[i].1@ == ls[i]
}

impl FileMatches {
    /// The matches in one file.
    pub fn new(path: Vec<u8>, matches: Vec<SearchMatch>, content: Arc<Vec<u8>>) -> (f: Self)
        ensures
            f == (FileMatches { path, matches, content }),
    {
        FileMatches { path, matches, content }
    }

    /// These are the lines of the text with their numbers.
    pub open spec fn is_numbering(self, r: Seq<(u32, &[u8])>) -> bool {
        numbers_lines(r, lines_of(self.content@))
    }

    /// These are the lines around a line.
    pub open spec fn is_excerpt(
        self,
        line_number: u32,
        before: usize,
        after: usize,
        r: Seq<(u32, &[u8], bool)>,
    ) -> bool {
        is_context(
            r,
            lines_of(self.content@),
            line_number as int,
            before as int,
            after as int,
        )
    }

    /// The lines of the text with their numbers, from one on, without newlines
    /// and without the carriage returns before them.
    pub fn lines(&self) -> (r: Vec<(u32, &[u8])>)
        requires
            lines_of(self.content@).len() <= u32::MAX,
        ensures
            self.is_numbering(r@),
    {
        let text: &[u8] = self.content.as_slice();
        let ghost all = lines_of(text@);
        let mut r: Vec<(u32, &[u8])> = Vec::new();
        let mut start: usize = 0;
        let mut number: u32 = 0;
        let mut i: usize = 0;
        assert(text@.skip(0) =~= text@);
        assert(all.take(0) + all =~= all);
        while i < text.len()
            invariant
                text@ == self.content@,
                all == lines_of(text@),
                all.len() <= u32::MAX,
                start <= i <= text@.len(),
                forall|k: int| start <= k < i ==> text@[k] != NEWLINE,
                number == r@.len(),
                number <= all.len(),
                numbers_lines(r@, all.take(number as int)),
                all == all.take(number as int) + lines_of(text@.skip(start as int)),
            decreases text@.len() - i,
        {
            if text[i] == NEWLINE {
                let ghost t = text@.skip(start as int);
                let ghost rest = lines_of(text@.skip(i + 1));
                proof {
                    lemma_line_len_is(t, (i - start) as nat);
                    assert(t.skip(i - start + 1) =~= text@.skip(i + 1));
                    assert(lines_of(t) == seq![without_return(t.take(i - start))] + rest);
                    assert(all[number as int] == lines_of(t)[0]);
                    assert(all.take(number + 1) =~= all.take(number as int).push(lines_of(t)[0]));
                    assert(all =~= all.take(number + 1) + rest);
                }
                let end: usize = if i > start && text[i - 1] == RETURN {
                    i - 1
                } else {
                    i
                };
                let line: &[u8] = slice_subrange(text, start, end);
                proof {
                    assert(line@ =~= without_return(t.take(i - start)));
                }
                let ghost before = r@;
                number = number + 1;
                r.push((number, line));
                proof {
                    assert forall|k: int| 0 <= k < r@.len() implies (#[trigger] r@[k]).0 == k + 1
                        && r@[k].1@ == all.take(number as int)[k] by {
                        if k < before.len() {
                            assert(r@[k] == before[k]);
                            assert(all.take(number - 1)[k] == all.take(number as int)[k]);
                        }
                    }
                }
                start = i + 1;
            }
            i = i + 1;
        }
        let ghost t = text@.skip(start as int);
        if start < text.len() {
            proof {
                lemma_line_len_is(t, t.len());
                assert(lines_of(t) == seq![t]);
                assert(all[number as int] == t);
                assert(all.take(number + 1) =~= all);
            }
            let line: &[u8] = slice_subrange(text, start, text.len());
            let ghost before = r@;
            number = number + 1;
            r.push((number, line));
            proof {
                assert(line@ =~= t);
                assert forall|k: int| 0 <= k < r@.len() implies (#[trigger] r@[k]).0 == k + 1
                    && r@[k].1@ == all[k] by {
                    if k < before.len() {
                        assert(r@[k] == before[k]);
                        assert(all.take(number - 1)[k] == all[k]);
                    }
                }
            }
        } else {
            proof {
                assert(lines_of(t) =~= Seq::<Seq<u8>>::empty());
                assert(all.take(number as int) =~= all);
            }
        }
        r
    }

    /// The lines around a line: up to `before` ahead of it, itself, and up to
    /// `after` behind it. The last part of each tells the line itself.
    pub fn context(&self, line_number: u32, before: usize, after: usize) -> (r: Vec<
        (u32, &[u8], bool),
    >)
        requires
            lines_of(self.content@).len() <= u32::MAX,
        ensures
            self.is_excerpt(line_number, before, after, r@),
    {
        let ghost ls = lines_of(self.content@);
        let ghost first = first_shown(line_number as int, before as int);
        let ghost last = last_shown(line_number as int, after as int, ls.len() as int);
        let target: usize = line_number as usize;
        let lo: usize = target.saturating_sub(before);
        let hi: usize = target.saturating_add(after);
        let all = self.lines();
        let mut r: Vec<(u32, &[u8], bool)> = Vec::new();
        let mut i: usize = 0;
        while i < all.len()
            invariant
                numbers_lines(all@, ls),
                ls.len() <= u32::MAX,
                ls == lines_of(self.content@),
                i <= all@.len(),
                target == line_number,
                lo == (if target < before {
                    0
                } else {
                    target - before
                }),
                hi == (if target + after > usize::MAX {
                    usize::MAX as int
                } else {
                    target + after
                }),
                first == first_shown(line_number as int, before as int),
                last == last_shown(line_number as int, after as int, ls.len() as int),
                r@.len() == (if i < first {
                    0
                } else if i <= last {
                    i - first + 1
                } else if last < first {
                    0
                } else {
                    last - first + 1
                }),
                forall|k: int|
                    0 <= k < r@.len() ==> (#[trigger] r@[k]).0 == first + k && r@[k].1@ == ls[first
                        + k - 1] && r@[k].2 == (first + k == line_number),
            decreases all@.len() - i,
        {
            let line: (u32, &[u8]) = all[i];
            assert(all@[i as int].0 == i + 1);
            let n: usize = line.0 as usize;
            if n >= lo && n <= hi {
                r.push((line.0, line.1, n == target));
            }
            i = i + 1;
        }
        r
    }
}

/// The first line that is shown around a line.
pub open spec fn first_shown(line: int, before: int) -> int {
    if line - before < 1 {
        1
    } else {
        line - before
    }
}

/// The last line that is shown around a line, of `count` lines.
pub open spec fn last_shown(line: int, after: int, count: int) -> int {
    if line + after > count {
        count
    } else {
        line + after
    }
}

/// `r` shows the lines around a line, in order, and tells which it is.
pub open spec fn is_context(
    r: Seq<(u32, &[u8], bool)>,
    ls: Seq<Seq<u8>>,
    line: int,
    before: int,
    after: int,
) -> bool {
    let first = first_shown(line, before);
    let last = last_shown(line, after, ls.len() as int);
    &&& r.len() == (if last < first {
        0
    } else {
        last - first + 1
    })
    &&& forall|i: int|
        0 <= i < r.len() ==> (#[trigger] r[i]).0 == first + i && r[i].1@ == ls[first + i - 1]
            && r[i].2 == (first + i == line)
}

/// The context of a line is what the numbered lines hold between `before` lines
/// ahead of it and `after` lines behind it, in ascending order: every such line is
/// shown once, nothing else is, and the line itself, if there is one, is the one
/// that is told.
pub proof fn law_context_is_the_lines_around(
    r: Seq<(u32, &[u8], bool)>,
    numbered: Seq<(u32, &[u8])>,
    ls: Seq<Seq<u8>>,
    line: u32,
    before: usize,
    after: usize,
)
    requires
        is_context(r, ls, line as int, before as int, after as int),
        numbers_lines(numbered, ls),
    ensures
        forall|k: int|
            #![trigger numbered[k]]
            0 <= k < numbered.len() && line - before <= numbered[k].0 <= line + after
                ==> exists|i: int|
                0 <= i < r.len() && (#[trigger] r[i]).0 == numbered[k].0 && r[i].1@
                    == numbered[k].1@ && r[i].2 == (numbered[k].0 == line),
        forall|i: int|
            #![trigger r[i]]
            0 <= i < r.len() ==> line - before <= r[i].0 <= line + after && (exists|k: int|
                0 <= k < numbered.len() && (#[trigger] numbered[k]).0 == r[i].0
                    && numbered[k].1@ == r[i].1@) && r[i].2 == (r[i].0 == line),
        forall|i: int, j: int| 0 <= i < j < r.len() ==> r[i].0 < r[j].0,
        r.len() <= before + after + 1,
        forall|i: int, j: int| 0 <= i < j < r.len() ==> !(r[i].2 && r[j].2),
        (exists|i: int| 0 <= i < r.len() && (#[trigger] r[i]).2) <==> 1 <= line <= ls.len(),
{
    let first = first_shown(line as int, before as int);
    let last = last_shown(line as int, after as int, ls.len() as int);
    assert forall|k: int|
        #![trigger numbered[k]]
        0 <= k < numbered.len() && line - before <= numbered[k].0 <= line
            + after implies exists|i: int|
        0 <= i < r.len() && (#[trigger] r[i]).0 == numbered[k].0 && r[i].1@ == numbered[k].1@
            && r[i].2 == (numbered[k].0 == line) by {
        assert(numbered[k].0 == k + 1);
        assert(r[k + 1 - first].0 == k + 1);
    }
    assert forall|i: int| #![trigger r[i]] 0 <= i < r.len() implies line - before <= r[i].0 <= line
        + after && (exists|k: int|
        0 <= k < numbered.len() && (#[trigger] numbered[k]).0 == r[i].0 && numbered[k].1@
            == r[i].1@) && r[i].2 == (r[i].0 == line) by {
        assert(numbered[first + i - 1].0 == first + i);
    }
    if 1 <= line <= ls.len() {
        assert(r[line - first].2);
    }
}

/// Every line of the text is listed, in order, with its number counted from one; and the
/// lines around a line are those of the text.
pub proof fn law_every_line_is_numbered(
    f: FileMatches,
    r: Seq<(u32, &[u8])>,
    line: u32,
    before: usize,
    after: usize,
    around: Seq<(u32, &[u8], bool)>,
    i: int,
)
    requires
        f.is_numbering(r),
        f.is_excerpt(line, before, after, around),
        0 <= i < lines_of(f.content@).len(),
    ensures
        r.len() == lines_of(f.content@).len(),
        r[i].0 == i + 1,
        r[i].1@ == lines_of(f.content@)[i],
        line - before <= i + 1 <= line + after ==> exists|k: int|
            0 <= k < around.len() && (#[trigger] around[k]).0 == i + 1 && around[k].1@ == lines_of(
                f.content@,
            )[i] && around[k].2 == (i + 1 == line),
        around.len() <= before + after + 1,
{
    let ls = lines_of(f.content@);
    law_context_is_the_lines_around(around, r, ls, line, before, after);
    if line - before <= i + 1 <= line + after {
        assert(r[i].0 == i + 1);
    }
}

} // verus!
