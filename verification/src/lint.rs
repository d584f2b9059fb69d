//! The commit message conventions checked in continuous integration: a
//! subject of at most 100 bytes that starts with a capital letter and does
//! not end with a period, no unresolved `fixup!`/`squash!` commits, a blank
//! second line, and no merge commits.
use vstd::prelude::*;

use crate::artwork::chars_of;

verus! {

/// A broken commit message convention.
#[derive(Debug, Clone, Copy, PartialEq, Eq, Structural)]
pub enum LintIssue {
    /// The commit has more than one parent.
    Merge,
    /// The subject line is longer than 100 bytes; its length in bytes.
    SubjectTooLong(usize),
    /// The subject does not start with an ASCII capital letter.
    NotCapitalized,
    /// The subject ends with a period.
    EndsWithPeriod,
    /// The subject starts with `fixup!` or `squash!`.
    FixupOrSquash,
    /// The message has a second line and it is not blank.
    Line2NotBlank,
}

/// The first position at or after `from` that holds a line feed, or the
/// length of `s`.
pub open spec fn find_nl(s: Seq<char>, from: int) -> int
    decreases s.len() - from,
{
    if from >= s.len() {
        s.len() as int
    } else if s[from] == '\n' {
        from
    } else {
        find_nl(s, from + 1)
    }
}

/// The line of `s` that starts at `from`, without its line feed and without
/// the carriage return before that line feed (as `str::lines` gives it).
pub open spec fn line_at(s: Seq<char>, from: int) -> Seq<char> {
    let e = find_nl(s, from);
    let t = s.subrange(from, e);
    if e < s.len() && t.len() > 0 && t.last() == '\r' {
        t.drop_last()
    } else {
        t
    }
}

/// Bytes in the UTF-8 encoding of `c`.
pub open spec fn utf8_width(c: char) -> nat {
    if (c as u32) < 0x80 {
        1
    } else if (c as u32) < 0x800 {
        2
    } else if (c as u32) < 0x10000 {
        3
    } else {
        4
    }
}

/// Bytes in the UTF-8 encoding of `s`.
pub open spec fn utf8_len(s: Seq<char>) -> nat
    decreases s.len(),
{
    if s.len() == 0 {
        0
    } else {
        utf8_len(s.drop_last()) + utf8_width(s.last())
    }
}

pub open spec fn is_ascii_upper(c: char) -> bool {
    'A' <= c && c <= 'Z'
}

/// `s` starts with `p`.
pub open spec fn starts_with(s: Seq<char>, p: Seq<char>) -> bool {
    p.len() <= s.len() && s.subrange(0, p.len() as int) == p
}

pub open spec fn fixup_prefix() -> Seq<char> {
    seq!['f', 'i', 'x', 'u', 'p', '!']
}

pub open spec fn squash_prefix() -> Seq<char> {
    seq!['s', 'q', 'u', 'a', 's', 'h', '!']
}

/// `seq![x]` when `b` holds, else nothing.
pub open spec fn issue_if(b: bool, x: LintIssue) -> Seq<LintIssue> {
    if b {
        seq![x]
    } else {
        seq![]
    }
}

/// The issues of a commit with message `msg` and `parents` parents, in the
/// order they are reported: a merge commit is reported as such and nothing
/// else.
pub open spec fn lint_issues(msg: Seq<char>, parents: int) -> Seq<LintIssue> {
    if parents > 1 {
        seq![LintIssue::Merge]
    } else {
        let subject = line_at(msg, 0);
        let nl = find_nl(msg, 0);
        issue_if(utf8_len(subject) > 100, LintIssue::SubjectTooLong(utf8_len(subject) as usize))
            + issue_if(!(subject.len() > 0 && is_ascii_upper(subject[0])), LintIssue::NotCapitalized)
            + issue_if(subject.len() > 0 && subject.last() == '.', LintIssue::EndsWithPeriod)
            + issue_if(
            starts_with(subject, fixup_prefix()) || starts_with(subject, squash_prefix()),
            LintIssue::FixupOrSquash,
        ) + issue_if(nl + 1 < msg.len() && line_at(msg, nl + 1).len() > 0, LintIssue::Line2NotBlank)
    }
}

fn find_nl_exec(s: &Vec<char>, from: usize) -> (r: usize)
    requires
        from <= s@.len(),
    ensures
        r == find_nl(s@, from as int),
        from <= r <= s@.len(),
    decreases s@.len() - from,
{
    if from >= s.len() {
        s.len()
    } else if s[from] == '\n' {
        from
    } else {
        find_nl_exec(s, from + 1)
    }
}

/// The end, before any carriage return, of the line starting at `from`.
fn line_end(s: &Vec<char>, from: usize) -> (r: usize)
    requires
        from <= s@.len(),
    ensures
        from <= r <= s@.len(),
        line_at(s@, from as int) == s@.subrange(from as int, r as int),
{
    let e = find_nl_exec(s, from);
    if e < s.len() && e > from && s[e - 1] == '\r' {
        e - 1
    } else {
        e
    }
}

fn utf8_len_exec(s: &Vec<char>, from: usize, to: usize) -> (r: usize)
    requires
        from <= to <= s@.len(),
        4 * s@.len() <= usize::MAX,
    ensures
        r == utf8_len(s@.subrange(from as int, to as int)),
{
    let mut n: usize = 0;
    let mut i = from;
    while i < to
        invariant
            from <= i <= to <= s@.len(),
            4 * s@.len() <= usize::MAX,
            n == utf8_len(s@.subrange(from as int, i as int)),
            n <= 4 * (i - from),
        decreases to - i,
    {
        let c = s[i];
        let w: usize = if (c as u32) < 0x80 {
            1
        } else if (c as u32) < 0x800 {
            2
        } else if (c as u32) < 0x10000 {
            3
        } else {
            4
        };
        proof {
            let t = s@.subrange(from as int, i + 1);
            assert(t.drop_last() =~= s@.subrange(from as int, i as int));
            assert(t.last() == c);
        }
        n = n + w;
        i = i + 1;
    }
    n
}

/// Whether `s[from..to]` starts with `p`.
fn has_prefix(s: &Vec<char>, from: usize, to: usize, p: &[char]) -> (r: bool)
    requires
        from <= to <= s@.len(),
    ensures
        r == starts_with(s@.subrange(from as int, to as int), p@),
{
    let ghost t = s@.subrange(from as int, to as int);
    if p.len() > to - from {
        return false;
    }
    let mut i: usize = 0;
    while i < p.len()
        invariant
            from <= to <= s@.len(),
            p@.len() <= to - from,
            t == s@.subrange(from as int, to as int),
            0 <= i <= p@.len(),
            forall|j: int| 0 <= j < i ==> t[j] == p@[j],
        decreases p.len() - i,
    {
        if s[from + i] != p[i] {
            assert(t.subrange(0, p@.len() as int)[i as int] != p@[i as int]);
            return false;
        }
        i = i + 1;
    }
    assert(t.subrange(0, p@.len() as int) =~= p@);
    true
}

/// The convention issues of a commit with message `msg` and `parents`
/// parents, in the order in which they are reported.
pub fn lint_message(msg: &str, parents: usize) -> (r: Vec<LintIssue>)
    requires
        4 * msg@.len() <= usize::MAX,
    ensures
        r@ == lint_issues(msg@, parents as int),
{
    let mut issues: Vec<LintIssue> = Vec::new();
    if parents > 1 {
        issues.push(LintIssue::Merge);
        return issues;
    }
    let s = chars_of(msg);
    let ghost m = s@;
    let se = line_end(&s, 0);
    let ghost subject = m.subrange(0, se as int);
    let len = utf8_len_exec(&s, 0, se);
    if len > 100 {
        issues.push(LintIssue::SubjectTooLong(len));
    }
    let ghost i1 = issues@;
    if !(se > 0 && s[0] >= 'A' && s[0] <= 'Z') {
        issues.push(LintIssue::NotCapitalized);
    }
    let ghost i2 = issues@;
    if se > 0 && s[se - 1] == '.' {
        issues.push(LintIssue::EndsWithPeriod);
    }
    let ghost i3 = issues@;
    let fixup: [char; 6] = ['f', 'i', 'x', 'u', 'p', '!'];
    let squash: [char; 7] = ['s', 'q', 'u', 'a', 's', 'h', '!'];
    proof {
        assert(fixup@ =~= fixup_prefix());
        assert(squash@ =~= squash_prefix());
    }
    if has_prefix(&s, 0, se, fixup.as_slice()) || has_prefix(&s, 0, se, squash.as_slice()) {
        issues.push(LintIssue::FixupOrSquash);
    }
    let ghost i4 = issues@;
    let nl = find_nl_exec(&s, 0);
    if nl < s.len() && nl + 1 < s.len() {
        let e2 = line_end(&s, nl + 1);
        if e2 > nl + 1 {
            issues.push(LintIssue::Line2NotBlank);
        }
    }
    proof {
        let subj = line_at(m, 0);
        assert(subj == subject);
        assert(i1 == issue_if(utf8_len(subj) > 100, LintIssue::SubjectTooLong(utf8_len(subj) as usize)));
        assert(i2 == i1 + issue_if(!(subj.len() > 0 && is_ascii_upper(subj[0])), LintIssue::NotCapitalized));
        assert(i3 == i2 + issue_if(subj.len() > 0 && subj.last() == '.', LintIssue::EndsWithPeriod));
        assert(i4 == i3 + issue_if(
            starts_with(subj, fixup_prefix()) || starts_with(subj, squash_prefix()),
            LintIssue::FixupOrSquash,
        ));
        assert(issues@ =~= lint_issues(m, parents as int));
    }
    issues
}

} // verus!
