//! What is shown of a repository on disk, read from what `git` prints.

use vstd::prelude::*;

use crate::text;

verus! {

/// What is shown of a repository on disk.
#[derive(Clone, Debug)]
pub struct GitStatus {
    pub is_git: bool,
    pub branch: Option<String>,
    pub changed_count: usize,
    pub last_commit_at: Option<String>,
    pub has_upstream: bool,
    pub ahead: u32,
    pub behind: u32,
}

/// The branch that is checked out; a detached head is none.
pub open spec fn branch_of(out: Seq<char>) -> Option<Seq<char>> {
    let name = text::trimmed(out);
    if name.len() == 0 || name == "HEAD"@ {
        None
    } else {
        Some(name)
    }
}

pub fn clean_branch(out: &str) -> (r: Option<String>)
    ensures
        text::opt_text(r) == branch_of(out@),
{
    let name = text::trim_text(out);
    let chars = text::chars_of(name.as_str());
    if chars.len() == 0 || text::same_text(name.as_str(), "HEAD") {
        None
    } else {
        Some(name)
    }
}

/// How many of some texts are not blank.
pub open spec fn nonblank(lines: Seq<Seq<char>>) -> nat
    decreases lines.len(),
{
    if lines.len() == 0 {
        0
    } else {
        nonblank(lines.drop_last()) + if text::trimmed(lines.last()).len() > 0 {
            1nat
        } else {
            0nat
        }
    }
}

/// How many files have changed: one line each.
pub fn parse_changed_count(out: &str) -> (r: usize)
    ensures
        r == nonblank(text::split_on(out@, '\n')),
{
    let lines = text::split_text(out, '\n');
    let ghost lv = text::texts(lines@);
    let mut count: usize = 0;
    let mut i: usize = 0;
    while i < lines.len()
        invariant
            i <= lines@.len(),
            lv == text::texts(lines@),
            count <= i,
            count == nonblank(lv.take(i as int)),
        decreases lines@.len() - i,
    {
        proof {
            assert(lv.take(i + 1).drop_last() =~= lv.take(i as int));
            assert(lv.take(i + 1).last() == lines@[i as int]@);
        }
        let chars = text::chars_of(lines[i].as_str());
        let rest = text::trim_chars(&chars);
        if rest.len() > 0 {
            count += 1;
        }
        i += 1;
    }
    assert(lv.take(lv.len() as int) =~= lv);
    count
}

/// A number, or zero where a text is none.
pub open spec fn number_or_zero(s: Seq<char>) -> nat {
    match text::unsigned_value(s, u32::MAX as nat) {
        Some(n) => n,
        None => 0,
    }
}

/// The commits that the branch is ahead of its upstream and behind it, from two numbers with a
/// tab between them, of which the first is behind.
pub open spec fn distance_of(out: Seq<char>) -> (nat, nat) {
    match text::split_first(text::trimmed(out), '\t') {
        Some((behind, ahead)) => (
            number_or_zero(text::trimmed(ahead)),
            number_or_zero(text::trimmed(behind)),
        ),
        None => (0, 0),
    }
}

fn read_number(s: &str) -> (r: u32)
    ensures
        r == number_or_zero(text::trimmed(s@)),
{
    let chars = text::chars_of(s);
    let rest = text::trim_chars(&chars);
    match text::parse_unsigned(&rest, u32::MAX as u64) {
        Some(n) => {
            proof {
                text::lemma_unsigned_bound(rest@, u32::MAX as nat);
            }
            n as u32
        },
        None => 0,
    }
}

pub fn parse_ahead_behind(out: &str) -> (r: (u32, u32))
    ensures
        r.0 == distance_of(out@).0,
        r.1 == distance_of(out@).1,
{
    let trimmed = text::trim_text(out);
    match text::split_at_first(trimmed.as_str(), '\t') {
        Some((behind, ahead)) => (read_number(ahead.as_str()), read_number(behind.as_str())),
        None => (0, 0),
    }
}

/// What is shown of a repository, from what `git` has printed on being asked for the branch, the
/// changed files, the last commit and the distance from the upstream, each nothing where `git`
/// failed. Without a branch there is no repository.
pub fn status_from(
    branch: Option<&str>,
    changes: Option<&str>,
    last_commit: Option<&str>,
    distance: Option<&str>,
) -> (r: GitStatus)
    ensures
        match branch {
            None => r == (GitStatus {
                is_git: false,
                branch: None,
                changed_count: 0,
                last_commit_at: None,
                has_upstream: false,
                ahead: 0,
                behind: 0,
            }),
            Some(b) => {
                &&& r.is_git
                &&& text::opt_text(r.branch) == branch_of(b@)
                &&& r.changed_count == match changes {
                    Some(out) => nonblank(text::split_on(out@, '\n')),
                    None => 0,
                }
                &&& text::opt_text(r.last_commit_at) == match last_commit {
                    Some(out) => if text::trimmed(out@).len() > 0 {
                        Some(text::trimmed(out@))
                    } else {
                        None
                    },
                    None => None,
                }
                &&& r.has_upstream == distance is Some
                &&& (r.ahead as nat, r.behind as nat) == match distance {
                    Some(out) => distance_of(out@),
                    None => (0nat, 0nat),
                }
            },
        },
{
    let raw = match branch {
        Some(b) => b,
        None => {
            return GitStatus {
                is_git: false,
                branch: None,
                changed_count: 0,
                last_commit_at: None,
                has_upstream: false,
                ahead: 0,
                behind: 0,
            };
        },
    };
    let changed_count: usize = match changes {
        Some(out) => parse_changed_count(out),
        None => 0,
    };
    let last_commit_at = match last_commit {
        Some(out) => {
            let t = text::trim_text(out);
            let chars = text::chars_of(t.as_str());
            if chars.len() > 0 {
                Some(t)
            } else {
                None
            }
        },
        None => None,
    };
    let counts = match distance {
        Some(out) => parse_ahead_behind(out),
        None => (0, 0),
    };
    GitStatus {
        is_git: true,
        branch: clean_branch(raw),
        changed_count,
        last_commit_at,
        has_upstream: distance.is_some(),
        ahead: counts.0,
        behind: counts.1,
    }
}

/// The distance is read as it is printed: first the commits behind, then those ahead, with a tab
/// between them and with or without a line's end.
pub proof fn law_distance_is_read_as_printed(behind: nat, ahead: nat, end: Seq<char>)
    requires
        behind <= u32::MAX,
        ahead <= u32::MAX,
        forall|i: int| 0 <= i < end.len() ==> text::is_space(#[trigger] end[i]),
    ensures
        distance_of(text::decimal(behind) + seq!['\t'] + text::decimal(ahead) + end) == (
            ahead,
            behind,
        ),
{
    let b = text::decimal(behind);
    let a = text::decimal(ahead);
    let none = Seq::<char>::empty();
    text::lemma_decimal_digits(behind);
    text::lemma_decimal_digits(ahead);
    text::lemma_unsigned_round_trip(behind, u32::MAX as nat);
    text::lemma_unsigned_round_trip(ahead, u32::MAX as nat);
    let core = b + seq!['\t'] + a;
    assert(core[0] == b[0] && core.last() == a.last());
    assert(text::is_digit(b[0]) && text::is_digit(b[b.len() - 1]));
    assert(text::is_digit(a[0]) && text::is_digit(a[a.len() - 1]));
    text::law_trimming_takes_off_white_space(none, core, end);
    assert(none + core + end =~= b + seq!['\t'] + a + end);
    assert forall|j: int| 0 <= j < b.len() implies core[j] != '\t' by {
        assert(core[j] == b[j]);
        assert(text::is_digit(b[j]));
    }
    text::lemma_split_first(core, '\t', b.len() as int);
    assert(core.take(b.len() as int) =~= b);
    assert(core.skip(b.len() as int + 1) =~= a);
    text::law_trimming_takes_off_white_space(none, a, none);
    text::law_trimming_takes_off_white_space(none, b, none);
    assert(none + a + none =~= a);
    assert(none + b + none =~= b);
}

/// A branch is read as it is printed, without the white space around it; a head that is on no branch
/// is none.
pub proof fn law_branch_is_read_as_printed(before: Seq<char>, name: Seq<char>, end: Seq<char>)
    requires
        forall|i: int| 0 <= i < before.len() ==> text::is_space(#[trigger] before[i]),
        forall|i: int| 0 <= i < end.len() ==> text::is_space(#[trigger] end[i]),
        name.len() > 0 ==> !text::is_space(name[0]) && !text::is_space(name.last()),
    ensures
        name.len() > 0 && name != "HEAD"@ ==> branch_of(before + name + end) == Some(name),
        name.len() == 0 || name == "HEAD"@ ==> branch_of(before + name + end) is None,
{
    text::law_trimming_takes_off_white_space(before, name, end);
}

/// Each line that is not blank counts for one changed file, and a blank one for none: where the
/// lines with something on them are told by their places, there are as many files as places.
pub proof fn law_each_line_is_one_file(lines: Seq<Seq<char>>, line: Seq<char>)
    ensures
        nonblank(lines.push(line)) == nonblank(lines) + if text::trimmed(line).len() > 0 {
            1nat
        } else {
            0nat
        },
        nonblank(lines) <= lines.len(),
        (forall|i: int| 0 <= i < lines.len() ==> text::trimmed(#[trigger] lines[i]).len() > 0)
            <==> nonblank(lines) == lines.len(),
        (forall|i: int| 0 <= i < lines.len() ==> text::trimmed(#[trigger] lines[i]).len() == 0)
            <==> nonblank(lines) == 0,
    decreases lines.len(),
{
    assert(lines.push(line).drop_last() =~= lines);
    if lines.len() > 0 {
        let rest = lines.drop_last();
        law_each_line_is_one_file(rest, line);
        assert(forall|i: int| 0 <= i < rest.len() ==> #[trigger] rest[i] == lines[i]);
        assert(lines.last() == lines[lines.len() - 1]);
        if forall|i: int| 0 <= i < rest.len() ==> text::trimmed(#[trigger] rest[i]).len() > 0 {
            assert forall|i: int| 0 <= i < rest.len() implies text::trimmed(
                #[trigger] lines[i],
            ).len() > 0 by {
                assert(rest[i] == lines[i]);
            }
        }
        if forall|i: int| 0 <= i < rest.len() ==> text::trimmed(#[trigger] rest[i]).len() == 0 {
            assert forall|i: int| 0 <= i < rest.len() implies text::trimmed(
                #[trigger] lines[i],
            ).len() == 0 by {
                assert(rest[i] == lines[i]);
            }
        }
    }
}

} // verus!
