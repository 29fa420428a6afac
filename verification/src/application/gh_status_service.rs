//! What is shown of a repository on GitHub: open pull requests and the last workflow run.

use vstd::prelude::*;

use crate::order;
use crate::text;

verus! {

/// What the last workflow run came to.
#[derive(Clone, Copy, Debug, PartialEq, Eq, Structural)]
pub enum CiState {
    /// There is no run.
    NoRuns,
    Success,
    Failure,
    Running,
    /// There is a run, and what it came to is none of the above.
    Unknown,
}

impl CiState {
    pub open spec fn mark(self) -> (Seq<char>, Seq<char>) {
        match self {
            CiState::Success => ("✓"@, "成功"@),
            CiState::Failure => ("✕"@, "失敗"@),
            CiState::Running => ("●"@, "実行中"@),
            CiState::NoRuns => ("—"@, "未実行"@),
            CiState::Unknown => ("?"@, "不明"@),
        }
    }

    /// The mark and the word that are shown.
    pub fn symbol_label(self) -> (r: (&'static str, &'static str))
        ensures
            r.0@ == self.mark().0,
            r.1@ == self.mark().1,
    {
        match self {
            CiState::Success => ("✓", "成功"),
            CiState::Failure => ("✕", "失敗"),
            CiState::Running => ("●", "実行中"),
            CiState::NoRuns => ("—", "未実行"),
            CiState::Unknown => ("?", "不明"),
        }
    }
}

/// A pull request by its number and title.
#[derive(Clone, Debug)]
pub struct PrRef {
    pub number: u32,
    pub title: String,
}

/// What is shown of a repository. Where the command-line client gave no answer, nothing is known.
#[derive(Clone, Debug)]
pub struct GhStatus {
    pub gh_available: bool,
    pub open_pr_count: u32,
    /// The open pull request from the branch that is checked out.
    pub current_branch_pr: Option<PrRef>,
    pub ci: CiState,
}

/// An open pull request as the client lists it.
#[derive(Clone, Debug)]
pub struct OpenPr {
    pub number: u32,
    pub title: String,
    pub head_ref_name: String,
}

/// A workflow run as the client lists it.
#[derive(Clone, Debug)]
pub struct WorkflowRun {
    pub status: String,
    pub conclusion: Option<String>,
}

pub open spec fn is_failure(conclusion: Seq<char>) -> bool {
    conclusion == "failure"@ || conclusion == "timed_out"@ || conclusion == "cancelled"@
        || conclusion == "action_required"@ || conclusion == "startup_failure"@
}

/// What a run came to.
pub open spec fn ci_of(status: Seq<char>, conclusion: Option<Seq<char>>) -> CiState {
    if status != "completed"@ {
        CiState::Running
    } else {
        match conclusion {
            Some(c) => if c == "success"@ {
                CiState::Success
            } else if is_failure(c) {
                CiState::Failure
            } else {
                CiState::Unknown
            },
            None => CiState::Unknown,
        }
    }
}

pub fn classify_ci(status: &str, conclusion: Option<&str>) -> (r: CiState)
    ensures
        r == ci_of(status@, text::opt_str(conclusion)),
{
    if !text::same_text(status, "completed") {
        return CiState::Running;
    }
    match conclusion {
        Some(c) => if text::same_text(c, "success") {
            CiState::Success
        } else if text::same_text(c, "failure") || text::same_text(c, "timed_out")
            || text::same_text(c, "cancelled") || text::same_text(c, "action_required")
            || text::same_text(c, "startup_failure") {
            CiState::Failure
        } else {
            CiState::Unknown
        },
        None => CiState::Unknown,
    }
}

/// The arguments that list the open pull requests.
pub open spec fn pr_list_words() -> Seq<Seq<char>> {
    seq![
        "pr"@,
        "list"@,
        "--state"@,
        "open"@,
        "--limit"@,
        "50"@,
        "--json"@,
        "number,title,headRefName"@,
    ]
}

/// The arguments with which the client lists the open pull requests.
pub fn pr_list_args() -> (r: Vec<String>)
    ensures
        text::texts(r@) == pr_list_words(),
{
    let mut args: Vec<String> = Vec::new();
    args.push(text::owned("pr"));
    args.push(text::owned("list"));
    args.push(text::owned("--state"));
    args.push(text::owned("open"));
    args.push(text::owned("--limit"));
    args.push(text::owned("50"));
    args.push(text::owned("--json"));
    args.push(text::owned("number,title,headRefName"));
    assert(text::texts(args@) =~= pr_list_words());
    args
}

/// The arguments that list the last workflow run, of one branch where it is given.
pub open spec fn run_list_words(branch: Option<Seq<char>>) -> Seq<Seq<char>> {
    let all = seq!["run"@, "list"@, "--limit"@, "1"@, "--json"@, "status,conclusion"@];
    match branch {
        Some(b) => all.push("--branch"@).push(b),
        None => all,
    }
}

/// The arguments with which the client lists the last workflow run.
pub fn run_list_args(branch: Option<&str>) -> (r: Vec<String>)
    ensures
        text::texts(r@) == run_list_words(text::opt_str(branch)),
{
    let mut args: Vec<String> = Vec::new();
    args.push(text::owned("run"));
    args.push(text::owned("list"));
    args.push(text::owned("--limit"));
    args.push(text::owned("1"));
    args.push(text::owned("--json"));
    args.push(text::owned("status,conclusion"));
    assert(text::texts(args@) =~= run_list_words(None));
    if let Some(b) = branch {
        args.push(text::owned("--branch"));
        args.push(text::owned(b));
    }
    assert(text::texts(args@) =~= run_list_words(text::opt_str(branch)));
    args
}

pub open spec fn branch_test(prs: Seq<OpenPr>, branch: Seq<char>) -> spec_fn(int) -> bool {
    |i: int| prs[i].head_ref_name@ == branch
}

/// The first open pull request from a branch.
pub open spec fn pr_of(prs: Seq<OpenPr>, branch: Option<Seq<char>>) -> Option<int> {
    match branch {
        Some(b) => order::first_where(prs.len(), branch_test(prs, b)),
        None => None,
    }
}

/// Nothing is known of a repository that the client gave no answer for.
pub fn no_answer() -> (r: GhStatus)
    ensures
        r == (GhStatus {
            gh_available: false,
            open_pr_count: 0,
            current_branch_pr: None,
            ci: CiState::NoRuns,
        }),
{
    GhStatus {
        gh_available: false,
        open_pr_count: 0,
        current_branch_pr: None,
        ci: CiState::NoRuns,
    }
}

/// What is shown of a repository, from the pull requests and runs that the client has listed.
/// Without an answer about the pull requests nothing is known at all; without one about the runs,
/// or with none listed, there is no run.
pub fn summarize(prs: Option<&[OpenPr]>, runs: Option<&[WorkflowRun]>, branch: Option<&str>) -> (r:
    GhStatus)
    ensures
        match prs {
            None => r == (GhStatus {
                gh_available: false,
                open_pr_count: 0,
                current_branch_pr: None,
                ci: CiState::NoRuns,
            }),
            Some(list) => {
                &&& r.gh_available
                &&& r.open_pr_count == if list@.len() <= u32::MAX {
                    list@.len() as int
                } else {
                    u32::MAX as int
                }
                &&& match pr_of(list@, text::opt_str(branch)) {
                    Some(i) => r.current_branch_pr == Some(
                        PrRef { number: list@[i].number, title: list@[i].title },
                    ),
                    None => r.current_branch_pr is None,
                }
                &&& r.ci == match runs {
                    Some(found) => if found@.len() > 0 {
                        ci_of(found@[0].status@, text::opt_text(found@[0].conclusion))
                    } else {
                        CiState::NoRuns
                    },
                    None => CiState::NoRuns,
                }
            },
        },
{
    let list = match prs {
        Some(list) => list,
        None => {
            return no_answer();
        },
    };
    let mut current: Option<PrRef> = None;
    if let Some(b) = branch {
        let ghost test = branch_test(list@, b@);
        let mut i: usize = 0;
        while i < list.len() && !text::same_text(list[i].head_ref_name.as_str(), b)
            invariant
                i <= list@.len(),
                test == branch_test(list@, b@),
                forall|k: int| 0 <= k < i ==> !#[trigger] test(k),
            decreases list@.len() - i,
        {
            assert(!test(i as int));
            i += 1;
        }
        if i < list.len() {
            proof {
                order::lemma_first_where_some(list@.len(), test, i as int);
            }
            current = Some(PrRef { number: list[i].number, title: list[i].title.clone() });
        } else {
            proof {
                order::lemma_first_where_none(list@.len(), test);
            }
        }
    }
    let count: u32 = if list.len() <= u32::MAX as usize {
        list.len() as u32
    } else {
        u32::MAX
    };
    let ci = match runs {
        Some(found) => if found.len() > 0 {
            match &found[0].conclusion {
                Some(c) => classify_ci(found[0].status.as_str(), Some(c.as_str())),
                None => classify_ci(found[0].status.as_str(), None),
            }
        } else {
            CiState::NoRuns
        },
        None => CiState::NoRuns,
    };
    GhStatus { gh_available: true, open_pr_count: count, current_branch_pr: current, ci }
}

/// The pull request of a branch is the first that comes from it, and there is one whenever one does.
pub proof fn law_pull_request_comes_from_the_branch(
    prs: Seq<OpenPr>,
    branch: Seq<char>,
    k: int,
)
    requires
        0 <= k < prs.len(),
        prs[k].head_ref_name@ == branch,
        forall|j: int| 0 <= j < k ==> (#[trigger] prs[j]).head_ref_name@ != branch,
    ensures
        pr_of(prs, Some(branch)) == Some(k),
{
    order::lemma_first_where_some(prs.len(), branch_test(prs, branch), k);
}

/// Where no pull request comes from the branch, or none is checked out, there is none to show.
pub proof fn law_no_other_pull_request_is_shown(prs: Seq<OpenPr>, branch: Option<Seq<char>>)
    requires
        branch matches Some(b) ==> forall|j: int|
            0 <= j < prs.len() ==> (#[trigger] prs[j]).head_ref_name@ != b,
    ensures
        pr_of(prs, branch) is None,
{
    if let Some(b) = branch {
        order::lemma_first_where_none(prs.len(), branch_test(prs, b));
    }
}

/// A run has gone well only where it has come to its end and says so; it is never both under way and
/// at its end.
pub proof fn law_runs_end_before_they_count(status: Seq<char>, conclusion: Option<Seq<char>>)
    ensures
        ci_of(status, conclusion) is Running <==> status != "completed"@,
        ci_of(status, conclusion) is Success <==> status == "completed"@ && conclusion == Some(
            "success"@,
        ),
        ci_of(status, conclusion) is Failure ==> conclusion is Some && conclusion->0 != "success"@,
        !(ci_of(status, conclusion) is NoRuns),
{
    reveal_strlit("success");
    reveal_strlit("failure");
    reveal_strlit("timed_out");
    reveal_strlit("cancelled");
    reveal_strlit("action_required");
    reveal_strlit("startup_failure");
    assert("success"@[0] == 's');
    assert("failure"@[0] == 'f');
    assert("timed_out"@[0] == 't');
    assert("cancelled"@[0] == 'c');
    assert("action_required"@[0] == 'a');
    assert("startup_failure"@[1] == 't' && "success"@[1] == 'u');
}

} // verus!
