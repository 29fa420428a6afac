//! The window watcher: what it is asked to watch, and what it makes of what it sees.

use vstd::prelude::*;

use crate::application::launch_service;
use crate::domain::workset::LaunchKind;
use crate::order;
use crate::text;
use crate::windowing::enumerate::TopLevelWindow;

verus! {

/// What the watcher is asked to do.
#[derive(Clone, Debug)]
pub struct WatchOptions {
    pub title: String,
    pub secs: u64,
    pub folder: Option<String>,
    pub out: Option<String>,
}

/// A [`WatchOptions`] as a mathematical value.
pub struct WatchView {
    pub title: Seq<char>,
    pub secs: nat,
    pub folder: Option<Seq<char>>,
    pub out: Option<Seq<char>>,
}

impl View for WatchOptions {
    type V = WatchView;

    open spec fn view(&self) -> WatchView {
        WatchView {
            title: self.title@,
            secs: self.secs as nat,
            folder: text::opt_text(self.folder),
            out: text::opt_text(self.out),
        }
    }
}

pub open spec fn arg_at(args: Seq<Seq<char>>, i: int) -> Option<Seq<char>> {
    if 0 <= i < args.len() {
        Some(args[i])
    } else {
        None
    }
}

/// The options after the arguments from `i` on have been read. What is not known is passed over.
pub open spec fn read_from(args: Seq<Seq<char>>, i: int, o: WatchView) -> WatchView
    decreases args.len() + 2 - i,
{
    if i < 0 || i >= args.len() {
        o
    } else if args[i] == "--title"@ {
        read_from(
            args,
            i + 2,
            WatchView {
                title: match arg_at(args, i + 1) {
                    Some(v) => v,
                    None => o.title,
                },
                ..o
            },
        )
    } else if args[i] == "--folder"@ {
        read_from(args, i + 2, WatchView { folder: arg_at(args, i + 1), ..o })
    } else if args[i] == "--secs"@ {
        read_from(
            args,
            i + 2,
            WatchView {
                secs: match arg_at(args, i + 1) {
                    Some(v) => match text::unsigned_value(v, u64::MAX as nat) {
                        Some(n) => n,
                        None => o.secs,
                    },
                    None => o.secs,
                },
                ..o
            },
        )
    } else if args[i] == "--out"@ {
        read_from(args, i + 2, WatchView { out: arg_at(args, i + 1), ..o })
    } else {
        read_from(args, i + 1, o)
    }
}

fn get_arg(args: &[String], i: usize) -> (r: Option<String>)
    ensures
        text::opt_text(r) == arg_at(text::texts(args@), i as int),
{
    if i < args.len() {
        Some(args[i].clone())
    } else {
        None
    }
}

/// Reads the arguments of the watcher, which looks for a window titled `repodeck` for half a
/// minute unless it is told otherwise.
pub fn parse_args(args: &[String], current_dir: Option<String>) -> (r: WatchOptions)
    ensures
        r@ == read_from(
            text::texts(args@),
            0,
            WatchView {
                title: "repodeck"@,
                secs: 30,
                folder: text::opt_text(current_dir),
                out: None,
            },
        ),
{
    let ghost av = text::texts(args@);
    let ghost start = WatchView {
        title: "repodeck"@,
        secs: 30,
        folder: text::opt_text(current_dir),
        out: None,
    };
    let mut o = WatchOptions {
        title: text::owned("repodeck"),
        secs: 30,
        folder: current_dir,
        out: None,
    };
    let n: usize = args.len();
    let mut i: usize = 0;
    while i < n
        invariant
            n == args@.len(),
            av == text::texts(args@),
            read_from(av, 0, start) == read_from(av, i as int, o@),
        decreases n - i,
    {
        let key = args[i].as_str();
        let ghost at = i as int;
        assert(av[i as int] == args@[i as int]@);
        if text::same_text(key, "--title") {
            if i + 1 < n {
                o.title = args[i + 1].clone();
            }
            i += 1;
        } else if text::same_text(key, "--folder") {
            o.folder = if i + 1 < n {
                get_arg(args, i + 1)
            } else {
                None
            };
            i += 1;
        } else if text::same_text(key, "--secs") {
            if i + 1 < n {
                let chars = text::chars_of(args[i + 1].as_str());
                if let Some(v) = text::parse_unsigned(&chars, u64::MAX) {
                    o.secs = v;
                }
            }
            i += 1;
        } else if text::same_text(key, "--out") {
            o.out = if i + 1 < n {
                get_arg(args, i + 1)
            } else {
                None
            };
            i += 1;
        }
        if i < n {
            i += 1;
        }
        proof {
            assert(read_from(av, n as int, o@) == o@);
            assert(read_from(av, n + 1, o@) == o@);
            assert(at + 1 < n ==> av[at + 1] == args@[at + 1]@);
        }
    }
    o
}

pub open spec fn editor_test(windows: Seq<TopLevelWindow>, needle: Seq<char>) -> spec_fn(int) -> bool {
    |i: int|
        (windows[i].executable_path matches Some(p) && launch_service::kind_of(p@)
            == LaunchKind::VsCode) && text::occurs(windows[i].title@, needle)
}

/// The first window of an editor whose title holds the words.
pub fn find_editor_window<'a>(windows: &'a [TopLevelWindow], title_needle: &str) -> (r: Option<
    &'a TopLevelWindow,
>)
    ensures
        match r {
            Some(w) => order::first_where(
                windows@.len(),
                editor_test(windows@, title_needle@),
            ) matches Some(i) && *w == windows@[i],
            None => order::first_where(
                windows@.len(),
                editor_test(windows@, title_needle@),
            ) is None,
        },
{
    let ghost test = editor_test(windows@, title_needle@);
    let mut i: usize = 0;
    while i < windows.len()
        invariant
            i <= windows@.len(),
            test == editor_test(windows@, title_needle@),
            forall|k: int| 0 <= k < i ==> !#[trigger] test(k),
        decreases windows@.len() - i,
    {
        let is_editor = match &windows[i].executable_path {
            Some(p) => launch_service::classify(p.as_str()) == LaunchKind::VsCode,
            None => false,
        };
        if is_editor && text::contains_text(windows[i].title.as_str(), title_needle) {
            proof {
                order::lemma_first_where_some(windows@.len(), test, i as int);
            }
            return Some(&windows[i]);
        }
        i += 1;
    }
    proof {
        order::lemma_first_where_none(windows@.len(), test);
    }
    None
}

/// What an agent is doing, from the nanoseconds since it last wrote to its transcript: at work
/// within three seconds, waiting for an answer within a minute and a half.
pub open spec fn activity_of(age_nanos: u128) -> Seq<char> {
    if age_nanos < 3_000_000_000 {
        "RUNNING"@
    } else if age_nanos < 90_000_000_000 {
        "WAITING-INPUT"@
    } else {
        "IDLE"@
    }
}

pub fn activity_label(age_nanos: u128) -> (r: &'static str)
    ensures
        r@ == activity_of(age_nanos),
{
    if age_nanos < 3_000_000_000 {
        "RUNNING"
    } else if age_nanos < 90_000_000_000 {
        "WAITING-INPUT"
    } else {
        "IDLE"
    }
}

/// The part of the line that tells of the repository: its branch and how many lines `git` lists as
/// changed.
pub open spec fn git_text(branch: Option<Seq<char>>, dirty: nat) -> Seq<char> {
    "git=[branch="@ + (match branch {
        Some(b) => b,
        None => "?"@,
    }) + " dirty="@ + text::decimal(dirty) + "]"@
}

pub fn git_state(branch: Option<&str>, dirty: u64) -> (r: String)
    ensures
        r@ == git_text(text::opt_str(branch), dirty as nat),
{
    let mut out = text::owned("git=[branch=");
    match branch {
        Some(b) => out.append(b),
        None => out.append("?"),
    }
    out.append(" dirty=");
    let n = text::decimal_text(dirty);
    out.append(n.as_str());
    out.append("]");
    out
}

} // verus!
