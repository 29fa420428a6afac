//! The workset manager: what it says of sets, how sets are registered and edited, and how closed
//! windows are opened again.

use vstd::prelude::*;
use std::collections::{HashMap, HashSet};

use crate::application::colors;
use crate::application::colors::Rgb;
use crate::application::launch_service;
use crate::application::main_placement;
use crate::application::monitor_resolution;
use crate::application::workset_service;
use crate::domain::config::{AppConfig, ConfigValidationError};
use crate::domain::monitor::MonitorInfo;
use crate::domain::placement;
use crate::domain::placement::{PixelRect, SavedShowState};
use crate::domain::runtime::RuntimeState;
use crate::domain::workset::{
    LaunchKind, LaunchSpec, ManagedWindow, ParkingPolicy, RepositoryKind, SubScreen, Workset,
};
use crate::ids::Uuid;
use crate::order;
use crate::text;
use crate::windowing::enumerate::TopLevelWindow;
use crate::windowing::matcher::{MatchDecision, MatchView, WindowMatching};
use crate::winpath;

verus! {

broadcast use vstd::std_specs::hash::group_hash_axioms;

// ---------------------------------------------------------------------------
// What is said of sets and windows
// ---------------------------------------------------------------------------

pub open spec fn match_text(decision: Option<MatchView>) -> Seq<char> {
    match decision {
        Some(MatchView::AutoRebind(_)) => "自動再バインド済み"@,
        Some(MatchView::Ambiguous(candidates)) => "曖昧: 候補"@ + text::decimal(candidates.len())
            + "件"@,
        _ => "未解決"@,
    }
}

pub open spec fn is_settled(decision: Option<MatchView>) -> bool {
    decision matches Some(MatchView::AutoRebind(_))
}

pub open spec fn opt_decision(decision: Option<&MatchDecision>) -> Option<MatchView> {
    match decision {
        Some(d) => Some(d@),
        None => None,
    }
}

/// Says whether a window was found, and whether that calls for attention.
pub fn match_status_label(decision: Option<&MatchDecision>) -> (r: (String, bool))
    ensures
        r.0@ == match_text(opt_decision(decision)),
        r.1 == !is_settled(opt_decision(decision)),
{
    match decision {
        Some(MatchDecision::AutoRebind { hwnd: _ }) => (text::owned("自動再バインド済み"), false),
        Some(MatchDecision::Ambiguous { candidates }) => {
            let number = text::decimal_text(candidates.len() as u64);
            (text::joined3("曖昧: 候補", number.as_str(), "件"), true)
        },
        _ => (text::owned("未解決"), true),
    }
}

/// How a repository is called.
pub fn repository_kind_label(kind: RepositoryKind) -> (r: &'static str)
    ensures
        r@ == kind_text(kind),
{
    match kind {
        RepositoryKind::Git => "Gitリポジトリ",
        RepositoryKind::Directory => "通常フォルダー",
        RepositoryKind::Workspace => "ワークスペース",
    }
}

pub open spec fn kind_text(kind: RepositoryKind) -> Seq<char> {
    match kind {
        RepositoryKind::Git => "Gitリポジトリ"@,
        RepositoryKind::Directory => "通常フォルダー"@,
        RepositoryKind::Workspace => "ワークスペース"@,
    }
}

/// Says as what a picked folder is registered.
pub fn picked_folder_label(kind: RepositoryKind, repository_path: &str) -> (r: String)
    ensures
        r@ == kind_text(kind) + "として登録されます: "@ + repository_path@,
{
    text::joined3(repository_kind_label(kind), "として登録されます: ", repository_path)
}

/// Says as what a picked workspace file is registered, and with which folder.
pub fn picked_workspace_label(file: &str, folder: &str) -> (r: String)
    ensures
        r@ == kind_text(RepositoryKind::Workspace) + "として登録されます: "@ + file@
            + "（フォルダー: "@ + folder@ + "）"@,
{
    let mut out = picked_folder_label(RepositoryKind::Workspace, file);
    out.append("（フォルダー: ");
    out.append(folder);
    out.append("）");
    out
}

/// How many windows of a set were found.
pub open spec fn settled_count(
    windows: Seq<ManagedWindow>,
    decisions: Map<Uuid, MatchView>,
    n: nat,
) -> nat
    decreases n,
{
    if n == 0 {
        0
    } else {
        settled_count(windows, decisions, (n - 1) as nat) + if workset_service::handle_of(
            decisions,
            windows[n - 1].id,
        ) is Some {
            1
        } else {
            0nat
        }
    }
}

/// What the list says of a set: how many of its windows were found, and how many call for
/// attention where there are any.
pub open spec fn summary_text(w: Workset, decisions: Map<Uuid, MatchView>) -> Seq<char> {
    let found = settled_count(w.windows@, decisions, w.windows@.len());
    let all = w.windows@.len();
    let counts = text::decimal(found) + "/"@ + text::decimal(all);
    if found == all {
        counts + "件 自動再バインド"@
    } else {
        counts + "件 自動再バインド・"@ + text::decimal((all - found) as nat) + "件要確認"@
    }
}

pub open spec fn repository_text(path: Seq<char>) -> Seq<char> {
    if path.len() == 0 {
        "（リポジトリなし）"@
    } else {
        path
    }
}

/// What the list shows of a set.
#[derive(Debug)]
pub struct WorksetSummary {
    pub name: String,
    pub repository_path: String,
    pub window_count: usize,
    pub color: Rgb,
    pub status_label: String,
}

pub open spec fn is_summary(
    s: WorksetSummary,
    w: Workset,
    decisions: Map<Uuid, MatchView>,
) -> bool {
    &&& s.name@ == w.name@
    &&& s.repository_path@ == repository_text(w.repository_path@)
    &&& s.window_count == w.windows@.len()
    &&& s.color == colors::color_of(w.color@)
    &&& s.status_label@ == summary_text(w, decisions)
}

pub fn repository_label(path: &str) -> (r: String)
    ensures
        r@ == repository_text(path@),
{
    if text::is_empty_text(path) {
        text::owned("（リポジトリなし）")
    } else {
        text::owned(path)
    }
}

fn summarize(workset: &Workset, decisions: &HashMap<Uuid, MatchDecision>) -> (r: WorksetSummary)
    ensures
        is_summary(r, *workset, workset_service::decisions_view(decisions@)),
{
    let ghost dv = workset_service::decisions_view(decisions@);
    let n: usize = workset.windows.len();
    let mut found: usize = 0;
    let mut i: usize = 0;
    while i < n
        invariant
            i <= n == workset.windows@.len(),
            dv == workset_service::decisions_view(decisions@),
            found == settled_count(workset.windows@, dv, i as nat),
            found <= i,
        decreases n - i,
    {
        if workset_service::settled_handle(decisions, workset.windows[i].id).is_some() {
            found += 1;
        }
        i += 1;
    }
    let found_text = text::decimal_text(found as u64);
    let all_text = text::decimal_text(n as u64);
    let mut status_label = text::joined3(found_text.as_str(), "/", all_text.as_str());
    if found == n {
        status_label.append("件 自動再バインド");
    } else {
        status_label.append("件 自動再バインド・");
        status_label.append(text::decimal_text((n - found) as u64).as_str());
        status_label.append("件要確認");
    }
    WorksetSummary {
        name: workset.name.clone(),
        repository_path: repository_label(workset.repository_path.as_str()),
        window_count: n,
        color: colors::hex_to_color(workset.color.as_str()),
        status_label,
    }
}

/// A summary of each set, with its windows looked for among the live ones.
pub fn summarize_worksets<M: WindowMatching>(
    matching: &M,
    worksets: &[Workset],
    live_windows: &[TopLevelWindow],
) -> (r: Vec<WorksetSummary>)
    ensures
        r@.len() == worksets@.len(),
        forall|i: int|
            0 <= i < r@.len() ==> is_summary(
                #[trigger] r@[i],
                worksets@[i],
                workset_service::all_decisions(
                    *matching,
                    worksets@,
                    live_windows@,
                    Map::empty(),
                    None,
                ),
            ),
{
    let decisions = workset_service::resolve_all_matches(matching, worksets, live_windows);
    let ghost dv = workset_service::decisions_view(decisions@);
    let mut out: Vec<WorksetSummary> = Vec::new();
    let mut i: usize = 0;
    while i < worksets.len()
        invariant
            i <= worksets@.len(),
            dv == workset_service::decisions_view(decisions@),
            out@.len() == i,
            forall|k: int| 0 <= k < i ==> is_summary(#[trigger] out@[k], worksets@[k], dv),
        decreases worksets@.len() - i,
    {
        out.push(summarize(&worksets[i], &decisions));
        i += 1;
    }
    out
}

/// What the detail pane shows of a window.
#[derive(Debug)]
pub struct WindowStatus {
    pub title: String,
    pub status_label: String,
    pub status_is_warning: bool,
}

pub open spec fn decision_of(decisions: Map<Uuid, MatchView>, id: Uuid) -> Option<MatchView> {
    if decisions.contains_key(id) {
        Some(decisions[id])
    } else {
        None
    }
}

pub open spec fn is_status(
    s: WindowStatus,
    w: ManagedWindow,
    decisions: Map<Uuid, MatchView>,
) -> bool {
    &&& s.title@ == w.matcher.registered_title@
    &&& s.status_label@ == match_text(decision_of(decisions, w.id))
    &&& s.status_is_warning == !is_settled(decision_of(decisions, w.id))
}

/// The window is closed but can be started again.
pub open spec fn is_reopenable(w: ManagedWindow, decisions: Map<Uuid, MatchView>) -> bool {
    w.launch_spec is Some && workset_service::handle_of(decisions, w.id) is None
}

pub open spec fn reopenable_count(
    windows: Seq<ManagedWindow>,
    decisions: Map<Uuid, MatchView>,
    n: nat,
) -> nat
    decreases n,
{
    if n == 0 {
        0
    } else {
        reopenable_count(windows, decisions, (n - 1) as nat) + if is_reopenable(
            windows[n - 1],
            decisions,
        ) {
            1
        } else {
            0nat
        }
    }
}

/// How many windows of a set are closed and can be started again.
pub fn count_reopenable_missing(
    workset: &Workset,
    decisions: &HashMap<Uuid, MatchDecision>,
) -> (r: usize)
    ensures
        r == reopenable_count(
            workset.windows@,
            workset_service::decisions_view(decisions@),
            workset.windows@.len(),
        ),
{
    let ghost dv = workset_service::decisions_view(decisions@);
    let n: usize = workset.windows.len();
    let mut count: usize = 0;
    let mut i: usize = 0;
    while i < n
        invariant
            i <= n == workset.windows@.len(),
            dv == workset_service::decisions_view(decisions@),
            count == reopenable_count(workset.windows@, dv, i as nat),
            count <= i,
        decreases n - i,
    {
        let w = &workset.windows[i];
        if w.launch_spec.is_some() && workset_service::settled_handle(decisions, w.id).is_none() {
            count += 1;
        }
        i += 1;
    }
    count
}

/// What the detail pane shows of a set: each of its windows, and how many can be started again.
/// The windows of this set are looked for first, so that one it shares shows as found.
pub fn describe_workset<M: WindowMatching>(
    matching: &M,
    worksets: &[Workset],
    index: usize,
    live_windows: &[TopLevelWindow],
    bindings: &HashMap<Uuid, isize>,
) -> (r: Option<(Vec<WindowStatus>, usize)>)
    ensures
        r is Some <==> index < worksets@.len(),
        r matches Some((rows, missing)) ==> {
            let w = worksets@[index as int];
            let decisions = workset_service::all_decisions(
                *matching,
                worksets@,
                live_windows@,
                bindings@,
                Some(w.id),
            );
            &&& rows@.len() == w.windows@.len()
            &&& forall|i: int|
                0 <= i < rows@.len() ==> is_status(#[trigger] rows@[i], w.windows@[i], decisions)
            &&& missing == reopenable_count(w.windows@, decisions, w.windows@.len())
        },
{
    if index >= worksets.len() {
        return None;
    }
    let workset = &worksets[index];
    let decisions = workset_service::resolve_all_matches_with_bindings(
        matching,
        worksets,
        live_windows,
        bindings,
        Some(workset.id),
    );
    let ghost dv = workset_service::decisions_view(decisions@);
    let mut rows: Vec<WindowStatus> = Vec::new();
    let mut i: usize = 0;
    while i < workset.windows.len()
        invariant
            i <= workset.windows@.len(),
            dv == workset_service::decisions_view(decisions@),
            rows@.len() == i,
            forall|k: int| 0 <= k < i ==> is_status(#[trigger] rows@[k], workset.windows@[k], dv),
        decreases workset.windows@.len() - i,
    {
        let w = &workset.windows[i];
        let decision = decisions.get(&w.id);
        assert(opt_decision(decision) == decision_of(dv, w.id));
        let (status_label, status_is_warning) = match_status_label(decision);
        rows.push(
            WindowStatus {
                title: w.matcher.registered_title.clone(),
                status_label,
                status_is_warning,
            },
        );
        i += 1;
    }
    let missing: usize = count_reopenable_missing(workset, &decisions);
    Some((rows, missing))
}

// ---------------------------------------------------------------------------
// Opening closed windows again
// ---------------------------------------------------------------------------

/// Those of the first `n` windows that are closed and can be started again.
pub open spec fn reopenable(
    windows: Seq<ManagedWindow>,
    decisions: Map<Uuid, MatchView>,
    n: nat,
) -> Seq<ManagedWindow>
    decreases n,
{
    if n == 0 {
        Seq::empty()
    } else {
        let before = reopenable(windows, decisions, (n - 1) as nat);
        if is_reopenable(windows[n - 1], decisions) {
            before.push(windows[n - 1])
        } else {
            before
        }
    }
}

pub open spec fn window_refs<'a>(s: Seq<&'a ManagedWindow>) -> Seq<ManagedWindow> {
    s.map_values(|w: &'a ManagedWindow| *w)
}

fn collect_reopenable<'a>(
    workset: &'a Workset,
    decisions: &HashMap<Uuid, MatchDecision>,
) -> (r: Vec<&'a ManagedWindow>)
    ensures
        window_refs(r@) == reopenable(
            workset.windows@,
            workset_service::decisions_view(decisions@),
            workset.windows@.len(),
        ),
        forall|i: int| 0 <= i < r@.len() ==> (#[trigger] r@[i]).launch_spec is Some,
{
    let ghost dv = workset_service::decisions_view(decisions@);
    let mut out: Vec<&'a ManagedWindow> = Vec::new();
    let mut i: usize = 0;
    assert(window_refs(out@) =~= Seq::<ManagedWindow>::empty());
    while i < workset.windows.len()
        invariant
            i <= workset.windows@.len(),
            dv == workset_service::decisions_view(decisions@),
            window_refs(out@) == reopenable(workset.windows@, dv, i as nat),
            forall|k: int| 0 <= k < out@.len() ==> (#[trigger] out@[k]).launch_spec is Some,
        decreases workset.windows@.len() - i,
    {
        let w = &workset.windows[i];
        if w.launch_spec.is_some() && workset_service::settled_handle(decisions, w.id).is_none() {
            let ghost before = out@;
            out.push(w);
            assert(window_refs(out@) =~= window_refs(before).push(*w));
        }
        i += 1;
    }
    out
}

/// The windows of a set that are closed and can be started again.
pub fn closed_windows<'a, M: WindowMatching>(
    matching: &M,
    worksets: &'a [Workset],
    index: usize,
    live_windows: &[TopLevelWindow],
) -> (r: Option<Vec<&'a ManagedWindow>>)
    ensures
        r is Some <==> index < worksets@.len(),
        r matches Some(closed) ==> window_refs(closed@) == reopenable(
            worksets@[index as int].windows@,
            workset_service::all_decisions(
                *matching,
                worksets@,
                live_windows@,
                Map::empty(),
                None,
            ),
            worksets@[index as int].windows@.len(),
        ),
{
    if index >= worksets.len() {
        return None;
    }
    let decisions = workset_service::resolve_all_matches(matching, worksets, live_windows);
    Some(collect_reopenable(&worksets[index], &decisions))
}

/// The windows of the set to switch to that are closed and can be started again. With no such set
/// there is nothing to start.
pub fn missing_for_switch<'a, M: WindowMatching>(
    matching: &M,
    worksets: &'a [Workset],
    bindings: &HashMap<Uuid, isize>,
    live_windows: &[TopLevelWindow],
    target_id: Uuid,
) -> (r: Vec<&'a ManagedWindow>)
    ensures
        window_refs(r@) == match workset_service::set_with_id(worksets@, target_id) {
            Some(w) => reopenable(
                w.windows@,
                workset_service::all_decisions(
                    *matching,
                    worksets@,
                    live_windows@,
                    bindings@,
                    Some(target_id),
                ),
                w.windows@.len(),
            ),
            None => Seq::empty(),
        },
        forall|i: int| 0 <= i < r@.len() ==> (#[trigger] r@[i]).launch_spec is Some,
{
    match workset_service::find_set(worksets, target_id) {
        Some(workset) => {
            let decisions = workset_service::resolve_all_matches_with_bindings(
                matching,
                worksets,
                live_windows,
                bindings,
                Some(target_id),
            );
            collect_reopenable(workset, &decisions)
        },
        None => {
            let none: Vec<&'a ManagedWindow> = Vec::new();
            assert(window_refs(none@) =~= Seq::<ManagedWindow>::empty());
            none
        },
    }
}

/// A browser that is started without a page opens an empty window.
pub open spec fn opens_blank(spec: LaunchSpec) -> bool {
    spec.kind == LaunchKind::Browser && forall|i: int|
        0 <= i < spec.args@.len() ==> !text::occurs((#[trigger] spec.args@[i])@, "://"@)
}

pub fn launches_blank_browser(spec: &LaunchSpec) -> (r: bool)
    ensures
        r == opens_blank(*spec),
{
    if spec.kind != LaunchKind::Browser {
        return false;
    }
    let mut i: usize = 0;
    while i < spec.args.len()
        invariant
            i <= spec.args@.len(),
            forall|k: int| 0 <= k < i ==> !text::occurs((#[trigger] spec.args@[k])@, "://"@),
        decreases spec.args@.len() - i,
    {
        if text::contains_text(spec.args[i].as_str(), "://") {
            return false;
        }
        i += 1;
    }
    true
}

/// What is waited for once closed windows were started.
#[derive(Debug)]
pub struct PendingAcquire {
    pub workset_id: Uuid,
    /// The windows that were there before.
    pub before: HashSet<isize>,
    /// Each registered window that was started, with its program and window class.
    pub dead: Vec<(Uuid, String, String)>,
    /// Those that open an empty browser window.
    pub blank_browsers: HashSet<Uuid>,
}

/// A registered window with the texts of its program and window class.
pub struct Awaited {
    pub id: Uuid,
    pub program: Seq<char>,
    pub class: Seq<char>,
}

pub open spec fn awaited_view(dead: Seq<(Uuid, String, String)>) -> Seq<Awaited> {
    dead.map_values(
        |d: (Uuid, String, String)| Awaited { id: d.0, program: d.1@, class: d.2@ },
    )
}

/// Those of the first `n` windows whose program was started.
pub open spec fn awaited(windows: Seq<ManagedWindow>, started: Seq<bool>, n: nat) -> Seq<Awaited>
    decreases n,
{
    if n == 0 {
        Seq::empty()
    } else {
        let before = awaited(windows, started, (n - 1) as nat);
        let w = windows[n - 1];
        if n - 1 < started.len() && started[n - 1] && w.launch_spec is Some {
            before.push(
                Awaited {
                    id: w.id,
                    program: w.launch_spec->0.program@,
                    class: w.matcher.window_class@,
                },
            )
        } else {
            before
        }
    }
}

/// The ids of those that open an empty browser window.
pub open spec fn blank_ids(windows: Seq<ManagedWindow>, started: Seq<bool>, n: nat) -> Set<Uuid>
    decreases n,
{
    if n == 0 {
        Set::empty()
    } else {
        let before = blank_ids(windows, started, (n - 1) as nat);
        let w = windows[n - 1];
        if n - 1 < started.len() && started[n - 1] && (w.launch_spec matches Some(spec)
            && opens_blank(spec)) {
            before.insert(w.id)
        } else {
            before
        }
    }
}

pub open spec fn live_handles(live: Seq<TopLevelWindow>) -> Set<isize> {
    Set::new(|h: isize| exists|i: int| 0 <= i < live.len() && (#[trigger] live[i]).hwnd == h)
}

fn collect_handles(live: &[TopLevelWindow]) -> (r: HashSet<isize>)
    ensures
        r@ == live_handles(live@),
{
    let mut out: HashSet<isize> = HashSet::new();
    let mut i: usize = 0;
    while i < live.len()
        invariant
            i <= live@.len(),
            forall|h: isize| #[trigger]
                out@.contains(h) <==> exists|k: int| 0 <= k < i && (#[trigger] live@[k]).hwnd == h,
        decreases live@.len() - i,
    {
        let ghost before = out@;
        out.insert(live[i].hwnd);
        proof {
            assert forall|h: isize| #[trigger] out@.contains(h) <==> exists|k: int|
                0 <= k < i + 1 && (#[trigger] live@[k]).hwnd == h by {
                if h == live@[i as int].hwnd {
                    assert(live@[i as int].hwnd == h);
                }
                if before.contains(h) {
                    let k = choose|k: int| 0 <= k < i && (#[trigger] live@[k]).hwnd == h;
                    assert(live@[k].hwnd == h);
                }
            }
        }
        i += 1;
    }
    assert(out@ =~= live_handles(live@));
    out
}

/// Writes down what to wait for, given which of the windows could be started. Where none could,
/// there is nothing to wait for.
pub fn pending_acquire(
    target_id: Uuid,
    live_windows: &[TopLevelWindow],
    windows: &Vec<&ManagedWindow>,
    started: &[bool],
) -> (r: Option<PendingAcquire>)
    ensures
        ({
            let ws = window_refs(windows@);
            let waiting = awaited(ws, started@, ws.len());
            match r {
                None => waiting.len() == 0,
                Some(p) => {
                    &&& waiting.len() > 0
                    &&& p.workset_id == target_id
                    &&& p.before@ == live_handles(live_windows@)
                    &&& awaited_view(p.dead@) == waiting
                    &&& p.blank_browsers@ == blank_ids(ws, started@, ws.len())
                },
            }
        }),
{
    let ghost ws = window_refs(windows@);
    let mut dead: Vec<(Uuid, String, String)> = Vec::new();
    let mut blank_browsers: HashSet<Uuid> = HashSet::new();
    let mut i: usize = 0;
    assert(awaited_view(dead@) =~= Seq::<Awaited>::empty());
    assert(blank_browsers@ =~= Set::<Uuid>::empty());
    while i < windows.len()
        invariant
            i <= windows@.len(),
            ws == window_refs(windows@),
            awaited_view(dead@) == awaited(ws, started@, i as nat),
            dead@.len() == awaited(ws, started@, i as nat).len(),
            blank_browsers@ == blank_ids(ws, started@, i as nat),
        decreases windows@.len() - i,
    {
        let w = windows[i];
        assert(ws[i as int] == *w);
        if i < started.len() && started[i] {
            if let Some(spec) = &w.launch_spec {
                if launches_blank_browser(spec) {
                    blank_browsers.insert(w.id);
                }
                let ghost before = dead@;
                dead.push((w.id, spec.program.clone(), w.matcher.window_class.clone()));
                assert(awaited_view(dead@) =~= awaited_view(before).push(
                    Awaited {
                        id: w.id,
                        program: spec.program@,
                        class: w.matcher.window_class@,
                    },
                ));
            }
        }
        i += 1;
    }
    if dead.len() == 0 {
        return None;
    }
    Some(
        PendingAcquire {
            workset_id: target_id,
            before: collect_handles(live_windows),
            dead,
            blank_browsers,
        },
    )
}

/// The window is new, not claimed yet, and of the program and class that are waited for.
pub open spec fn answers(
    a: Awaited,
    after: Seq<TopLevelWindow>,
    before: Set<isize>,
    claimed: Set<isize>,
) -> spec_fn(int) -> bool {
    |i: int|
        {
            &&& !before.contains(after[i].hwnd)
            &&& !claimed.contains(after[i].hwnd)
            &&& after[i].window_class@ == a.class
            &&& after[i].executable_path matches Some(path)
            &&& winpath::same_path(path@, a.program)
        }
}

/// How far windows were claimed.
pub struct Claims {
    pub bindings: Map<Uuid, isize>,
    pub claimed: Set<isize>,
    /// The empty browser windows among them.
    pub blanks: Seq<isize>,
}

/// Each of the first `n` takes the first window that answers to it, if there is one.
pub open spec fn claims(
    bindings: Map<Uuid, isize>,
    waiting: Seq<Awaited>,
    blank: Set<Uuid>,
    before: Set<isize>,
    after: Seq<TopLevelWindow>,
    n: nat,
) -> Claims
    decreases n,
{
    if n == 0 {
        Claims { bindings, claimed: Set::empty(), blanks: Seq::empty() }
    } else {
        let c = claims(bindings, waiting, blank, before, after, (n - 1) as nat);
        let a = waiting[n - 1];
        match order::first_where(after.len(), answers(a, after, before, c.claimed)) {
            Some(i) => Claims {
                bindings: c.bindings.insert(a.id, after[i].hwnd),
                claimed: c.claimed.insert(after[i].hwnd),
                blanks: if blank.contains(a.id) {
                    c.blanks.push(after[i].hwnd)
                } else {
                    c.blanks
                },
            },
            None => c,
        }
    }
}

fn find_answer(
    program: &str,
    class: &str,
    after: &[TopLevelWindow],
    before: &HashSet<isize>,
    claimed: &HashSet<isize>,
    Ghost(a): Ghost<Awaited>,
) -> (r: Option<usize>)
    requires
        a.program == program@,
        a.class == class@,
    ensures
        match r {
            Some(i) => i < after@.len() && order::first_where(
                after@.len(),
                answers(a, after@, before@, claimed@),
            ) == Some(i as int),
            None => order::first_where(
                after@.len(),
                answers(a, after@, before@, claimed@),
            ) is None,
        },
{
    let ghost test = answers(a, after@, before@, claimed@);
    let mut i: usize = 0;
    while i < after.len()
        invariant
            i <= after@.len(),
            a.program == program@,
            a.class == class@,
            test == answers(a, after@, before@, claimed@),
            forall|k: int| 0 <= k < i ==> !#[trigger] test(k),
        decreases after@.len() - i,
    {
        let w = &after[i];
        let same_program = match &w.executable_path {
            Some(path) => winpath::equal_paths(path.as_str(), program),
            None => false,
        };
        if !before.contains(&w.hwnd) && !claimed.contains(&w.hwnd) && text::same_text(
            w.window_class.as_str(),
            class,
        ) && same_program {
            proof {
                assert(test(i as int));
                order::lemma_first_where_some(after@.len(), test, i as int);
            }
            return Some(i);
        }
        assert(!test(i as int));
        i += 1;
    }
    proof {
        order::lemma_first_where_none(after@.len(), test);
    }
    None
}

/// Binds each registered window that was started to the first new window that answers to it, in
/// the order in which they were started. Hands back the empty browser windows among them.
pub fn acquire_launched(
    pending: &PendingAcquire,
    after: &[TopLevelWindow],
    bindings: &mut HashMap<Uuid, isize>,
) -> (r: Vec<isize>)
    ensures
        ({
            let c = claims(
                old(bindings)@,
                awaited_view(pending.dead@),
                pending.blank_browsers@,
                pending.before@,
                after@,
                pending.dead@.len(),
            );
            &&& final(bindings)@ == c.bindings
            &&& r@ == c.blanks
        }),
{
    let ghost bindings0 = bindings@;
    let ghost waiting = awaited_view(pending.dead@);
    let mut claimed: HashSet<isize> = HashSet::new();
    let mut blanks: Vec<isize> = Vec::new();
    let mut i: usize = 0;
    assert(claimed@ =~= Set::<isize>::empty());
    assert(blanks@ =~= Seq::<isize>::empty());
    while i < pending.dead.len()
        invariant
            i <= pending.dead@.len(),
            waiting == awaited_view(pending.dead@),
            ({
                let c = claims(
                    bindings0,
                    waiting,
                    pending.blank_browsers@,
                    pending.before@,
                    after@,
                    i as nat,
                );
                &&& bindings@ == c.bindings
                &&& claimed@ == c.claimed
                &&& blanks@ == c.blanks
            }),
        decreases pending.dead@.len() - i,
    {
        let id: Uuid = pending.dead[i].0;
        let ghost a = waiting[i as int];
        if let Some(k) = find_answer(
            pending.dead[i].1.as_str(),
            pending.dead[i].2.as_str(),
            after,
            &pending.before,
            &claimed,
            Ghost(a),
        ) {
            let hwnd: isize = after[k].hwnd;
            bindings.insert(id, hwnd);
            claimed.insert(hwnd);
            if pending.blank_browsers.contains(&id) {
                blanks.push(hwnd);
            }
        }
        i += 1;
    }
    blanks
}

proof fn lemma_claims_fresh(
    bindings: Map<Uuid, isize>,
    waiting: Seq<Awaited>,
    blank: Set<Uuid>,
    before: Set<isize>,
    after: Seq<TopLevelWindow>,
    n: nat,
)
    requires
        n <= waiting.len(),
    ensures
        ({
            let c = claims(bindings, waiting, blank, before, after, n);
            &&& forall|h: isize| #[trigger] c.claimed.contains(h) ==> !before.contains(h)
            &&& forall|id: Uuid| #[trigger]
                c.bindings.contains_key(id) ==> c.claimed.contains(c.bindings[id]) || (
                bindings.contains_key(id) && bindings[id] == c.bindings[id])
        }),
    decreases n,
{
    if n > 0 {
        lemma_claims_fresh(bindings, waiting, blank, before, after, (n - 1) as nat);
        let c = claims(bindings, waiting, blank, before, after, (n - 1) as nat);
        let test = answers(waiting[n - 1], after, before, c.claimed);
        order::lemma_first_where(after.len(), test);
        if let Some(i) = order::first_where(after.len(), test) {
            assert(test(i));
        }
    }
}

/// A window that was there before is never taken for one that was started: a binding is either as
/// it was, or goes to a new window.
pub proof fn law_only_new_windows_are_bound(
    bindings: Map<Uuid, isize>,
    waiting: Seq<Awaited>,
    blank: Set<Uuid>,
    before: Set<isize>,
    after: Seq<TopLevelWindow>,
    id: Uuid,
)
    requires
        claims(bindings, waiting, blank, before, after, waiting.len()).bindings.contains_key(id),
    ensures
        ({
            let now = claims(bindings, waiting, blank, before, after, waiting.len()).bindings;
            (bindings.contains_key(id) && now[id] == bindings[id]) || !before.contains(now[id])
        }),
{
    lemma_claims_fresh(bindings, waiting, blank, before, after, waiting.len());
}

/// Before the windows of a set are put in place again, the set must not count as current.
pub fn forget_current(runtime: &mut RuntimeState, workset_id: Uuid) -> (r: bool)
    ensures
        r == (old(runtime).current_workset_id == Some(workset_id)),
        !r ==> *final(runtime) == *old(runtime),
        r ==> *final(runtime) == (RuntimeState { current_workset_id: None, ..*old(runtime) }),
{
    match runtime.current_workset_id {
        Some(id) => if id == workset_id {
            runtime.current_workset_id = None;
            true
        } else {
            false
        },
        None => false,
    }
}

/// Says how many programs were started.
pub fn started_message(count: usize) -> (r: String)
    ensures
        r@ == text::decimal(count as nat)
            + "個のアプリを起動しました。配置を復元しています… （復元完了まで、同じアプリを手動で起動しないでください）"@,
{
    let number = text::decimal_text(count as u64);
    text::joined2(
        number.as_str(),
        "個のアプリを起動しました。配置を復元しています… （復元完了まで、同じアプリを手動で起動しないでください）",
    )
}

// ---------------------------------------------------------------------------
// Registering
// ---------------------------------------------------------------------------

/// The folder that an editor is started with: the one that its window has open, or else the
/// repository of the set.
pub open spec fn launch_folder(
    executable: Seq<char>,
    repository: Seq<char>,
    command_line: Option<Seq<char>>,
) -> Option<Seq<char>> {
    let open_folder = match command_line {
        Some(line) => if launch_service::kind_of(executable) == LaunchKind::VsCode {
            launch_service::first_positional(launch_service::tokens_of(line), 1)
        } else {
            None
        },
        None => None,
    };
    match open_folder {
        Some(folder) => Some(folder),
        None => if repository.len() > 0 {
            Some(repository)
        } else {
            None
        },
    }
}

/// `spec` starts the program again, with what the window had open.
pub open spec fn restarts(
    spec: LaunchSpec,
    executable: Seq<char>,
    repository: Seq<char>,
    browser_url: Option<Seq<char>>,
    command_line: Option<Seq<char>>,
) -> bool {
    &&& spec.program@ == executable
    &&& spec.kind == launch_service::kind_of(executable)
    &&& text::texts(spec.args@) == launch_service::launch_args(
        executable,
        launch_folder(executable, repository, command_line),
        browser_url,
    )
    &&& text::opt_text(spec.aumid) == launch_service::aumid_of(executable)
}

/// How to start a window's program again. A window whose program is unknown cannot be.
pub fn capture_launch_spec(
    window: &TopLevelWindow,
    repository_path: &str,
    browser_url: Option<&str>,
    command_line: Option<&str>,
) -> (r: Option<LaunchSpec>)
    ensures
        r is Some <==> window.executable_path is Some,
        r matches Some(spec) ==> restarts(
            spec,
            window.executable_path->0@,
            repository_path@,
            text::opt_str(browser_url),
            text::opt_str(command_line),
        ),
{
    match &window.executable_path {
        None => None,
        Some(exe) => {
            let kind = launch_service::classify(exe.as_str());
            let open_folder = match command_line {
                Some(line) => if kind == LaunchKind::VsCode {
                    launch_service::extract_vscode_folder(line)
                } else {
                    None
                },
                None => None,
            };
            let folder = match &open_folder {
                Some(folder) => Some(folder.as_str()),
                None => if !text::is_empty_text(repository_path) {
                    Some(repository_path)
                } else {
                    None
                },
            };
            Some(launch_service::build_launch_spec(exe.as_str(), folder, browser_url))
        },
    }
}

/// A window that the user wants registered, with what could be read of it.
#[derive(Debug)]
pub struct RegistrationReading<'a> {
    pub window: &'a TopLevelWindow,
    pub show_state: Option<SavedShowState>,
    pub rect: Option<PixelRect>,
    pub browser_url: Option<String>,
    pub command_line: Option<String>,
}

/// The window stands on a main monitor, and how it is shown could be read.
pub open spec fn is_registrable<'a>(
    reading: RegistrationReading<'a>,
    monitors: Seq<MonitorInfo>,
    main_ids: Seq<String>,
) -> bool {
    &&& reading.show_state is Some
    &&& reading.rect is Some
    &&& workset_service::main_index_at(
        monitors,
        main_ids,
        reading.window.rect_px.mid_x(),
        reading.window.rect_px.mid_y(),
    ) is Some
}

/// The nearest number that an `i32` can hold.
pub open spec fn as_order(n: int) -> int {
    if n > i32::MAX {
        i32::MAX as int
    } else {
        n
    }
}

fn order_of(n: usize) -> (r: i32)
    ensures
        r == as_order(n as int),
{
    if n <= i32::MAX as usize {
        n as i32
    } else {
        i32::MAX
    }
}

/// `w` is the window of `reading`, as it is registered at place `z`.
pub open spec fn is_registered<'a>(
    w: ManagedWindow,
    reading: RegistrationReading<'a>,
    z: int,
    repository: Seq<char>,
    monitors: Seq<MonitorInfo>,
    main_ids: Seq<String>,
) -> bool {
    let i = workset_service::main_index_at(
        monitors,
        main_ids,
        reading.window.rect_px.mid_x(),
        reading.window.rect_px.mid_y(),
    )->0;
    &&& workset_service::describes(w.matcher, *reading.window)
    &&& w.main_placement.monitor_id@ == main_ids[i]@
    &&& w.main_placement.main_monitor_index == i
    &&& monitor_resolution::live_monitor(monitors, main_ids[i]@) matches Some(m)
    &&& w.main_placement.normalized_rect == placement::normalized(reading.rect->0, m.work_area_px)
    &&& w.main_placement.physical_rect_at_capture == reading.rect->0
    &&& w.main_placement.show_state == reading.show_state->0
    &&& w.z_order == as_order(z)
    &&& !w.minimize_when_parked
    &&& (w.launch_spec is Some <==> reading.window.executable_path is Some)
    &&& w.launch_spec matches Some(spec) ==> restarts(
        spec,
        reading.window.executable_path->0@,
        repository,
        text::opt_text(reading.browser_url),
        text::opt_text(reading.command_line),
    )
}

/// The windows registered from the first `n` readings, one for each that can be registered, and
/// the live window that each was seen as.
pub open spec fn is_registration<'a>(
    readings: Seq<RegistrationReading<'a>>,
    repository: Seq<char>,
    monitors: Seq<MonitorInfo>,
    main_ids: Seq<String>,
    n: nat,
    windows: Seq<ManagedWindow>,
    seeds: Seq<(Uuid, isize)>,
) -> bool
    decreases n,
{
    if n == 0 {
        windows.len() == 0 && seeds.len() == 0
    } else if is_registrable(readings[n - 1], monitors, main_ids) {
        &&& windows.len() > 0
        &&& seeds.len() > 0
        &&& is_registered(
            windows.last(),
            readings[n - 1],
            n - 1,
            repository,
            monitors,
            main_ids,
        )
        &&& seeds.last() == (windows.last().id, readings[n - 1].window.hwnd)
        &&& is_registration(
            readings,
            repository,
            monitors,
            main_ids,
            (n - 1) as nat,
            windows.drop_last(),
            seeds.drop_last(),
        )
    } else {
        is_registration(
            readings,
            repository,
            monitors,
            main_ids,
            (n - 1) as nat,
            windows,
            seeds,
        )
    }
}

fn opt_as_str(s: &Option<String>) -> (r: Option<&str>)
    ensures
        text::opt_str(r) == text::opt_text(*s),
{
    match s {
        Some(t) => Some(t.as_str()),
        None => None,
    }
}

/// Registers the windows that can be, in the order given, and writes down which live window each
/// of them is.
pub fn collect_registration<'a>(
    readings: &Vec<RegistrationReading<'a>>,
    repository_path: &str,
    monitors: &[MonitorInfo],
    main_monitor_ids: &[String],
) -> (r: (Vec<ManagedWindow>, Vec<(Uuid, isize)>))
    ensures
        is_registration(
            readings@,
            repository_path@,
            monitors@,
            main_monitor_ids@,
            readings@.len(),
            r.0@,
            r.1@,
        ),
{
    let mut windows: Vec<ManagedWindow> = Vec::new();
    let mut seeds: Vec<(Uuid, isize)> = Vec::new();
    let mut i: usize = 0;
    while i < readings.len()
        invariant
            i <= readings@.len(),
            is_registration(
                readings@,
                repository_path@,
                monitors@,
                main_monitor_ids@,
                i as nat,
                windows@,
                seeds@,
            ),
        decreases readings@.len() - i,
    {
        let reading = &readings[i];
        if let (Some(show_state), Some(rect)) = (reading.show_state, reading.rect) {
            match workset_service::build_managed_window(
                reading.window,
                rect,
                show_state,
                order_of(i),
                monitors,
                main_monitor_ids,
            ) {
                Ok(mut w) => {
                    let ghost built = w;
                    w.launch_spec = capture_launch_spec(
                        reading.window,
                        repository_path,
                        opt_as_str(&reading.browser_url),
                        opt_as_str(&reading.command_line),
                    );
                    let ghost windows0 = windows@;
                    let ghost seeds0 = seeds@;
                    seeds.push((w.id, reading.window.hwnd));
                    windows.push(w);
                    proof {
                        assert(windows@.drop_last() =~= windows0);
                        assert(seeds@.drop_last() =~= seeds0);
                        assert(is_registrable(readings@[i as int], monitors@, main_monitor_ids@));
                    }
                },
                Err(_) => {
                    assert(!is_registrable(readings@[i as int], monitors@, main_monitor_ids@));
                },
            }
        } else {
            assert(!is_registrable(readings@[i as int], monitors@, main_monitor_ids@));
        }
        i += 1;
    }
    (windows, seeds)
}

/// The named area that is picked, if any: -1 stands for none.
pub open spec fn picked_policy(subs: Seq<SubScreen>, picked: int) -> ParkingPolicy {
    if 0 <= picked < subs.len() {
        ParkingPolicy::SubScreen { sub_screen_id: subs[picked].id }
    } else {
        ParkingPolicy::Auto
    }
}

/// A picked area that is not there any more counts as none.
pub fn clamp_parking_sub(picked: i32, subs: usize) -> (r: i32)
    ensures
        r == if subs > i32::MAX {
            if picked >= 0 {
                -1
            } else {
                picked as int
            }
        } else if picked >= subs {
            -1
        } else {
            picked as int
        },
{
    let limit: i32 = if subs <= i32::MAX as usize {
        subs as i32
    } else {
        0
    };
    if picked >= limit {
        -1
    } else {
        picked
    }
}

/// What the user has filled in.
#[derive(Debug)]
pub struct RegistrationForm {
    pub name: String,
    pub color: Rgb,
    pub repository_path: String,
    pub repository_kind: RepositoryKind,
    pub fullscreen_when_parked: bool,
    pub parking_selected_sub: i32,
}

/// `w` is the set that the form describes.
pub open spec fn fills_in(
    w: Workset,
    form: RegistrationForm,
    config: AppConfig,
    windows: Vec<ManagedWindow>,
    now: String,
) -> bool {
    &&& w.name == form.name
    &&& w.color@ == colors::color_text(form.color)
    &&& w.repository_path == form.repository_path
    &&& w.repository_kind == form.repository_kind
    &&& w.sort_order == as_order(config.worksets@.len() as int)
    &&& w.direct_hotkey is None
    &&& w.parking_policy == picked_policy(
        config.sub_screens@,
        form.parking_selected_sub as int,
    )
    &&& w.fullscreen_when_parked == form.fullscreen_when_parked
    &&& w.windows == windows
    &&& w.created_at == now
    &&& w.updated_at == now
}

/// Makes a set out of what the user has filled in.
pub fn fill_in_workset(
    form: RegistrationForm,
    config: &AppConfig,
    windows: Vec<ManagedWindow>,
    now: String,
) -> (r: Workset)
    ensures
        fills_in(r, form, *config, windows, now),
{
    let sort_order: i32 = order_of(config.worksets.len());
    let mut w = workset_service::build_workset(
        form.name,
        colors::color_to_hex(form.color),
        form.repository_path,
        form.repository_kind,
        sort_order,
        windows,
        now,
    );
    w.fullscreen_when_parked = form.fullscreen_when_parked;
    if form.parking_selected_sub >= 0 {
        let at: usize = form.parking_selected_sub as usize;
        if at < config.sub_screens.len() {
            w.parking_policy = ParkingPolicy::SubScreen {
                sub_screen_id: config.sub_screens[at].id,
            };
        }
    }
    w
}

/// What can be wrong with what the user has filled in.
#[derive(Clone, Copy, Debug, PartialEq, Eq, Structural)]
pub enum FormError {
    NameMissing,
    NothingTicked,
    NothingRegistrable,
}

impl FormError {
    pub fn message(&self) -> (r: &'static str)
        ensures
            r@ == match *self {
                FormError::NameMissing => "名前を入力してください。"@,
                FormError::NothingTicked => "ウィンドウを1つ以上選択してください。"@,
                FormError::NothingRegistrable => "登録できるウィンドウがありませんでした。"@,
            },
    {
        match self {
            FormError::NameMissing => "名前を入力してください。",
            FormError::NothingTicked => "ウィンドウを1つ以上選択してください。",
            FormError::NothingRegistrable => "登録できるウィンドウがありませんでした。",
        }
    }
}

/// Looks over what the user has filled in: the name without white space around it, and at least one
/// window.
pub fn check_form(raw_name: &str, ticked: usize) -> (r: Result<String, FormError>)
    ensures
        ({
            let name = text::trimmed(raw_name@);
            match r {
                Err(FormError::NameMissing) => name.len() == 0,
                Err(FormError::NothingTicked) => name.len() > 0 && ticked == 0,
                Err(FormError::NothingRegistrable) => false,
                Ok(n) => name.len() > 0 && ticked > 0 && n@ == name,
            }
        }),
{
    let name = text::trim_text(raw_name);
    if text::is_empty_text(name.as_str()) {
        Err(FormError::NameMissing)
    } else if ticked == 0 {
        Err(FormError::NothingTicked)
    } else {
        Ok(name)
    }
}

/// What it takes to undo a registration.
#[derive(Debug)]
pub enum RegistrationUndo {
    /// The set at that place had these contents.
    Replaced { at: usize, old: Workset },
    /// A set was added at the end.
    Appended,
}

pub open spec fn has_id(worksets: Seq<Workset>, id: Uuid) -> spec_fn(int) -> bool {
    |i: int| worksets[i].id == id
}

/// Where the set that is edited stands; none for a new one or one that is gone.
pub open spec fn edited_at(worksets: Seq<Workset>, editing: Option<Uuid>) -> Option<int> {
    match editing {
        Some(id) => order::first_where(worksets.len(), has_id(worksets, id)),
        None => None,
    }
}

/// A set with new contents. It stays the same set: its id, its place in the order, its hotkey and
/// the time at which it was made are kept.
pub open spec fn edited(before: Workset, contents: Workset) -> Workset {
    Workset {
        name: contents.name,
        repository_path: contents.repository_path,
        repository_kind: contents.repository_kind,
        color: contents.color,
        parking_policy: contents.parking_policy,
        fullscreen_when_parked: contents.fullscreen_when_parked,
        windows: contents.windows,
        updated_at: contents.updated_at,
        ..before
    }
}

/// Nothing but the sets differs.
pub open spec fn same_but_worksets(before: AppConfig, after: AppConfig) -> bool {
    &&& after.monitors == before.monitors
    &&& after.main_monitor_ids == before.main_monitor_ids
    &&& after.sub_screens == before.sub_screens
    &&& after.fixed_slots == before.fixed_slots
    &&& after.settings == before.settings
}

fn find_edited(worksets: &Vec<Workset>, editing: Option<Uuid>) -> (r: Option<usize>)
    ensures
        match r {
            Some(i) => edited_at(worksets@, editing) == Some(i as int) && i < worksets@.len(),
            None => edited_at(worksets@, editing) is None,
        },
{
    let id: Uuid = editing?;
    let ghost test = has_id(worksets@, id);
    let mut i: usize = 0;
    while i < worksets.len()
        invariant
            i <= worksets@.len(),
            test == has_id(worksets@, id),
            editing == Some(id),
            forall|k: int| 0 <= k < i ==> !#[trigger] test(k),
        decreases worksets@.len() - i,
    {
        if worksets[i].id == id {
            proof {
                assert(test(i as int));
                order::lemma_first_where_some(worksets@.len(), test, i as int);
            }
            return Some(i);
        }
        assert(!test(i as int));
        i += 1;
    }
    proof {
        order::lemma_first_where_none(worksets@.len(), test);
    }
    None
}

fn swap_contents(set: &mut Workset, contents: &mut Workset)
    ensures
        *final(set) == edited(*old(set), *old(contents)),
        *final(contents) == edited(*old(contents), *old(set)),
{
    std::mem::swap(&mut set.name, &mut contents.name);
    std::mem::swap(&mut set.repository_path, &mut contents.repository_path);
    std::mem::swap(&mut set.repository_kind, &mut contents.repository_kind);
    std::mem::swap(&mut set.color, &mut contents.color);
    std::mem::swap(&mut set.parking_policy, &mut contents.parking_policy);
    std::mem::swap(&mut set.fullscreen_when_parked, &mut contents.fullscreen_when_parked);
    std::mem::swap(&mut set.windows, &mut contents.windows);
    std::mem::swap(&mut set.updated_at, &mut contents.updated_at);
}

impl RegistrationUndo {
    /// There is something to undo in these sets.
    pub open spec fn applies_to(self, worksets: Seq<Workset>) -> bool {
        match self {
            RegistrationUndo::Replaced { at, old: _ } => at < worksets.len(),
            RegistrationUndo::Appended => worksets.len() > 0,
        }
    }

    /// The sets once the registration is taken back.
    pub open spec fn undone(self, worksets: Seq<Workset>) -> Seq<Workset> {
        match self {
            RegistrationUndo::Replaced { at, old } => worksets.update(
                at as int,
                edited(worksets[at as int], old),
            ),
            RegistrationUndo::Appended => worksets.drop_last(),
        }
    }
}

/// Takes a set into the configuration: in place of the one that is edited, or else at the end.
pub fn apply_registration(
    config: &mut AppConfig,
    workset: Workset,
    editing: Option<Uuid>,
) -> (r: RegistrationUndo)
    ensures
        same_but_worksets(*old(config), *final(config)),
        final(config).worksets@ == match edited_at(old(config).worksets@, editing) {
            Some(i) => old(config).worksets@.update(
                i,
                edited(old(config).worksets@[i], workset),
            ),
            None => old(config).worksets@.push(workset),
        },
        r.applies_to(final(config).worksets@),
        r.undone(final(config).worksets@) == old(config).worksets@,
{
    let ghost before = config.worksets@;
    match find_edited(&config.worksets, editing) {
        Some(at) => {
            let mut old_contents = workset;
            swap_contents(&mut config.worksets[at], &mut old_contents);
            proof {
                let after = config.worksets@;
                assert(after =~= before.update(at as int, edited(before[at as int], workset)));
                assert(edited(after[at as int], old_contents) == before[at as int]);
                assert(before =~= after.update(
                    at as int,
                    edited(after[at as int], old_contents),
                ));
            }
            RegistrationUndo::Replaced { at, old: old_contents }
        },
        None => {
            config.worksets.push(workset);
            assert(config.worksets@.drop_last() =~= before);
            RegistrationUndo::Appended
        },
    }
}

/// Takes a registration back.
pub fn undo_registration(config: &mut AppConfig, undo: RegistrationUndo)
    requires
        undo.applies_to(old(config).worksets@),
    ensures
        same_but_worksets(*old(config), *final(config)),
        final(config).worksets@ == undo.undone(old(config).worksets@),
{
    let ghost now = config.worksets@;
    match undo {
        RegistrationUndo::Replaced { at, old } => {
            let mut contents = old;
            swap_contents(&mut config.worksets[at], &mut contents);
            assert(config.worksets@ =~= now.update(at as int, edited(now[at as int], old)));
        },
        RegistrationUndo::Appended => {
            config.worksets.pop();
        },
    }
}

/// Says what is wrong, in few words.
pub fn config_validation_message(error: &ConfigValidationError) -> (r: String)
    ensures
        r@ == error_text(*error),
{
    match error {
        ConfigValidationError::WorksetNameLength => text::owned(
            "セット名は1〜80文字にしてください。",
        ),
        ConfigValidationError::DuplicateWindowMatcher { registered_title } => text::joined3(
            "「",
            registered_title.as_str(),
            "」は既に別のセットに登録されています。",
        ),
        ConfigValidationError::Other(message) => message.clone(),
    }
}

pub open spec fn error_text(error: ConfigValidationError) -> Seq<char> {
    match error {
        ConfigValidationError::WorksetNameLength => "セット名は1〜80文字にしてください。"@,
        ConfigValidationError::DuplicateWindowMatcher { registered_title } => "「"@
            + registered_title@ + "」は既に別のセットに登録されています。"@,
        ConfigValidationError::Other(message) => message@,
    }
}

/// The errors that stop a registration, in words. That a window is in two sets does not.
pub open spec fn fatal_texts(errors: Seq<ConfigValidationError>, n: nat) -> Seq<Seq<char>>
    decreases n,
{
    if n == 0 {
        Seq::empty()
    } else {
        let before = fatal_texts(errors, (n - 1) as nat);
        if errors[n - 1] is DuplicateWindowMatcher {
            before
        } else {
            before.push(error_text(errors[n - 1]))
        }
    }
}

/// Why a registration cannot be saved, if it cannot.
pub fn registration_refusal(errors: &[ConfigValidationError]) -> (r: Option<String>)
    ensures
        ({
            let fatal = fatal_texts(errors@, errors@.len());
            match r {
                None => fatal.len() == 0,
                Some(message) => fatal.len() > 0 && message@ == text::join_with(fatal, " / "@),
            }
        }),
{
    let mut fatal: Vec<String> = Vec::new();
    let mut i: usize = 0;
    assert(text::texts(fatal@) =~= Seq::<Seq<char>>::empty());
    while i < errors.len()
        invariant
            i <= errors@.len(),
            text::texts(fatal@) == fatal_texts(errors@, i as nat),
            fatal@.len() == fatal_texts(errors@, i as nat).len(),
        decreases errors@.len() - i,
    {
        let shared = match &errors[i] {
            ConfigValidationError::DuplicateWindowMatcher { registered_title: _ } => true,
            _ => false,
        };
        if !shared {
            let message = config_validation_message(&errors[i]);
            let ghost before = fatal@;
            let ghost said = message@;
            fatal.push(message);
            assert(text::texts(fatal@) =~= text::texts(before).push(said));
        }
        i += 1;
    }
    if fatal.len() == 0 {
        None
    } else {
        Some(text::join_text(&fatal, " / "))
    }
}

/// Says that a registration cannot be saved.
pub fn refused_message(reason: &str) -> (r: String)
    ensures
        r@ == "登録できません: "@ + reason@,
{
    text::joined2("登録できません: ", reason)
}

/// Says that a set was registered or changed.
pub fn registered_message(edited: bool) -> (r: &'static str)
    ensures
        r@ == if edited {
            "セットを更新しました。"@
        } else {
            "ワークセットを登録しました。"@
        },
{
    if edited {
        "セットを更新しました。"
    } else {
        "ワークセットを登録しました。"
    }
}

/// The bindings after the first `n` registered windows were bound.
pub open spec fn seeded(
    bindings: Map<Uuid, isize>,
    seeds: Seq<(Uuid, isize)>,
    n: nat,
) -> Map<Uuid, isize>
    decreases n,
{
    if n == 0 {
        bindings
    } else {
        seeded(bindings, seeds, (n - 1) as nat).insert(seeds[n - 1].0, seeds[n - 1].1)
    }
}

/// Binds each registered window to the live window that the user has picked for it.
pub fn seed_bindings(bindings: &mut HashMap<Uuid, isize>, seeds: &Vec<(Uuid, isize)>)
    ensures
        final(bindings)@ == seeded(old(bindings)@, seeds@, seeds@.len()),
{
    let ghost before = bindings@;
    let mut i: usize = 0;
    while i < seeds.len()
        invariant
            i <= seeds@.len(),
            bindings@ == seeded(before, seeds@, i as nat),
        decreases seeds@.len() - i,
    {
        bindings.insert(seeds[i].0, seeds[i].1);
        i += 1;
    }
}

/// What the form shows when a set is registered anew.
#[derive(Debug)]
pub struct Prefill {
    pub editing_id: Uuid,
    pub name: String,
    pub repository: Option<(String, RepositoryKind)>,
    pub repository_label: String,
    pub color: Rgb,
    pub fullscreen_when_parked: bool,
    pub parking_selected_sub: i32,
}

pub open spec fn has_area_id(subs: Seq<SubScreen>, id: Uuid) -> spec_fn(int) -> bool {
    |i: int| subs[i].id == id
}

/// Which named area a set parks in; -1 for none.
pub open spec fn area_number(subs: Seq<SubScreen>, policy: ParkingPolicy) -> int {
    match policy {
        ParkingPolicy::SubScreen { sub_screen_id } => match order::first_where(
            subs.len(),
            has_area_id(subs, sub_screen_id),
        ) {
            Some(i) => if i <= i32::MAX {
                i
            } else {
                -1
            },
            None => -1,
        },
        _ => -1,
    }
}

fn find_area_number(subs: &Vec<SubScreen>, policy: ParkingPolicy) -> (r: i32)
    ensures
        r == area_number(subs@, policy),
{
    if let ParkingPolicy::SubScreen { sub_screen_id } = policy {
        let ghost test = has_area_id(subs@, sub_screen_id);
        let mut i: usize = 0;
        while i < subs.len()
            invariant
                i <= subs@.len(),
                policy == (ParkingPolicy::SubScreen { sub_screen_id }),
                test == has_area_id(subs@, sub_screen_id),
                forall|k: int| 0 <= k < i ==> !#[trigger] test(k),
            decreases subs@.len() - i,
        {
            if subs[i].id == sub_screen_id {
                proof {
                    assert(test(i as int));
                    order::lemma_first_where_some(subs@.len(), test, i as int);
                }
                return if i <= i32::MAX as usize {
                    i as i32
                } else {
                    -1
                };
            }
            assert(!test(i as int));
            i += 1;
        }
        proof {
            order::lemma_first_where_none(subs@.len(), test);
        }
    }
    -1
}

/// Fills the form in with a set as it is.
pub fn prefill_form(config: &AppConfig, index: usize) -> (r: Option<Prefill>)
    ensures
        r is Some <==> index < config.worksets@.len(),
        r matches Some(p) ==> {
            let w = config.worksets@[index as int];
            &&& p.editing_id == w.id
            &&& p.name == w.name
            &&& match p.repository {
                Some((path, kind)) => w.repository_path@.len() > 0 && path == w.repository_path
                    && kind == w.repository_kind,
                None => w.repository_path@.len() == 0,
            }
            &&& p.repository_label@ == repository_text(w.repository_path@)
            &&& p.color == colors::color_of(w.color@)
            &&& p.fullscreen_when_parked == w.fullscreen_when_parked
            &&& p.parking_selected_sub == area_number(config.sub_screens@, w.parking_policy)
        },
{
    if index >= config.worksets.len() {
        return None;
    }
    let w = &config.worksets[index];
    let repository = if text::is_empty_text(w.repository_path.as_str()) {
        None
    } else {
        Some((w.repository_path.clone(), w.repository_kind))
    };
    Some(
        Prefill {
            editing_id: w.id,
            name: w.name.clone(),
            repository,
            repository_label: repository_label(w.repository_path.as_str()),
            color: colors::hex_to_color(w.color.as_str()),
            fullscreen_when_parked: w.fullscreen_when_parked,
            parking_selected_sub: find_area_number(&config.sub_screens, w.parking_policy),
        },
    )
}

/// Filling the form in and taking it back as it is keeps the named area of a set, where that area
/// is there at all and the only one with its id.
pub proof fn law_prefill_keeps_the_area(subs: Seq<SubScreen>, at: int)
    requires
        0 <= at < subs.len() <= i32::MAX,
        forall|i: int, j: int|
            0 <= i < j < subs.len() ==> (#[trigger] subs[i]).id != (#[trigger] subs[j]).id,
    ensures
        ({
            let policy = ParkingPolicy::SubScreen { sub_screen_id: subs[at].id };
            picked_policy(subs, area_number(subs, policy)) == policy
        }),
{
    let test = has_area_id(subs, subs[at].id);
    assert(test(at));
    assert forall|k: int| 0 <= k < at implies !#[trigger] test(k) by {
        assert(subs[k].id != subs[at].id);
    }
    order::lemma_first_where_some(subs.len(), test, at);
}

/// Removes the selected set. Says whether there was one.
pub fn delete_selected(config: &mut AppConfig, selected: &mut Option<usize>) -> (r: bool)
    ensures
        same_but_worksets(*old(config), *final(config)),
        match *old(selected) {
            Some(i) => {
                &&& r == (i < old(config).worksets@.len())
                &&& r ==> final(config).worksets@ == old(config).worksets@.remove(i as int)
                    && *final(selected) is None
                &&& !r ==> *final(config) == *old(config) && *final(selected) == *old(selected)
            },
            None => !r && *final(config) == *old(config) && *final(selected) is None,
        },
{
    match *selected {
        Some(i) => {
            if i >= config.worksets.len() {
                return false;
            }
            config.worksets.remove(i);
            *selected = None;
            true
        },
        None => false,
    }
}

/// Selects a set, if there is one at that place.
pub fn select_workset(worksets: usize, selected: &mut Option<usize>, index: usize)
    ensures
        *final(selected) == if index < worksets {
            Some(index)
        } else {
            *old(selected)
        },
{
    if index < worksets {
        *selected = Some(index);
    }
}

// ---------------------------------------------------------------------------
// What registering and reopening are for
// ---------------------------------------------------------------------------

/// What is registered is what comes back: a window that is registered where it stands on a main
/// monitor is brought back to the same rectangle, maximized if it was and normal otherwise, as long
/// as that monitor has not changed.
pub proof fn law_registered_window_comes_back_as_it_was<'a>(
    w: ManagedWindow,
    reading: RegistrationReading<'a>,
    z: int,
    repository: Seq<char>,
    monitors: Seq<MonitorInfo>,
    main_ids: Seq<String>,
)
    requires
        is_registrable(reading, monitors, main_ids),
        is_registered(w, reading, z, repository, monitors, main_ids),
        monitor_resolution::live_monitor(
            monitors,
            main_ids[w.main_placement.main_monitor_index as int]@,
        ) matches Some(m) && 0 < m.work_area_px.width < placement::NORMALIZED_UNIT && 0
            < m.work_area_px.height < placement::NORMALIZED_UNIT && (reading.rect->0).meets(
            m.work_area_px,
        ),
        (reading.rect->0).width >= main_placement::MIN_WINDOW_WIDTH,
        (reading.rect->0).height >= main_placement::MIN_WINDOW_HEIGHT,
    ensures
        main_placement::restore_of(w.main_placement, monitors, main_ids) == Some(
            main_placement::RestoreOutcome {
                rect: reading.rect->0,
                show_state: if reading.show_state == Some(SavedShowState::Maximized) {
                    SavedShowState::Maximized
                } else {
                    SavedShowState::Normal
                },
            },
        ),
{
    let (x, y) = (reading.window.rect_px.mid_x(), reading.window.rect_px.mid_y());
    order::lemma_first_where(
        main_ids.len(),
        |i: int| workset_service::point_on(monitors, main_ids[i]@, x, y),
    );
    main_placement::law_registered_window_comes_back(
        w.main_placement,
        reading.rect->0,
        monitors,
        main_ids,
    );
}

/// Every window that can be registered is, in the order given and under the handle that the user has
/// picked; and each is told by its program, its class and its title.
pub proof fn law_every_registrable_window_is_registered<'a>(
    readings: Seq<RegistrationReading<'a>>,
    repository: Seq<char>,
    monitors: Seq<MonitorInfo>,
    main_ids: Seq<String>,
    n: nat,
    windows: Seq<ManagedWindow>,
    seeds: Seq<(Uuid, isize)>,
    i: int,
) -> (k: int)
    requires
        is_registration(readings, repository, monitors, main_ids, n, windows, seeds),
        0 <= i < n,
        is_registrable(readings[i], monitors, main_ids),
    ensures
        windows.len() == seeds.len(),
        0 <= k < windows.len(),
        seeds[k] == (windows[k].id, readings[i].window.hwnd),
        windows[k].matcher.window_class@ == readings[i].window.window_class@,
        windows[k].matcher.registered_title@ == readings[i].window.title@,
        readings[i].window.executable_path matches Some(path) ==> windows[k].matcher.executable_path@
            == path@,
        windows[k].main_placement.physical_rect_at_capture == readings[i].rect->0,
        windows[k].main_placement.show_state == readings[i].show_state->0,
        i <= i32::MAX ==> windows[k].z_order == i,
    decreases n,
{
    lemma_as_many_seeds(readings, repository, monitors, main_ids, n, windows, seeds);
    if i == n - 1 {
        windows.len() - 1
    } else if is_registrable(readings[n - 1], monitors, main_ids) {
        law_every_registrable_window_is_registered(
            readings,
            repository,
            monitors,
            main_ids,
            (n - 1) as nat,
            windows.drop_last(),
            seeds.drop_last(),
            i,
        )
    } else {
        law_every_registrable_window_is_registered(
            readings,
            repository,
            monitors,
            main_ids,
            (n - 1) as nat,
            windows,
            seeds,
            i,
        )
    }
}

proof fn lemma_as_many_seeds<'a>(
    readings: Seq<RegistrationReading<'a>>,
    repository: Seq<char>,
    monitors: Seq<MonitorInfo>,
    main_ids: Seq<String>,
    n: nat,
    windows: Seq<ManagedWindow>,
    seeds: Seq<(Uuid, isize)>,
)
    requires
        is_registration(readings, repository, monitors, main_ids, n, windows, seeds),
    ensures
        windows.len() == seeds.len(),
        windows.len() <= n,
    decreases n,
{
    if n > 0 {
        if is_registrable(readings[n - 1], monitors, main_ids) {
            lemma_as_many_seeds(
                readings,
                repository,
                monitors,
                main_ids,
                (n - 1) as nat,
                windows.drop_last(),
                seeds.drop_last(),
            );
        } else {
            lemma_as_many_seeds(
                readings,
                repository,
                monitors,
                main_ids,
                (n - 1) as nat,
                windows,
                seeds,
            );
        }
    }
}

/// A window of a set can be opened again exactly where it was not found and it is known how to start
/// it.
pub proof fn law_closed_windows_can_be_reopened(
    windows: Seq<ManagedWindow>,
    decisions: Map<Uuid, MatchView>,
    n: nat,
    w: ManagedWindow,
)
    requires
        n <= windows.len(),
    ensures
        reopenable(windows, decisions, n).contains(w) <==> exists|i: int|
            0 <= i < n && #[trigger] windows[i] == w && w.launch_spec is Some
                && workset_service::handle_of(decisions, w.id) is None,
        reopenable(windows, decisions, n).len() == reopenable_count(windows, decisions, n),
    decreases n,
{
    let all = reopenable(windows, decisions, n);
    if n > 0 {
        law_closed_windows_can_be_reopened(windows, decisions, (n - 1) as nat, w);
        let before = reopenable(windows, decisions, (n - 1) as nat);
        if all.contains(w) {
            let k = choose|k: int| 0 <= k < all.len() && all[k] == w;
            if k < before.len() {
                assert(before[k] == w);
            } else {
                assert(windows[n - 1] == w);
            }
        }
        if before.contains(w) {
            let k = choose|k: int| 0 <= k < before.len() && before[k] == w;
            assert(all[k] == w);
        }
        if windows[n - 1] == w && is_reopenable(w, decisions) {
            assert(all[before.len() as int] == w);
        }
    }
}

/// A program is waited for exactly where it was started.
pub proof fn law_started_programs_are_awaited(
    windows: Seq<ManagedWindow>,
    started: Seq<bool>,
    n: nat,
    i: int,
) -> (k: int)
    requires
        0 <= i < n <= windows.len(),
        i < started.len(),
        started[i],
        windows[i].launch_spec is Some,
    ensures
        ({
            let waiting = awaited(windows, started, n);
            &&& 0 <= k < waiting.len()
            &&& waiting[k].id == windows[i].id
            &&& waiting[k].program == windows[i].launch_spec->0.program@
            &&& waiting[k].class == windows[i].matcher.window_class@
        }),
    decreases n,
{
    if i < n - 1 {
        law_started_programs_are_awaited(windows, started, (n - 1) as nat, i)
    } else {
        awaited(windows, started, (n - 1) as nat).len() as int
    }
}

/// Each program that is waited for takes a window of its own: one of that program and class which was
/// not there before, and which no other has taken. It takes none only where every such window is
/// taken already. Those that open an empty browser window are told.
pub proof fn law_each_program_takes_a_window_of_its_own(
    bindings: Map<Uuid, isize>,
    waiting: Seq<Awaited>,
    blank: Set<Uuid>,
    before: Set<isize>,
    after: Seq<TopLevelWindow>,
    n: nat,
    k: int,
)
    requires
        n <= waiting.len(),
        0 <= k < n,
        forall|i: int, j: int|
            0 <= i < j < waiting.len() ==> (#[trigger] waiting[i]).id != (#[trigger] waiting[j]).id,
    ensures
        ({
            let c = claims(bindings, waiting, blank, before, after, n);
            let a = waiting[k];
            ||| {
                &&& c.bindings.contains_key(a.id)
                &&& c.claimed.contains(c.bindings[a.id])
                &&& blank.contains(a.id) ==> c.blanks.contains(c.bindings[a.id])
                &&& exists|i: int|
                    {
                        &&& 0 <= i < after.len()
                        &&& (#[trigger] after[i]).hwnd == c.bindings[a.id]
                        &&& !before.contains(after[i].hwnd)
                        &&& after[i].window_class@ == a.class
                        &&& after[i].executable_path matches Some(path) && winpath::same_path(
                            path@,
                            a.program,
                        )
                    }
            }
            ||| {
                &&& c.bindings.contains_key(a.id) == bindings.contains_key(a.id)
                &&& bindings.contains_key(a.id) ==> c.bindings[a.id] == bindings[a.id]
                &&& forall|i: int|
                    0 <= i < after.len() && !before.contains((#[trigger] after[i]).hwnd)
                        && after[i].window_class@ == a.class && (
                    after[i].executable_path matches Some(path) && winpath::same_path(
                        path@,
                        a.program,
                    )) ==> c.claimed.contains(after[i].hwnd)
            }
        }),
    decreases n,
{
    let m = (n - 1) as nat;
    let b = claims(bindings, waiting, blank, before, after, m);
    let c = claims(bindings, waiting, blank, before, after, n);
    let last = waiting[n - 1];
    let test = answers(last, after, before, b.claimed);
    order::lemma_first_where(after.len(), test);
    if k < n - 1 {
        law_each_program_takes_a_window_of_its_own(bindings, waiting, blank, before, after, m, k);
        assert(waiting[k].id != waiting[n - 1].id);
        if blank.contains(waiting[k].id) && b.bindings.contains_key(waiting[k].id)
            && b.blanks.contains(b.bindings[waiting[k].id]) {
            let h = b.bindings[waiting[k].id];
            let x = choose|x: int| 0 <= x < b.blanks.len() && b.blanks[x] == h;
            assert(c.blanks[x] == h);
        }
    } else {
        lemma_unclaimed_stays(bindings, waiting, blank, before, after, m, last.id);
        match order::first_where(after.len(), test) {
            Some(i) => {
                assert(test(i));
                assert(after[i].hwnd == c.bindings[last.id]);
                if blank.contains(last.id) {
                    assert(c.blanks[b.blanks.len() as int] == after[i].hwnd);
                }
            },
            None => {
                assert forall|i: int|
                    0 <= i < after.len() && !before.contains((#[trigger] after[i]).hwnd)
                        && after[i].window_class@ == last.class && (
                    after[i].executable_path matches Some(path) && winpath::same_path(
                        path@,
                        last.program,
                    )) implies c.claimed.contains(after[i].hwnd) by {
                    assert(!test(i));
                }
            },
        }
    }
}

proof fn lemma_unclaimed_stays(
    bindings: Map<Uuid, isize>,
    waiting: Seq<Awaited>,
    blank: Set<Uuid>,
    before: Set<isize>,
    after: Seq<TopLevelWindow>,
    n: nat,
    id: Uuid,
)
    requires
        n <= waiting.len(),
        forall|i: int| 0 <= i < n ==> (#[trigger] waiting[i]).id != id,
    ensures
        ({
            let c = claims(bindings, waiting, blank, before, after, n);
            &&& c.bindings.contains_key(id) == bindings.contains_key(id)
            &&& bindings.contains_key(id) ==> c.bindings[id] == bindings[id]
        }),
    decreases n,
{
    if n > 0 {
        lemma_unclaimed_stays(bindings, waiting, blank, before, after, (n - 1) as nat, id);
        assert(waiting[n - 1].id != id);
    }
}

/// No new window is taken by two programs.
pub proof fn law_no_new_window_is_taken_twice(
    bindings: Map<Uuid, isize>,
    waiting: Seq<Awaited>,
    blank: Set<Uuid>,
    before: Set<isize>,
    after: Seq<TopLevelWindow>,
    a: Uuid,
    b: Uuid,
    n: nat,
)
    requires
        n <= waiting.len(),
        a != b,
        !bindings.contains_key(a),
        !bindings.contains_key(b),
        claims(bindings, waiting, blank, before, after, n).bindings.contains_key(a),
        claims(bindings, waiting, blank, before, after, n).bindings.contains_key(b),
    ensures
        claims(bindings, waiting, blank, before, after, n).bindings[a] != claims(
            bindings,
            waiting,
            blank,
            before,
            after,
            n,
        ).bindings[b],
    decreases n,
{
    if n > 0 {
        let m = (n - 1) as nat;
        let c = claims(bindings, waiting, blank, before, after, m);
        let test = answers(waiting[n - 1], after, before, c.claimed);
        order::lemma_first_where(after.len(), test);
        lemma_claims_fresh(bindings, waiting, blank, before, after, m);
        if let Some(i) = order::first_where(after.len(), test) {
            assert(test(i));
            if waiting[n - 1].id == a {
                assert(c.bindings.contains_key(b));
                assert(c.claimed.contains(c.bindings[b]));
            } else if waiting[n - 1].id == b {
                assert(c.bindings.contains_key(a));
                assert(c.claimed.contains(c.bindings[a]));
            } else {
                law_no_new_window_is_taken_twice(
                    bindings,
                    waiting,
                    blank,
                    before,
                    after,
                    a,
                    b,
                    m,
                );
            }
        } else {
            law_no_new_window_is_taken_twice(bindings, waiting, blank, before, after, a, b, m);
        }
    }
}

/// A registered window is bound to the window that was picked for it, and every other binding stays.
pub proof fn law_registered_windows_are_bound(
    bindings: Map<Uuid, isize>,
    seeds: Seq<(Uuid, isize)>,
    n: nat,
    id: Uuid,
)
    requires
        n <= seeds.len(),
        forall|i: int, j: int|
            0 <= i < j < seeds.len() ==> (#[trigger] seeds[i]).0 != (#[trigger] seeds[j]).0,
    ensures
        forall|i: int|
            0 <= i < n && (#[trigger] seeds[i]).0 == id ==> seeded(bindings, seeds, n).contains_key(
                id,
            ) && seeded(bindings, seeds, n)[id] == seeds[i].1,
        (forall|i: int| 0 <= i < n ==> (#[trigger] seeds[i]).0 != id) ==> seeded(
            bindings,
            seeds,
            n,
        ).contains_key(id) == bindings.contains_key(id) && (bindings.contains_key(id) ==> seeded(
            bindings,
            seeds,
            n,
        )[id] == bindings[id]),
    decreases n,
{
    if n > 0 {
        law_registered_windows_are_bound(bindings, seeds, (n - 1) as nat, id);
        assert forall|i: int| 0 <= i < n && (#[trigger] seeds[i]).0 == id implies seeded(
            bindings,
            seeds,
            n,
        ).contains_key(id) && seeded(bindings, seeds, n)[id] == seeds[i].1 by {
            if i < n - 1 {
                assert(seeds[i].0 != seeds[n - 1].0);
            }
        }
    }
}

/// A registration is refused exactly where something is wrong other than a window that is in two
/// sets.
pub proof fn law_shared_windows_do_not_stop_a_registration(
    errors: Seq<ConfigValidationError>,
    n: nat,
)
    requires
        n <= errors.len(),
    ensures
        fatal_texts(errors, n).len() == 0 <==> forall|i: int|
            0 <= i < n ==> #[trigger] errors[i] is DuplicateWindowMatcher,
        forall|i: int|
            0 <= i < n && !(#[trigger] errors[i] is DuplicateWindowMatcher) ==> fatal_texts(
                errors,
                n,
            ).contains(error_text(errors[i])),
    decreases n,
{
    let all = fatal_texts(errors, n);
    if n > 0 {
        law_shared_windows_do_not_stop_a_registration(errors, (n - 1) as nat);
        let before = fatal_texts(errors, (n - 1) as nat);
        assert forall|i: int|
            0 <= i < n && !(#[trigger] errors[i] is DuplicateWindowMatcher) implies all.contains(
            error_text(errors[i]),
        ) by {
            if i < n - 1 {
                let k = choose|k: int| 0 <= k < before.len() && before[k] == error_text(errors[i]);
                assert(all[k] == before[k]);
            } else {
                assert(all[before.len() as int] == error_text(errors[i]));
            }
        }
        if all.len() > 0 && forall|i: int| 0 <= i < n ==> #[trigger] errors[i] is DuplicateWindowMatcher {
            assert(errors[n - 1] is DuplicateWindowMatcher);
        }
    }
}

/// A set that is edited stays the same set: it keeps its id, its place in the order, its hotkey and
/// the time at which it was made, and two edits one after the other come to the last.
pub proof fn law_an_edited_set_stays_the_same_set(
    before: Workset,
    contents: Workset,
    more: Workset,
)
    ensures
        edited(before, contents).id == before.id,
        edited(before, contents).sort_order == before.sort_order,
        edited(before, contents).direct_hotkey == before.direct_hotkey,
        edited(before, contents).created_at == before.created_at,
        edited(before, contents).name == contents.name,
        edited(before, contents).windows == contents.windows,
        edited(before, contents).parking_policy == contents.parking_policy,
        edited(before, contents).repository_path == contents.repository_path,
        edited(before, contents).repository_kind == contents.repository_kind,
        edited(before, contents).color == contents.color,
        edited(before, contents).fullscreen_when_parked == contents.fullscreen_when_parked,
        edited(edited(before, contents), more) == edited(before, more),
        edited(edited(before, contents), before) == before,
{
}

} // verus!
