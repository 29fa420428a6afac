//! Registering sets, and finding all registered windows among the live ones.

use vstd::prelude::*;
use std::collections::{HashMap, HashSet};

use crate::application::monitor_resolution;
use crate::domain::monitor::MonitorInfo;
use crate::domain::placement;
use crate::domain::placement::{PixelRect, SavedPlacement, SavedShowState};
use crate::domain::workset::{
    ManagedWindow, ParkingPolicy, RepositoryKind, WindowMatcher, Workset,
};
use crate::ids;
use crate::ids::Uuid;
use crate::order;
use crate::text;
use crate::windowing::enumerate;
use crate::windowing::enumerate::TopLevelWindow;
use crate::windowing::matcher;
use crate::windowing::matcher::{MatchDecision, MatchView, WindowMatching};
use crate::winpath;

verus! {

broadcast use vstd::std_specs::hash::group_hash_axioms;

// ---------------------------------------------------------------------------
// Repositories
// ---------------------------------------------------------------------------

/// What a `.code-workspace` file held when it was looked at.
#[derive(Debug)]
pub enum WorkspaceFile {
    Unreadable,
    Malformed,
    /// The paths of the folders that it lists, as written.
    Folders(Vec<String>),
}

/// What was found on disk: directories that have a `.git` entry, and workspace files.
#[derive(Debug)]
pub struct DiskFacts {
    pub git_roots: Vec<String>,
    pub workspaces: Vec<(String, WorkspaceFile)>,
}

/// `dir` has a `.git` entry.
pub open spec fn has_git(roots: Seq<String>, dir: Seq<char>) -> bool {
    exists|i: int| 0 <= i < roots.len() && winpath::same_path((#[trigger] roots[i])@, dir)
}

/// The nearest of `start` and the directories above it that has a `.git` entry.
pub open spec fn git_root_of(roots: Seq<String>, start: Seq<char>) -> Option<Seq<char>>
    decreases start.len(),
{
    if has_git(roots, start) {
        Some(start)
    } else {
        match winpath::parent_of(start) {
            Some(p) => if p.len() < start.len() {
                git_root_of(roots, p)
            } else {
                None
            },
            None => None,
        }
    }
}

/// `start` and the directories above it, from the innermost to the outermost.
pub open spec fn ancestors(start: Seq<char>) -> Seq<Seq<char>>
    decreases start.len(),
{
    match winpath::parent_of(start) {
        Some(p) => if p.len() < start.len() {
            seq![start] + ancestors(p)
        } else {
            seq![start]
        },
        None => seq![start],
    }
}

fn is_git_root(roots: &Vec<String>, dir: &str) -> (r: bool)
    ensures
        r == has_git(roots@, dir@),
{
    let mut i: usize = 0;
    while i < roots.len()
        invariant
            i <= roots@.len(),
            forall|j: int| 0 <= j < i ==> !winpath::same_path((#[trigger] roots@[j])@, dir@),
        decreases roots@.len() - i,
    {
        if winpath::equal_paths(roots[i].as_str(), dir) {
            return true;
        }
        i += 1;
    }
    false
}

/// The directories in which a `.git` entry is looked for, from the innermost to the outermost.
pub fn git_root_candidates(start: &str) -> (r: Vec<String>)
    ensures
        text::texts(r@) == ancestors(start@),
{
    let mut out: Vec<String> = Vec::new();
    let mut dir = text::owned(start);
    assert(text::texts(out@) + ancestors(dir@) =~= ancestors(start@));
    loop
        invariant
            text::texts(out@) + ancestors(dir@) == ancestors(start@),
        decreases dir@.len(),
    {
        let next = winpath::parent(dir.as_str());
        proof {
            winpath::lemma_parent_shorter(dir@);
        }
        let ghost before = out@;
        let ghost here = dir@;
        match next {
            Some(p) => {
                out.push(dir);
                dir = p;
                proof {
                    assert(text::texts(out@) =~= text::texts(before).push(here));
                    assert(ancestors(here) == seq![here] + ancestors(dir@));
                    assert(text::texts(out@) + ancestors(dir@) =~= text::texts(before) + ancestors(
                        here,
                    ));
                }
            },
            None => {
                out.push(dir);
                assert(text::texts(out@) =~= text::texts(before) + seq![here]);
                return out;
            },
        }
    }
}

/// Searches `start` and the directories above it for a `.git` entry, and returns the first that
/// has one.
pub fn find_git_root(disk: &DiskFacts, start: &str) -> (r: Option<String>)
    ensures
        match r {
            Some(root) => git_root_of(disk.git_roots@, start@) == Some(root@),
            None => git_root_of(disk.git_roots@, start@) is None,
        },
{
    let mut dir = text::owned(start);
    loop
        invariant
            git_root_of(disk.git_roots@, start@) == git_root_of(disk.git_roots@, dir@),
        decreases dir@.len(),
    {
        if is_git_root(&disk.git_roots, dir.as_str()) {
            return Some(dir);
        }
        proof {
            winpath::lemma_parent_shorter(dir@);
        }
        match winpath::parent(dir.as_str()) {
            Some(p) => {
                dir = p;
            },
            None => {
                return None;
            },
        }
    }
}

/// The repository of a picked folder: the nearest git root, or the folder itself as a plain
/// directory.
pub fn resolve_repository(disk: &DiskFacts, picked_folder: &str) -> (r: (String, RepositoryKind))
    ensures
        match git_root_of(disk.git_roots@, picked_folder@) {
            Some(root) => r.0@ == root && r.1 == RepositoryKind::Git,
            None => r.0@ == picked_folder@ && r.1 == RepositoryKind::Directory,
        },
{
    match find_git_root(disk, picked_folder) {
        Some(root) => (root, RepositoryKind::Git),
        None => (text::owned(picked_folder), RepositoryKind::Directory),
    }
}

#[derive(Clone, Copy, Debug, PartialEq, Eq, Structural)]
pub enum WorkspaceFileError {
    ReadFailed,
    ParseFailed,
    NoFolders,
}

impl WorkspaceFileError {
    /// What the user is told.
    pub open spec fn says(self) -> Seq<char> {
        match self {
            WorkspaceFileError::ReadFailed => "ワークスペースファイルを読み込めません"@,
            WorkspaceFileError::ParseFailed => "ワークスペースファイルの形式が不正です（.code-workspaceのJSONとして解釈できません）"@,
            WorkspaceFileError::NoFolders => "ワークスペースファイルにフォルダーが1つも定義されていません"@,
        }
    }

    pub fn message(&self) -> (r: String)
        ensures
            r@ == self.says(),
    {
        match self {
            WorkspaceFileError::ReadFailed => text::owned("ワークスペースファイルを読み込めません"),
            WorkspaceFileError::ParseFailed => text::owned(
                "ワークスペースファイルの形式が不正です（.code-workspaceのJSONとして解釈できません）",
            ),
            WorkspaceFileError::NoFolders => text::owned(
                "ワークスペースファイルにフォルダーが1つも定義されていません",
            ),
        }
    }
}

/// The folder that a workspace file stands for: the first that it lists, a relative one taken
/// from the file's own directory.
pub open spec fn workspace_folder(path: Seq<char>, file: WorkspaceFile) -> Result<
    Seq<char>,
    WorkspaceFileError,
> {
    match file {
        WorkspaceFile::Unreadable => Err(WorkspaceFileError::ReadFailed),
        WorkspaceFile::Malformed => Err(WorkspaceFileError::ParseFailed),
        WorkspaceFile::Folders(folders) => if folders@.len() == 0 {
            Err(WorkspaceFileError::NoFolders)
        } else if winpath::absolute(folders@[0]@) {
            Ok(folders@[0]@)
        } else {
            match winpath::parent_of(path) {
                Some(p) => Ok(winpath::joined_path(p, folders@[0]@)),
                None => Ok(winpath::joined_path(seq!['.'], folders@[0]@)),
            }
        },
    }
}

/// Resolves a workspace file, given what it held, to its first folder.
pub fn resolve_workspace_file(workspace_path: &str, file: &WorkspaceFile) -> (r: Result<
    String,
    WorkspaceFileError,
>)
    ensures
        match r {
            Ok(folder) => workspace_folder(workspace_path@, *file) == Ok::<
                Seq<char>,
                WorkspaceFileError,
            >(folder@),
            Err(e) => workspace_folder(workspace_path@, *file) == Err::<
                Seq<char>,
                WorkspaceFileError,
            >(e),
        },
{
    match file {
        WorkspaceFile::Unreadable => Err(WorkspaceFileError::ReadFailed),
        WorkspaceFile::Malformed => Err(WorkspaceFileError::ParseFailed),
        WorkspaceFile::Folders(folders) => {
            if folders.len() == 0 {
                return Err(WorkspaceFileError::NoFolders);
            }
            let first = folders[0].as_str();
            if winpath::is_absolute(first) {
                Ok(text::owned(first))
            } else {
                match winpath::parent(workspace_path) {
                    Some(p) => Ok(winpath::join(p.as_str(), first)),
                    None => {
                        proof {
                            reveal_strlit(".");
                            assert("."@ =~= seq!['.']);
                        }
                        Ok(winpath::join(".", first))
                    },
                }
            }
        },
    }
}

/// What the disk facts say of a workspace file: the first record of it, unreadable without one.
pub open spec fn workspace_at(
    workspaces: Seq<(String, WorkspaceFile)>,
    path: Seq<char>,
) -> WorkspaceFile
    decreases workspaces.len(),
{
    if workspaces.len() == 0 {
        WorkspaceFile::Unreadable
    } else if winpath::same_path(workspaces[0].0@, path) {
        workspaces[0].1
    } else {
        workspace_at(workspaces.skip(1), path)
    }
}

/// The first folder of a workspace, where its file tells one.
pub open spec fn workspace_home(disk: DiskFacts, path: Seq<char>) -> Option<Seq<char>> {
    match workspace_folder(path, workspace_at(disk.workspaces@, path)) {
        Ok(folder) => Some(folder),
        Err(_) => None,
    }
}

/// The directory that a set is matched by: a workspace's first folder, or the path as it is.
pub open spec fn match_path(disk: DiskFacts, path: Seq<char>, kind: RepositoryKind) -> Seq<char> {
    if kind == RepositoryKind::Workspace {
        match workspace_home(disk, path) {
            Some(folder) => folder,
            None => path,
        }
    } else {
        path
    }
}

/// Looks up the first folder of a workspace.
pub fn find_workspace_home(disk: &DiskFacts, workspace_path: &str) -> (r: Option<String>)
    ensures
        text::opt_text(r) == workspace_home(*disk, workspace_path@),
{
    let mut i: usize = 0;
    assert(disk.workspaces@.skip(0) =~= disk.workspaces@);
    while i < disk.workspaces.len()
        invariant
            i <= disk.workspaces@.len(),
            workspace_at(disk.workspaces@, workspace_path@) == workspace_at(
                disk.workspaces@.skip(i as int),
                workspace_path@,
            ),
        decreases disk.workspaces@.len() - i,
    {
        if winpath::equal_paths(disk.workspaces[i].0.as_str(), workspace_path) {
            return match resolve_workspace_file(workspace_path, &disk.workspaces[i].1) {
                Ok(folder) => Some(folder),
                Err(_) => None,
            };
        }
        assert(disk.workspaces@.skip(i as int).skip(1) =~= disk.workspaces@.skip(i + 1));
        i += 1;
    }
    assert(workspace_at(disk.workspaces@, workspace_path@) is Unreadable);
    None
}

/// The directory that an agent's working directory is compared with. Where a workspace's file
/// tells no folder it is the path of that file.
pub fn resolve_match_path(
    disk: &DiskFacts,
    repository_path: &str,
    repository_kind: RepositoryKind,
) -> (r: String)
    ensures
        r@ == match_path(*disk, repository_path@, repository_kind),
{
    if repository_kind == RepositoryKind::Workspace {
        if let Some(folder) = find_workspace_home(disk, repository_path) {
            return folder;
        }
    }
    text::owned(repository_path)
}

/// Whether `candidate_path` is registered already.
pub fn is_duplicate_repository(worksets: &[Workset], candidate_path: &str) -> (r: bool)
    ensures
        r == exists|i: int|
            0 <= i < worksets@.len() && winpath::same_path(
                (#[trigger] worksets@[i]).repository_path@,
                candidate_path@,
            ),
{
    let mut i: usize = 0;
    while i < worksets.len()
        invariant
            i <= worksets@.len(),
            forall|j: int|
                0 <= j < i ==> !winpath::same_path(
                    (#[trigger] worksets@[j]).repository_path@,
                    candidate_path@,
                ),
        decreases worksets@.len() - i,
    {
        if winpath::equal_paths(worksets[i].repository_path.as_str(), candidate_path) {
            return true;
        }
        i += 1;
    }
    false
}

// ---------------------------------------------------------------------------
// Registering windows
// ---------------------------------------------------------------------------

/// The name that a window's process goes by: its executable's file name, or its window class.
pub open spec fn process_name_of(window: TopLevelWindow) -> Seq<char> {
    match window.executable_path {
        Some(path) => match winpath::file_name_of(path@) {
            Some(name) => name,
            None => window.window_class@,
        },
        None => window.window_class@,
    }
}

/// `m` describes `window` as it is now.
pub open spec fn describes(m: WindowMatcher, window: TopLevelWindow) -> bool {
    &&& m.executable_path@ == match window.executable_path {
        Some(path) => path@,
        None => Seq::<char>::empty(),
    }
    &&& m.process_name@ == process_name_of(window)
    &&& m.window_class@ == window.window_class@
    &&& m.registered_title@ == window.title@
    &&& m.title_contains is None
    &&& m.title_regex is None
}

/// Describes a live window as it is now.
pub fn build_matcher(window: &TopLevelWindow) -> (r: WindowMatcher)
    ensures
        describes(r, *window),
{
    let named = match &window.executable_path {
        Some(path) => winpath::file_name(path.as_str()),
        None => None,
    };
    let process_name = match named {
        Some(name) => name,
        None => window.window_class.clone(),
    };
    let executable_path = match &window.executable_path {
        Some(path) => path.clone(),
        None => String::new(),
    };
    WindowMatcher {
        executable_path,
        process_name,
        window_class: window.window_class.clone(),
        registered_title: window.title.clone(),
        title_contains: None,
        title_regex: None,
    }
}

/// A monitor called `id` has the point on it.
pub open spec fn point_on(monitors: Seq<MonitorInfo>, id: Seq<char>, x: int, y: int) -> bool {
    exists|i: int|
        0 <= i < monitors.len() && (#[trigger] monitors[i]).device_name@ == id
            && monitors[i].bounds_px.covers(x, y)
}

/// The first main monitor that has the point on it.
pub open spec fn main_index_at(
    monitors: Seq<MonitorInfo>,
    main_ids: Seq<String>,
    x: int,
    y: int,
) -> Option<int> {
    order::first_where(main_ids.len(), |i: int| point_on(monitors, main_ids[i]@, x, y))
}

fn is_point_on(monitors: &[MonitorInfo], id: &str, x: i64, y: i64) -> (r: bool)
    ensures
        r == point_on(monitors@, id@, x as int, y as int),
{
    let mut i: usize = 0;
    while i < monitors.len()
        invariant
            i <= monitors@.len(),
            forall|j: int|
                0 <= j < i ==> !((#[trigger] monitors@[j]).device_name@ == id@
                    && monitors@[j].bounds_px.covers(x as int, y as int)),
        decreases monitors@.len() - i,
    {
        if monitors[i].bounds_px.contains_wide(x, y) && text::same_text(
            monitors[i].device_name.as_str(),
            id,
        ) {
            return true;
        }
        i += 1;
    }
    false
}

fn main_index(monitors: &[MonitorInfo], main_ids: &[String], x: i64, y: i64) -> (r: Option<usize>)
    ensures
        match r {
            Some(i) => main_index_at(monitors@, main_ids@, x as int, y as int) == Some(i as int)
                && i < main_ids@.len() && point_on(
                monitors@,
                main_ids@[i as int]@,
                x as int,
                y as int,
            ),
            None => main_index_at(monitors@, main_ids@, x as int, y as int) is None,
        },
{
    let ghost pred = |i: int| point_on(monitors@, main_ids@[i]@, x as int, y as int);
    let mut i: usize = 0;
    while i < main_ids.len()
        invariant
            i <= main_ids@.len(),
            pred == (|i: int| point_on(monitors@, main_ids@[i]@, x as int, y as int)),
            forall|j: int| 0 <= j < i ==> !#[trigger] pred(j),
        decreases main_ids@.len() - i,
    {
        if is_point_on(monitors, main_ids[i].as_str(), x, y) {
            proof {
                order::lemma_first_where_some(main_ids@.len(), pred, i as int);
            }
            return Some(i);
        }
        i += 1;
    }
    proof {
        order::lemma_first_where_none(main_ids@.len(), pred);
    }
    None
}

/// Which main monitor, by its place among `main_monitor_ids`, has `point` on it.
pub fn resolve_main_monitor_index(
    point: (i32, i32),
    monitors: &[MonitorInfo],
    main_monitor_ids: &[String],
) -> (r: Option<usize>)
    ensures
        match r {
            Some(i) => main_index_at(
                monitors@,
                main_monitor_ids@,
                point.0 as int,
                point.1 as int,
            ) == Some(i as int),
            None => main_index_at(
                monitors@,
                main_monitor_ids@,
                point.0 as int,
                point.1 as int,
            ) is None,
        },
{
    main_index(monitors, main_monitor_ids, point.0 as i64, point.1 as i64)
}

#[derive(Clone, Copy, Debug, PartialEq, Eq, Structural)]
pub enum ManagedWindowBuildError {
    NotOnMainMonitor,
}

impl ManagedWindowBuildError {
    pub open spec fn says(self) -> Seq<char> {
        "window is not on any configured main monitor"@
    }

    pub fn message(&self) -> (r: String)
        ensures
            r@ == self.says(),
    {
        text::owned("window is not on any configured main monitor")
    }
}

/// Registers a live window at the place `rect` and in the state that the caller found it in. Its
/// id is a fresh random one.
pub fn build_managed_window(
    window: &TopLevelWindow,
    rect: PixelRect,
    show_state: SavedShowState,
    z_order: i32,
    monitors: &[MonitorInfo],
    main_monitor_ids: &[String],
) -> (r: Result<ManagedWindow, ManagedWindowBuildError>)
    ensures
        match main_index_at(
            monitors@,
            main_monitor_ids@,
            window.rect_px.mid_x(),
            window.rect_px.mid_y(),
        ) {
            Some(i) => {
                &&& r matches Ok(w)
                &&& describes(w.matcher, *window)
                &&& w.main_placement.monitor_id@ == main_monitor_ids@[i]@
                &&& w.main_placement.main_monitor_index == i
                &&& monitor_resolution::live_monitor(monitors@, main_monitor_ids@[i]@) matches Some(
                    m,
                )
                &&& w.main_placement.normalized_rect == placement::normalized(rect, m.work_area_px)
                &&& w.main_placement.physical_rect_at_capture == rect
                &&& w.main_placement.show_state == show_state
                &&& w.z_order == z_order
                &&& w.launch_spec is None
                &&& !w.minimize_when_parked
            },
            None => r == Err::<ManagedWindow, ManagedWindowBuildError>(
                ManagedWindowBuildError::NotOnMainMonitor,
            ),
        },
{
    let (cx, cy) = window.rect_px.center_wide();
    let index: usize = match main_index(monitors, main_monitor_ids, cx, cy) {
        Some(i) => i,
        None => {
            return Err(ManagedWindowBuildError::NotOnMainMonitor);
        },
    };
    let monitor_id = &main_monitor_ids[index];
    proof {
        monitor_resolution::lemma_live_monitor(monitors@, monitor_id@);
    }
    let monitor = match monitor_resolution::find_live_monitor_by_stable_id(
        monitors,
        monitor_id.as_str(),
    ) {
        Some(m) => m,
        None => {
            return Err(ManagedWindowBuildError::NotOnMainMonitor);
        },
    };
    Ok(
        ManagedWindow {
            id: ids::random_uuid(),
            matcher: build_matcher(window),
            main_placement: SavedPlacement {
                monitor_id: monitor_id.clone(),
                main_monitor_index: index,
                normalized_rect: placement::normalize(rect, monitor.work_area_px),
                physical_rect_at_capture: rect,
                show_state,
            },
            z_order,
            launch_spec: None,
            minimize_when_parked: false,
        },
    )
}

/// Puts a new set together from windows already built; `now` is when. Its id is a fresh random
/// one, and it is parked as room allows.
pub fn build_workset(
    name: String,
    color: String,
    repository_path: String,
    repository_kind: RepositoryKind,
    sort_order: i32,
    windows: Vec<ManagedWindow>,
    now: String,
) -> (r: Workset)
    ensures
        r.name == name,
        r.color == color,
        r.repository_path == repository_path,
        r.repository_kind == repository_kind,
        r.sort_order == sort_order,
        r.direct_hotkey is None,
        r.parking_policy == ParkingPolicy::Auto,
        !r.fullscreen_when_parked,
        r.windows == windows,
        r.created_at == now,
        r.updated_at == now,
{
    Workset {
        id: ids::random_uuid(),
        name,
        repository_path,
        repository_kind,
        color,
        sort_order,
        direct_hotkey: None,
        parking_policy: ParkingPolicy::Auto,
        fullscreen_when_parked: false,
        windows,
        created_at: now.clone(),
        updated_at: now,
    }
}

// ---------------------------------------------------------------------------
// Finding the windows again
// ---------------------------------------------------------------------------

/// The live window at a remembered handle is of the program and class that were registered.
pub open spec fn binding_holds(m: WindowMatcher, live: TopLevelWindow) -> bool {
    &&& live.executable_path matches Some(path)
    &&& winpath::same_path(path@, m.executable_path@)
    &&& live.window_class@ == m.window_class@
}

/// Whether a remembered handle can still be trusted. The title is left out of account: that it
/// changes is why handles are remembered.
fn binding_still_valid(m: &WindowMatcher, live: &TopLevelWindow) -> (r: bool)
    ensures
        r == binding_holds(*m, *live),
{
    match &live.executable_path {
        Some(path) => winpath::equal_paths(path.as_str(), m.executable_path.as_str())
            && live.window_class == m.window_class,
        None => false,
    }
}

/// The handle that is remembered for a window, where it is free and still trusted.
pub open spec fn bound_handle(
    w: ManagedWindow,
    live: Seq<TopLevelWindow>,
    bindings: Map<Uuid, isize>,
    taken: Set<isize>,
) -> Option<isize> {
    if bindings.contains_key(w.id) && !taken.contains(bindings[w.id]) && (enumerate::live_at(
        live,
        bindings[w.id],
    ) matches Some(l) && binding_holds(w.matcher, l)) {
        Some(bindings[w.id])
    } else {
        None
    }
}

/// What is decided for one window: its remembered handle, else what the rule finds.
pub open spec fn decision_for<M: WindowMatching>(
    matching: M,
    w: ManagedWindow,
    live: Seq<TopLevelWindow>,
    bindings: Map<Uuid, isize>,
    taken: Set<isize>,
) -> MatchView {
    match bound_handle(w, live, bindings, taken) {
        Some(hwnd) => MatchView::AutoRebind(hwnd),
        None => matching.best_match(w.matcher, live, taken),
    }
}

/// The handles taken and the decisions made once the windows were gone through in order.
pub open spec fn resolution<M: WindowMatching>(
    matching: M,
    windows: Seq<ManagedWindow>,
    live: Seq<TopLevelWindow>,
    bindings: Map<Uuid, isize>,
) -> (Set<isize>, Map<Uuid, MatchView>)
    decreases windows.len(),
{
    if windows.len() == 0 {
        (Set::empty(), Map::empty())
    } else {
        let (taken, decided) = resolution(matching, windows.drop_last(), live, bindings);
        let w = windows.last();
        let d = decision_for(matching, w, live, bindings, taken);
        (
            match matcher::settled(d) {
                Some(hwnd) => taken.insert(hwnd),
                None => taken,
            },
            decided.insert(w.id, d),
        )
    }
}

/// The windows of several sets, one set after the other.
pub open spec fn all_windows(worksets: Seq<Workset>) -> Seq<ManagedWindow>
    decreases worksets.len(),
{
    if worksets.len() == 0 {
        Seq::empty()
    } else {
        all_windows(worksets.drop_last()) + worksets.last().windows@
    }
}

/// The first set with the id, if any.
pub open spec fn set_with_id(worksets: Seq<Workset>, id: Uuid) -> Option<Workset>
    decreases worksets.len(),
{
    if worksets.len() == 0 {
        None
    } else if worksets[0].id == id {
        Some(worksets[0])
    } else {
        set_with_id(worksets.skip(1), id)
    }
}

/// The sets in the order in which they are gone through: the preferred one first.
pub open spec fn resolution_order(worksets: Seq<Workset>, preferred: Option<Uuid>) -> Seq<Workset> {
    match preferred {
        None => worksets,
        Some(id) => (match set_with_id(worksets, id) {
            Some(w) => seq![w],
            None => Seq::<Workset>::empty(),
        }) + worksets.filter(|w: Workset| w.id != id),
    }
}

pub open spec fn decisions_view(m: Map<Uuid, MatchDecision>) -> Map<Uuid, MatchView> {
    m.map_values(|d: MatchDecision| d@)
}

/// What all registered windows come to.
pub open spec fn all_decisions<M: WindowMatching>(
    matching: M,
    worksets: Seq<Workset>,
    live: Seq<TopLevelWindow>,
    bindings: Map<Uuid, isize>,
    preferred: Option<Uuid>,
) -> Map<Uuid, MatchView> {
    resolution(matching, all_windows(resolution_order(worksets, preferred)), live, bindings).1
}

/// The handle that a registered window was settled on.
pub open spec fn handle_of(decisions: Map<Uuid, MatchView>, id: Uuid) -> Option<isize> {
    if decisions.contains_key(id) {
        matcher::settled(decisions[id])
    } else {
        None
    }
}

/// Looks up the handle that a registered window was settled on.
pub fn settled_handle(decisions: &HashMap<Uuid, MatchDecision>, id: Uuid) -> (r: Option<isize>)
    ensures
        r == handle_of(decisions_view(decisions@), id),
{
    match decisions.get(&id) {
        Some(d) => match d {
            MatchDecision::AutoRebind { hwnd } => Some(*hwnd),
            _ => None,
        },
        None => None,
    }
}

/// Looks up the first set with the id.
pub fn find_set(worksets: &[Workset], id: Uuid) -> (r: Option<&Workset>)
    ensures
        match r {
            Some(w) => set_with_id(worksets@, id) == Some(*w) && w.id == id && worksets@.contains(
                *w,
            ),
            None => set_with_id(worksets@, id) is None,
        },
{
    let mut i: usize = 0;
    assert(worksets@.skip(0) =~= worksets@);
    while i < worksets.len()
        invariant
            i <= worksets@.len(),
            set_with_id(worksets@, id) == set_with_id(worksets@.skip(i as int), id),
        decreases worksets@.len() - i,
    {
        if worksets[i].id == id {
            return Some(&worksets[i]);
        }
        assert(worksets@.skip(i as int).skip(1) =~= worksets@.skip(i + 1));
        i += 1;
    }
    None
}

proof fn lemma_all_windows_push(worksets: Seq<Workset>, w: Workset)
    ensures
        all_windows(worksets.push(w)) == all_windows(worksets) + w.windows@,
{
    assert(worksets.push(w).drop_last() =~= worksets);
}

/// Goes on with the windows of one more set.
fn resolve_set<M: WindowMatching>(
    matching: &M,
    workset: &Workset,
    live_windows: &[TopLevelWindow],
    bindings: &HashMap<Uuid, isize>,
    taken: &mut HashSet<isize>,
    results: &mut HashMap<Uuid, MatchDecision>,
    Ghost(before): Ghost<Seq<ManagedWindow>>,
)
    requires
        old(taken)@ == resolution(*matching, before, live_windows@, bindings@).0,
        decisions_view(old(results)@) == resolution(*matching, before, live_windows@, bindings@).1,
    ensures
        final(taken)@ == resolution(
            *matching,
            before + workset.windows@,
            live_windows@,
            bindings@,
        ).0,
        decisions_view(final(results)@) == resolution(
            *matching,
            before + workset.windows@,
            live_windows@,
            bindings@,
        ).1,
{
    let mut i: usize = 0;
    assert(before + workset.windows@.take(0) =~= before);
    while i < workset.windows.len()
        invariant
            i <= workset.windows@.len(),
            taken@ == resolution(
                *matching,
                before + workset.windows@.take(i as int),
                live_windows@,
                bindings@,
            ).0,
            decisions_view(results@) == resolution(
                *matching,
                before + workset.windows@.take(i as int),
                live_windows@,
                bindings@,
            ).1,
        decreases workset.windows@.len() - i,
    {
        let w = &workset.windows[i];
        proof {
            let now = before + workset.windows@.take(i + 1);
            assert(now.drop_last() =~= before + workset.windows@.take(i as int));
            assert(now.last() == *w);
        }
        let mut bound: Option<isize> = None;
        if let Some(handle) = bindings.get(&w.id) {
            let hwnd: isize = *handle;
            if !taken.contains(&hwnd) {
                if let Some(live) = enumerate::find_live(live_windows, hwnd) {
                    if binding_still_valid(&w.matcher, live) {
                        bound = Some(hwnd);
                    }
                }
            }
        }
        assert(bound == bound_handle(*w, live_windows@, bindings@, taken@));
        let decision = match bound {
            Some(hwnd) => MatchDecision::AutoRebind { hwnd },
            None => matching.resolve_best_match(&w.matcher, live_windows, &*taken),
        };
        if let MatchDecision::AutoRebind { hwnd } = &decision {
            taken.insert(*hwnd);
        }
        proof {
            assert(decisions_view(results@.insert(w.id, decision)) =~= decisions_view(
                results@,
            ).insert(w.id, decision@));
        }
        results.insert(w.id, decision);
        i += 1;
    }
    assert(workset.windows@.take(workset.windows@.len() as int) =~= workset.windows@);
}

/// Finds every registered window among the live ones, in order; a live window that one
/// registration was settled on is not given to another.
pub fn resolve_all_matches<M: WindowMatching>(
    matching: &M,
    worksets: &[Workset],
    live_windows: &[TopLevelWindow],
) -> (r: HashMap<Uuid, MatchDecision>)
    ensures
        decisions_view(r@) == all_decisions(
            *matching,
            worksets@,
            live_windows@,
            Map::empty(),
            None,
        ),
{
    let none: HashMap<Uuid, isize> = HashMap::new();
    assert(none@ =~= Map::<Uuid, isize>::empty());
    resolve_all_matches_with_bindings(matching, worksets, live_windows, &none, None)
}

/// [`resolve_all_matches`], which first tries the handle that each window had before, and goes
/// through the preferred set first, so that a window which several sets share falls to it.
pub fn resolve_all_matches_with_bindings<M: WindowMatching>(
    matching: &M,
    worksets: &[Workset],
    live_windows: &[TopLevelWindow],
    bindings: &HashMap<Uuid, isize>,
    priority_workset_id: Option<Uuid>,
) -> (r: HashMap<Uuid, MatchDecision>)
    ensures
        decisions_view(r@) == all_decisions(
            *matching,
            worksets@,
            live_windows@,
            bindings@,
            priority_workset_id,
        ),
{
    let mut taken: HashSet<isize> = HashSet::new();
    let mut results: HashMap<Uuid, MatchDecision> = HashMap::new();
    let ghost mut done = Seq::<Workset>::empty();
    proof {
        assert(all_windows(done) =~= Seq::<ManagedWindow>::empty());
        assert(decisions_view(results@) =~= Map::<Uuid, MatchView>::empty());
        assert(taken@ =~= Set::<isize>::empty());
    }
    if let Some(id) = priority_workset_id {
        if let Some(w) = find_set(worksets, id) {
            proof {
                lemma_all_windows_push(done, *w);
            }
            resolve_set(
                matching,
                w,
                live_windows,
                bindings,
                &mut taken,
                &mut results,
                Ghost(all_windows(done)),
            );
            proof {
                done = done.push(*w);
            }
        }
    }
    let ghost first = done;
    let ghost keep = |w: Workset|
        match priority_workset_id {
            None => true,
            Some(id) => w.id != id,
        };
    let mut i: usize = 0;
    proof {
        reveal(Seq::filter);
        assert(first + worksets@.take(0).filter(keep) =~= first);
    }
    while i < worksets.len()
        invariant
            i <= worksets@.len(),
            keep == (|w: Workset|
                match priority_workset_id {
                    None => true,
                    Some(id) => w.id != id,
                }),
            done == first + worksets@.take(i as int).filter(keep),
            taken@ == resolution(*matching, all_windows(done), live_windows@, bindings@).0,
            decisions_view(results@) == resolution(
                *matching,
                all_windows(done),
                live_windows@,
                bindings@,
            ).1,
        decreases worksets@.len() - i,
    {
        proof {
            reveal(Seq::filter);
            assert(worksets@.take(i + 1).drop_last() =~= worksets@.take(i as int));
        }
        let skip = match priority_workset_id {
            None => false,
            Some(id) => worksets[i].id == id,
        };
        if !skip {
            proof {
                lemma_all_windows_push(done, worksets@[i as int]);
            }
            resolve_set(
                matching,
                &worksets[i],
                live_windows,
                bindings,
                &mut taken,
                &mut results,
                Ghost(all_windows(done)),
            );
            proof {
                let before = worksets@.take(i as int).filter(keep);
                done = done.push(worksets@[i as int]);
                assert(done =~= first + before.push(worksets@[i as int]));
            }
        }
        i += 1;
    }
    proof {
        assert(worksets@.take(worksets@.len() as int) =~= worksets@);
        lemma_resolution_order(worksets@, priority_workset_id, keep, first, done);
    }
    results
}

proof fn lemma_resolution_order(
    worksets: Seq<Workset>,
    preferred: Option<Uuid>,
    keep: spec_fn(Workset) -> bool,
    first: Seq<Workset>,
    done: Seq<Workset>,
)
    requires
        keep == (|w: Workset|
            match preferred {
                None => true,
                Some(id) => w.id != id,
            }),
        first == match preferred {
            None => Seq::<Workset>::empty(),
            Some(id) => match set_with_id(worksets, id) {
                Some(w) => Seq::<Workset>::empty().push(w),
                None => Seq::<Workset>::empty(),
            },
        },
        done == first + worksets.filter(keep),
    ensures
        done == resolution_order(worksets, preferred),
{
    match preferred {
        None => {
            lemma_filter_all(worksets, keep);
            assert(done =~= worksets);
        },
        Some(id) => {
            let other = |w: Workset| w.id != id;
            assert(keep =~= other);
            assert(done =~= resolution_order(worksets, preferred));
        },
    }
}

proof fn lemma_filter_all(s: Seq<Workset>, keep: spec_fn(Workset) -> bool)
    requires
        forall|w: Workset| #[trigger] keep(w),
    ensures
        s.filter(keep) == s,
    decreases s.len(),
{
    reveal(Seq::filter);
    if s.len() > 0 {
        lemma_filter_all(s.drop_last(), keep);
        assert(s =~= s.drop_last().push(s.last()));
    }
}

/// The handles that windows were settled on, to be remembered.
pub fn bindings_from_decisions(decisions: &HashMap<Uuid, MatchDecision>) -> (r: HashMap<
    Uuid,
    isize,
>)
    ensures
        forall|id: Uuid| #[trigger]
            r@.contains_key(id) <==> handle_of(decisions_view(decisions@), id) is Some,
        forall|id: Uuid| #[trigger]
            r@.contains_key(id) ==> handle_of(decisions_view(decisions@), id) == Some(r@[id]),
{
    let mut out: HashMap<Uuid, isize> = HashMap::new();
    for kv in it: decisions.iter()
        invariant
            forall|k: Uuid| #[trigger]
                decisions@.contains_key(k) ==> it.seq().contains((&k, &decisions@[k])),
            forall|i: int|
                #![trigger it.seq()[i]]
                0 <= i < it.seq().len() ==> decisions@.contains_key(*it.seq()[i].0)
                    && decisions@[*it.seq()[i].0] == *it.seq()[i].1,
            forall|i: int|
                #![trigger it.seq()[i]]
                0 <= i < it.index() && matcher::settled(it.seq()[i].1@) is Some
                    ==> out@.contains_key(*it.seq()[i].0),
            forall|id: Uuid| #[trigger]
                out@.contains_key(id) ==> handle_of(decisions_view(decisions@), id) == Some(
                    out@[id],
                ),
    {
        if let MatchDecision::AutoRebind { hwnd } = kv.1 {
            assert(decisions@[*kv.0] == *kv.1);
            out.insert(*kv.0, *hwnd);
        }
    }
    assert forall|id: Uuid| handle_of(decisions_view(decisions@), id) is Some implies #[trigger]
        out@.contains_key(id) by {
        assert(decisions@.contains_key(id));
    }
    out
}

// ---------------------------------------------------------------------------
// What holds of every resolution
// ---------------------------------------------------------------------------

pub open spec fn distinct_ids(windows: Seq<ManagedWindow>) -> bool {
    forall|i: int, j: int|
        0 <= i < j < windows.len() ==> (#[trigger] windows[i]).id != (#[trigger] windows[j]).id
}

/// No live window is given to two registrations.
pub proof fn law_no_window_is_given_twice<M: WindowMatching>(
    matching: M,
    windows: Seq<ManagedWindow>,
    live: Seq<TopLevelWindow>,
    bindings: Map<Uuid, isize>,
    a: Uuid,
    b: Uuid,
)
    requires
        distinct_ids(windows),
        a != b,
        handle_of(resolution(matching, windows, live, bindings).1, a) is Some,
        handle_of(resolution(matching, windows, live, bindings).1, b) is Some,
    ensures
        handle_of(resolution(matching, windows, live, bindings).1, a) != handle_of(
            resolution(matching, windows, live, bindings).1,
            b,
        ),
    decreases windows.len(),
{
    if windows.len() > 0 {
        let rest = windows.drop_last();
        let w = windows.last();
        assert(distinct_ids(rest)) by {
            assert forall|i: int, j: int| 0 <= i < j < rest.len() implies (#[trigger] rest[i]).id
                != (#[trigger] rest[j]).id by {
                assert(windows[i].id != windows[j].id);
            }
        }
        let (taken, decided) = resolution(matching, rest, live, bindings);
        lemma_settled_is_taken(matching, rest, live, bindings);
        matching.taken_stays_taken(w.matcher, live, taken);
        if a != w.id && b != w.id {
            law_no_window_is_given_twice(matching, rest, live, bindings, a, b);
        }
    }
}

proof fn lemma_settled_is_taken<M: WindowMatching>(
    matching: M,
    windows: Seq<ManagedWindow>,
    live: Seq<TopLevelWindow>,
    bindings: Map<Uuid, isize>,
)
    ensures
        forall|id: Uuid|
            (#[trigger] handle_of(resolution(matching, windows, live, bindings).1, id)) matches Some(
                hwnd,
            ) ==> resolution(matching, windows, live, bindings).0.contains(hwnd),
    decreases windows.len(),
{
    if windows.len() > 0 {
        lemma_settled_is_taken(matching, windows.drop_last(), live, bindings);
        let (taken, decided) = resolution(matching, windows.drop_last(), live, bindings);
        let w = windows.last();
        assert forall|id: Uuid|
            (#[trigger] handle_of(
                resolution(matching, windows, live, bindings).1,
                id,
            )) matches Some(hwnd) ==> resolution(matching, windows, live, bindings).0.contains(
                hwnd,
            ) by {
            if id != w.id {
                assert(handle_of(decided, id) == handle_of(
                    resolution(matching, windows, live, bindings).1,
                    id,
                ));
            }
        }
    }
}

/// Every window of every set is decided on.
pub proof fn law_every_window_is_decided<M: WindowMatching>(
    matching: M,
    windows: Seq<ManagedWindow>,
    live: Seq<TopLevelWindow>,
    bindings: Map<Uuid, isize>,
    i: int,
)
    requires
        0 <= i < windows.len(),
    ensures
        resolution(matching, windows, live, bindings).1.contains_key(windows[i].id),
    decreases windows.len(),
{
    if i < windows.len() - 1 {
        law_every_window_is_decided(matching, windows.drop_last(), live, bindings, i);
    }
}

/// Decisions stay as they are while further windows are gone through.
proof fn lemma_decision_stays<M: WindowMatching>(
    matching: M,
    windows: Seq<ManagedWindow>,
    live: Seq<TopLevelWindow>,
    bindings: Map<Uuid, isize>,
    n: int,
    k: int,
)
    requires
        0 <= k < n <= windows.len(),
        distinct_ids(windows),
    ensures
        resolution(matching, windows.take(n), live, bindings).1.contains_key(windows[k].id),
        resolution(matching, windows, live, bindings).1.contains_key(windows[k].id),
        resolution(matching, windows, live, bindings).1[windows[k].id] == resolution(
            matching,
            windows.take(n),
            live,
            bindings,
        ).1[windows[k].id],
    decreases windows.len() - n,
{
    law_every_window_is_decided(matching, windows, live, bindings, k);
    law_every_window_is_decided(matching, windows.take(n), live, bindings, k);
    if n < windows.len() {
        lemma_decision_stays(matching, windows, live, bindings, n + 1, k);
        assert(windows.take(n + 1).drop_last() =~= windows.take(n));
        assert(windows[k].id != windows[n].id);
    } else {
        assert(windows.take(n) =~= windows);
    }
}

/// Whatever is taken was given to one of the windows gone through.
proof fn lemma_taken_by_somebody<M: WindowMatching>(
    matching: M,
    windows: Seq<ManagedWindow>,
    live: Seq<TopLevelWindow>,
    bindings: Map<Uuid, isize>,
    hwnd: isize,
) -> (k: int)
    requires
        distinct_ids(windows),
        resolution(matching, windows, live, bindings).0.contains(hwnd),
    ensures
        0 <= k < windows.len(),
        handle_of(resolution(matching, windows, live, bindings).1, windows[k].id) == Some(hwnd),
    decreases windows.len(),
{
    let rest = windows.drop_last();
    let (taken, decided) = resolution(matching, rest, live, bindings);
    let last = windows.len() - 1;
    if taken.contains(hwnd) {
        assert(distinct_ids(rest)) by {
            assert forall|i: int, j: int| 0 <= i < j < rest.len() implies (#[trigger] rest[i]).id
                != (#[trigger] rest[j]).id by {
                assert(windows[i].id != windows[j].id);
            }
        }
        let k = lemma_taken_by_somebody(matching, rest, live, bindings, hwnd);
        assert(windows[k].id != windows[last].id);
        k
    } else {
        last
    }
}

proof fn lemma_windows_of_the_first(order: Seq<Workset>)
    requires
        order.len() > 0,
    ensures
        all_windows(order).len() >= order[0].windows@.len(),
        all_windows(order).take(order[0].windows@.len() as int) == order[0].windows@,
    decreases order.len(),
{
    let first = order[0].windows@;
    if order.len() == 1 {
        assert(order.drop_last() =~= Seq::<Workset>::empty());
        assert(all_windows(order.drop_last()) =~= Seq::<ManagedWindow>::empty());
        assert(all_windows(order) =~= first);
        assert(first.take(first.len() as int) =~= first);
    } else {
        lemma_windows_of_the_first(order.drop_last());
        let before = all_windows(order.drop_last());
        assert(all_windows(order).take(first.len() as int) =~= before.take(first.len() as int));
    }
}

/// The windows of the preferred set are decided on as though there were no other set. So each of
/// them keeps the handle that is remembered for it, whichever other set remembers the same one,
/// unless an earlier window of the preferred set itself has taken it.
pub proof fn law_preferred_set_comes_first<M: WindowMatching>(
    matching: M,
    worksets: Seq<Workset>,
    live: Seq<TopLevelWindow>,
    bindings: Map<Uuid, isize>,
    preferred: Workset,
    k: int,
)
    requires
        set_with_id(worksets, preferred.id) == Some(preferred),
        0 <= k < preferred.windows@.len(),
        distinct_ids(all_windows(resolution_order(worksets, Some(preferred.id)))),
    ensures
        ({
            let all = all_decisions(matching, worksets, live, bindings, Some(preferred.id));
            let w = preferred.windows@[k];
            let remembered = bound_handle(w, live, bindings, Set::empty());
            &&& all.contains_key(w.id)
            &&& all[w.id] == resolution(matching, preferred.windows@, live, bindings).1[w.id]
            &&& remembered is Some && (forall|j: int|
                0 <= j < k ==> handle_of(all, (#[trigger] preferred.windows@[j]).id) != remembered)
                ==> handle_of(all, w.id) == remembered
        }),
{
    let order = resolution_order(worksets, Some(preferred.id));
    let all = all_windows(order);
    let own = preferred.windows@;
    let w = own[k];
    let decided = all_decisions(matching, worksets, live, bindings, Some(preferred.id));
    assert(order[0] == preferred);
    lemma_windows_of_the_first(order);
    assert forall|j: int| 0 <= j < own.len() implies all[j] == #[trigger] own[j] by {
        assert(all.take(own.len() as int)[j] == all[j]);
    }
    lemma_decision_stays(matching, all, live, bindings, own.len() as int, k);
    lemma_decision_stays(matching, all, live, bindings, k + 1, k);
    let before = all.take(k);
    assert(all.take(k + 1).drop_last() =~= before);
    assert(all.take(k + 1).last() == w);
    if let Some(hwnd) = bound_handle(w, live, bindings, Set::empty()) {
        if resolution(matching, before, live, bindings).0.contains(hwnd) {
            assert(distinct_ids(before)) by {
                assert forall|i: int, j: int| 0 <= i < j < before.len() implies (
                #[trigger] before[i]).id != (#[trigger] before[j]).id by {
                    assert(all[i].id != all[j].id);
                }
            }
            let j = lemma_taken_by_somebody(matching, before, live, bindings, hwnd);
            lemma_decision_stays(matching, all, live, bindings, k, j);
            assert(before[j] == own[j]);
            assert(handle_of(decided, own[j].id) == Some(hwnd));
        }
    }
}

/// A window that is remembered is found again under its handle, whatever its title is now: as long
/// as the window at that handle is still of the same program and class, and no earlier registration
/// was settled on it. A handle that is not remembered, is gone, is of another program or class now,
/// or is taken, is not relied on: the rule decides alone, among the windows that are not taken.
pub proof fn law_remembered_window_is_found_again<M: WindowMatching>(
    matching: M,
    windows: Seq<ManagedWindow>,
    live: Seq<TopLevelWindow>,
    bindings: Map<Uuid, isize>,
    k: int,
)
    requires
        distinct_ids(windows),
        0 <= k < windows.len(),
    ensures
        ({
            let w = windows[k];
            let decided = resolution(matching, windows, live, bindings).1;
            let taken = resolution(matching, windows.take(k), live, bindings).0;
            let trusted = bindings.contains_key(w.id) && (enumerate::live_at(
                live,
                bindings[w.id],
            ) matches Some(l) && l.window_class@ == w.matcher.window_class@ && (
            l.executable_path matches Some(path) && winpath::same_path(
                path@,
                w.matcher.executable_path@,
            )));
            &&& decided.contains_key(w.id)
            &&& trusted && !taken.contains(bindings[w.id]) ==> handle_of(decided, w.id) == Some(
                bindings[w.id],
            )
            &&& !trusted || taken.contains(bindings[w.id]) ==> decided[w.id]
                == matching.best_match(w.matcher, live, taken)
            &&& forall|h: isize| #[trigger]
                taken.contains(h) <==> exists|j: int|
                    0 <= j < k && handle_of(decided, (#[trigger] windows[j]).id) == Some(h)
        }),
{
    let w = windows[k];
    let before = windows.take(k);
    let (taken, decided) = resolution(matching, before, live, bindings);
    let all = resolution(matching, windows, live, bindings).1;
    lemma_decision_stays(matching, windows, live, bindings, k + 1, k);
    assert(windows.take(k + 1).drop_last() =~= before);
    assert(windows.take(k + 1).last() == w);
    assert(distinct_ids(before)) by {
        assert forall|i: int, j: int| 0 <= i < j < before.len() implies (#[trigger] before[i]).id
            != (#[trigger] before[j]).id by {
            assert(windows[i].id != windows[j].id);
        }
    }
    lemma_settled_is_taken(matching, before, live, bindings);
    assert forall|h: isize| #[trigger] taken.contains(h) <==> exists|j: int|
        0 <= j < k && handle_of(all, (#[trigger] windows[j]).id) == Some(h) by {
        if taken.contains(h) {
            let j = lemma_taken_by_somebody(matching, before, live, bindings, h);
            lemma_decision_stays(matching, windows, live, bindings, k, j);
            assert(before[j] == windows[j]);
            assert(handle_of(all, windows[j].id) == Some(h));
        }
        if exists|j: int| 0 <= j < k && handle_of(all, (#[trigger] windows[j]).id) == Some(h) {
            let j = choose|j: int|
                0 <= j < k && handle_of(all, (#[trigger] windows[j]).id) == Some(h);
            lemma_decision_stays(matching, windows, live, bindings, k, j);
            assert(handle_of(decided, windows[j].id) == Some(h));
        }
    }
}

/// All windows of all sets are gone through, each set's in its order.
pub proof fn law_all_windows_are_those_of_the_sets(worksets: Seq<Workset>, i: int, j: int)
    requires
        0 <= i < worksets.len(),
        0 <= j < worksets[i].windows@.len(),
    ensures
        all_windows(worksets).contains(worksets[i].windows@[j]),
    decreases worksets.len(),
{
    let before = all_windows(worksets.drop_last());
    let all = all_windows(worksets);
    if i < worksets.len() - 1 {
        law_all_windows_are_those_of_the_sets(worksets.drop_last(), i, j);
        let w = worksets[i].windows@[j];
        let k = choose|k: int| 0 <= k < before.len() && before[k] == w;
        assert(all[k] == w);
    } else {
        assert(all[before.len() + j] == worksets[i].windows@[j]);
    }
}

/// No set is left out for the preferred one: every window of every set is decided on.
pub proof fn law_no_set_is_left_out<M: WindowMatching>(
    matching: M,
    worksets: Seq<Workset>,
    live: Seq<TopLevelWindow>,
    bindings: Map<Uuid, isize>,
    preferred: Option<Uuid>,
    i: int,
    j: int,
)
    requires
        0 <= i < worksets.len(),
        0 <= j < worksets[i].windows@.len(),
        forall|a: int, b: int|
            0 <= a < b < worksets.len() ==> (#[trigger] worksets[a]).id != (
            #[trigger] worksets[b]).id,
    ensures
        all_decisions(matching, worksets, live, bindings, preferred).contains_key(
            worksets[i].windows@[j].id,
        ),
{
    let order = resolution_order(worksets, preferred);
    let w = worksets[i];
    assert(exists|p: int| 0 <= p < order.len() && #[trigger] order[p] == w) by {
        match preferred {
            None => {
                assert(order[i] == w);
            },
            Some(id) => {
                let keep = |x: Workset| x.id != id;
                if w.id == id {
                    lemma_set_with_id(worksets, i);
                    assert(order[0] == w);
                } else {
                    let p = lemma_filter_keeps(worksets, keep, i);
                    let first = order.len() - worksets.filter(keep).len();
                    assert(order[first + p] == w);
                }
            },
        }
    }
    let p = choose|p: int| 0 <= p < order.len() && #[trigger] order[p] == w;
    law_all_windows_are_those_of_the_sets(order, p, j);
    let all = all_windows(order);
    let k = choose|k: int| 0 <= k < all.len() && all[k] == w.windows@[j];
    law_every_window_is_decided(matching, all, live, bindings, k);
}

proof fn lemma_set_with_id(worksets: Seq<Workset>, i: int)
    requires
        0 <= i < worksets.len(),
        forall|a: int, b: int|
            0 <= a < b < worksets.len() ==> (#[trigger] worksets[a]).id != (
            #[trigger] worksets[b]).id,
    ensures
        set_with_id(worksets, worksets[i].id) == Some(worksets[i]),
    decreases worksets.len(),
{
    if i > 0 {
        let rest = worksets.skip(1);
        assert(worksets[0].id != worksets[i].id);
        assert forall|a: int, b: int| 0 <= a < b < rest.len() implies (#[trigger] rest[a]).id != (
        #[trigger] rest[b]).id by {
            assert(worksets[a + 1].id != worksets[b + 1].id);
        }
        assert(rest[i - 1] == worksets[i]);
        lemma_set_with_id(rest, i - 1);
    }
}

proof fn lemma_filter_keeps(s: Seq<Workset>, keep: spec_fn(Workset) -> bool, i: int) -> (j: int)
    requires
        0 <= i < s.len(),
        keep(s[i]),
    ensures
        0 <= j < s.filter(keep).len(),
        s.filter(keep)[j] == s[i],
    decreases s.len(),
{
    reveal(Seq::filter);
    if i == s.len() - 1 {
        s.filter(keep).len() - 1
    } else {
        lemma_filter_keeps(s.drop_last(), keep, i)
    }
}

/// The root of the repository around a directory is the nearest directory, going up from it, that
/// has a `.git`; there is none only where no directory on the way up has one.
pub proof fn law_git_root_is_the_nearest(roots: Seq<String>, start: Seq<char>)
    ensures
        match git_root_of(roots, start) {
            Some(root) => exists|k: int|
                {
                    &&& 0 <= k < ancestors(start).len()
                    &&& #[trigger] ancestors(start)[k] == root
                    &&& has_git(roots, root)
                    &&& forall|j: int|
                        0 <= j < k ==> !has_git(roots, #[trigger] ancestors(start)[j])
                },
            None => forall|j: int|
                0 <= j < ancestors(start).len() ==> !has_git(roots, #[trigger] ancestors(start)[j]),
        },
    decreases start.len(),
{
    let up = ancestors(start);
    assert(up[0] == start);
    if !has_git(roots, start) {
        if let Some(p) = winpath::parent_of(start) {
            if p.len() < start.len() {
                law_git_root_is_the_nearest(roots, p);
                let above = ancestors(p);
                assert forall|j: int| 0 <= j < above.len() implies up[j + 1] == #[trigger] above[j] by {}
                match git_root_of(roots, p) {
                    Some(root) => {
                        let k = choose|k: int|
                            {
                                &&& 0 <= k < above.len()
                                &&& #[trigger] above[k] == root
                                &&& has_git(roots, root)
                                &&& forall|j: int|
                                    0 <= j < k ==> !has_git(roots, #[trigger] above[j])
                            };
                        assert(up[k + 1] == root);
                        assert forall|j: int| 0 <= j < k + 1 implies !has_git(
                            roots,
                            #[trigger] up[j],
                        ) by {
                            if j > 0 {
                                assert(up[j] == above[j - 1]);
                            }
                        }
                    },
                    None => {
                        assert forall|j: int| 0 <= j < up.len() implies !has_git(
                            roots,
                            #[trigger] up[j],
                        ) by {
                            if j > 0 {
                                assert(up[j] == above[j - 1]);
                            }
                        }
                    },
                }
            }
        }
    }
}

} // verus!
