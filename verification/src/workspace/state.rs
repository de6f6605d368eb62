//! The open workspace: where it lies, and what was last seen of its `.ire/`.

use vstd::prelude::*;
use std::path::PathBuf;
use crate::ire::reconcile::{emits, event_views, reconcile, started, Pass, WorkspaceEvent};
use crate::ire::snapshot::{Files, IreSnapshot};

verus! {

#[verifier::external_type_specification]
#[verifier::external_body]
pub struct ExPathBuf(PathBuf);

/// The final component of a path, where there is one and it is valid Unicode.
pub uninterp spec fn path_file_name(path: PathBuf) -> Option<Seq<char>>;

/// `Path::file_name`: the final component of the path, or `None` where the path
/// ends in none (a root, or `..`); also `None` where the component is not valid
/// Unicode and so is no `String`.
#[verifier::external_body]
fn file_name(path: &PathBuf) -> (name: Option<String>)
    ensures
        match name {
            Some(n) => path_file_name(*path) == Some(n@),
            None => path_file_name(*path) is None,
        },
{
    path.file_name().and_then(|n| n.to_str()).map(|n| n.to_string())
}

/// Where a workspace lies and what it is called.
#[derive(Debug)]
pub struct WorkspaceState {
    pub path: PathBuf,
    pub name: String,
    /// `~/.ire/workspaces/<id>/`: home for runtime artifacts (local.db, mcp.json,
    /// mcp.sock, .lock). Not exposed to the frontend.
    pub home_data_dir: PathBuf,
}

/// `PathBuf::clone` gives the same path.
pub assume_specification[ <PathBuf as Clone>::clone ](path: &PathBuf) -> (copy: PathBuf)
    ensures
        copy == *path,
;

impl Clone for WorkspaceState {
    /// The same state.
    fn clone(&self) -> (copy: Self)
        ensures
            copy == *self,
    {
        WorkspaceState {
            path: self.path.clone(),
            name: self.name.clone(),
            home_data_dir: self.home_data_dir.clone(),
        }
    }
}

/// The name of a workspace whose directory has the given name, if any.
pub open spec fn workspace_name(file_name: Option<Seq<char>>) -> Seq<char> {
    match file_name {
        Some(name) => name,
        None => "workspace"@,
    }
}

/// The name of a workspace whose directory has the given name, if any.
pub fn name_or_default(file_name: Option<String>) -> (name: String)
    ensures
        match file_name {
            Some(n) => name@ == workspace_name(Some(n@)),
            None => name@ == workspace_name(None),
        },
        match file_name {
            Some(n) => name@ == n@,
            None => name@ == "workspace"@,
        },
{
    match file_name {
        Some(name) => name,
        None => "workspace".to_string(),
    }
}

/// A workspace is called after its directory, and `workspace` where that has no name.
pub proof fn law_workspace_is_called_after_its_directory(name: Seq<char>)
    ensures
        workspace_name(Some(name)) == name,
        workspace_name(None) == "workspace"@,
{
}

impl WorkspaceState {
    /// The state of the workspace at `path`, called after its directory.
    pub fn from_path(path: PathBuf, home_data_dir: PathBuf) -> (state: Self)
        ensures
            state.path == path,
            state.home_data_dir == home_data_dir,
            state.name@ == workspace_name(path_file_name(path)),
            match path_file_name(path) {
                Some(n) => state.name@ == n,
                None => state.name@ == "workspace"@,
            },
    {
        let name = name_or_default(file_name(&path));
        WorkspaceState { path, name, home_data_dir }
    }
}

/// An open workspace. It holds its lock `L` for as long as it lives.
pub struct WorkspaceHandle<L> {
    pub state: WorkspaceState,
    /// Per-file metadata `.ire/` had at the last checkpoint reconcile. Lives
    /// here so it is created and dropped with the workspace it describes.
    pub ire_snapshot: IreSnapshot,
    /// Released when the handle is dropped.
    pub _lock: L,
}

impl<L> WorkspaceHandle<L> {
    /// Open a workspace. `priming` is a pass over its `.ire/`: the caller emits
    /// the hydrate burst right after, so the first checkpoint must not report the
    /// same state as a change.
    pub fn new(state: WorkspaceState, priming: Pass, lock: L) -> (handle: Self)
        ensures
            handle.state == state,
            handle.ire_snapshot@ == priming@.files,
            handle._lock == lock,
    {
        let ire_snapshot = IreSnapshot::primed(priming);
        WorkspaceHandle { state, ire_snapshot, _lock: lock }
    }
}

/// The workspace that is open, if any.
pub struct ActiveWorkspace<L>(pub Option<WorkspaceHandle<L>>);

impl<L> Default for ActiveWorkspace<L> {
    /// No workspace is open.
    fn default() -> (active: Self)
        ensures
            active.0 is None,
    {
        ActiveWorkspace(None)
    }
}

impl<L> ActiveWorkspace<L> {
    /// Begin to reconcile the open workspace with its `.ire/`. There is nothing
    /// to do when no workspace is open.
    ///
    /// The snapshot goes into the pass; [`ActiveWorkspace::finish_reconcile`]
    /// brings it back.
    pub fn begin_reconcile(&mut self) -> (pass: Option<Pass>)
        ensures
            match old(self).0 {
                Some(handle) => {
                    &&& pass matches Some(p) && p@ == started(handle.ire_snapshot@)
                    &&& final(self).0 matches Some(h) && h.state == handle.state && h._lock
                        == handle._lock && h.ire_snapshot@ == Files::empty()
                },
                None => pass is None && final(self).0 is None,
            },
    {
        let mut snapshot = IreSnapshot::default();
        match &mut self.0 {
            Some(handle) => {
                std::mem::swap(&mut snapshot, &mut handle.ire_snapshot);
                Some(snapshot.scan())
            },
            None => None,
        }
    }

    /// End a pass over the open workspace: keep what it saw for the next one, and
    /// return the events to emit.
    pub fn finish_reconcile(&mut self, pass: Pass) -> (events: Vec<WorkspaceEvent>)
        ensures
            match old(self).0 {
                Some(handle) => final(self).0 matches Some(h) && h.state == handle.state
                    && h._lock == handle._lock && h.ire_snapshot@ == pass@.files,
                None => final(self).0 is None,
            },
            emits(pass@, event_views(events@)),
            pass@.changes.len() == 0 && pass@.deleted == Set::<Seq<char>>::empty() ==> events@.len()
                == 0,
    {
        let (snapshot, events) = reconcile(pass);
        match &mut self.0 {
            Some(handle) => {
                handle.ire_snapshot = snapshot;
            },
            None => {},
        }
        events
    }
}

} // verus!
