use std::path::PathBuf;

use ire_core::ire::reconcile::{Reply, WorkspaceEvent};
use ire_core::ire::snapshot::{Gate, IreSnapshot};
use ire_core::workspace::state::{name_or_default, ActiveWorkspace, WorkspaceHandle, WorkspaceState};

fn state(path: &str) -> WorkspaceState {
    WorkspaceState::from_path(PathBuf::from(path), PathBuf::from("/home/u/.ire/workspaces/p-1"))
}

#[test]
fn a_workspace_is_called_after_its_directory() {
    let s = state("/home/u/projects/lr-study");
    assert_eq!(s.name, "lr-study");
    assert_eq!(s.path, PathBuf::from("/home/u/projects/lr-study"));
    assert_eq!(s.home_data_dir, PathBuf::from("/home/u/.ire/workspaces/p-1"));
    assert_eq!(state("/home/u/projects/lr-study/").name, "lr-study");
    assert_eq!(state("relative").name, "relative");
}

#[test]
fn a_path_without_a_name_is_called_workspace() {
    assert_eq!(state("/").name, "workspace");
    assert_eq!(state("..").name, "workspace");
    assert_eq!(state("a/..").name, "workspace");
    assert_eq!(state("").name, "workspace");
    assert_eq!(name_or_default(None), "workspace");
    assert_eq!(name_or_default(Some("x".to_string())), "x");
}

#[test]
fn a_clone_is_the_same_state() {
    let s = state("/home/u/p");
    let t = s.clone();
    assert_eq!((t.path, t.name, t.home_data_dir), (s.path, s.name, s.home_data_dir));
}

#[test]
fn no_open_workspace_means_nothing_to_reconcile() {
    let mut active: ActiveWorkspace<u32> = ActiveWorkspace::default();
    assert!(active.0.is_none());
    assert!(active.begin_reconcile().is_none());
}

/// Answers for a `.ire/` that holds one resource, `a.md`.
fn pass_over(snapshot: IreSnapshot, mtime: i128, hash: &str) -> ire_core::ire::reconcile::Pass {
    let pass = snapshot.scan().resume(Reply::Stat(None));
    let pass = pass.resume(Reply::Listing(Some(vec![Some("a.md".to_string())])));
    let pass = pass.resume(Reply::Stat(Some(Gate { mtime: Some(mtime), size: 4 })));
    let pass = pass.resume(Reply::Text(Some("# A\n".to_string())));
    pass.resume(Reply::Hash(hash.to_string()))
}

#[test]
fn an_opened_workspace_keeps_its_snapshot_between_checkpoints() {
    let priming = pass_over(IreSnapshot::default(), 1, "h1");
    let handle = WorkspaceHandle::new(state("/home/u/p"), priming, 7u32);
    assert!(handle.ire_snapshot.matches_gate("resources/a.md", Some(1), 4));
    let mut active = ActiveWorkspace(Some(handle));

    // The same state is no news.
    let pass = active.begin_reconcile().unwrap().resume(Reply::Stat(None));
    let pass = pass.resume(Reply::Listing(Some(vec![Some("a.md".to_string())])));
    let pass = pass.resume(Reply::Stat(Some(Gate { mtime: Some(1), size: 4 })));
    assert!(active.finish_reconcile(pass).is_empty());

    // Then the file goes.
    let pass = active.begin_reconcile().unwrap().resume(Reply::Stat(None));
    let pass = pass.resume(Reply::Listing(Some(vec![])));
    let events = active.finish_reconcile(pass);
    assert_eq!(events.len(), 1);
    assert!(matches!(&events[0], WorkspaceEvent::ResourceDeleted { path } if path == "resources/a.md"));

    let handle = active.0.unwrap();
    assert_eq!(handle.state.name, "p");
    assert_eq!(handle._lock, 7);
    assert!(!handle.ire_snapshot.matches_gate("resources/a.md", Some(1), 4));
}
