use std::collections::hash_map::DefaultHasher;
use std::hash::{Hash, Hasher};

use ire_core::ire::content::{sections_text, IreContent, SectionsError};
use ire_core::ire::reconcile::{
    reconcile, resource_payload, Change, EventSource, Pass, Reply, Request, WorkspaceEvent,
};
use ire_core::ire::snapshot::{is_resource, rel_resource_path, Gate, IreSnapshot};

/// A file of the pretended `.ire/`.
struct File {
    text: Option<String>,
    gate: Option<Gate>,
}

/// A pretended `.ire/`, with a clock that every write moves on.
struct Store {
    now: i128,
    ire: Option<File>,
    resources: Option<Vec<(Option<String>, File)>>,
    /// Files elsewhere, by their path from `.ire/`.
    others: Vec<(String, File)>,
    asked: Vec<String>,
}

fn hash(text: &str) -> String {
    let mut hasher = DefaultHasher::new();
    text.hash(&mut hasher);
    format!("{:016x}", hasher.finish())
}

fn parse(raw: &str) -> Option<IreContent> {
    let value = serde_json::from_str::<serde_json::Value>(raw).ok()?;
    Some(IreContent {
        notes: value["notes"].as_str()?.to_string(),
        focus: value["focus"].to_string(),
        ideas: value["ideas"].to_string(),
        experiments: value["experiments"].to_string(),
    })
}

impl Store {
    fn file(&mut self, text: &str) -> File {
        self.now += 1;
        File {
            text: Some(text.to_string()),
            gate: Some(Gate { mtime: Some(self.now), size: text.len() as u64 }),
        }
    }

    fn write_raw(&mut self, text: &str) {
        self.ire = Some(self.file(text));
    }

    fn write(&mut self, name: &str, text: &str) {
        let file = self.file(text);
        let resources = self.resources.as_mut().unwrap();
        resources.retain(|(n, _)| n.as_deref() != Some(name));
        resources.push((Some(name.to_string()), file));
    }

    fn write_other(&mut self, path: &str, text: &str) {
        let file = self.file(text);
        self.others.retain(|(p, _)| p != path);
        self.others.push((path.to_string(), file));
    }

    fn remove(&mut self, name: &str) {
        self.resources.as_mut().unwrap().retain(|(n, _)| n.as_deref() != Some(name));
    }

    fn resource(&self, path: &str) -> &File {
        if let Some((_, other)) = self.others.iter().find(|(p, _)| p == path) {
            return other;
        }
        let all = self.resources.as_ref().unwrap();
        &all.iter().find(|(n, _)| Some(path) == n.as_ref().map(|n| format!("resources/{n}")).as_deref()).unwrap().1
    }

    fn resource_mut(&mut self, path: &str) -> &mut File {
        let all = self.resources.as_mut().unwrap();
        &mut all.iter_mut().find(|(n, _)| Some(path) == n.as_ref().map(|n| format!("resources/{n}")).as_deref()).unwrap().1
    }

    fn answer(&mut self, request: Request) -> Option<Reply> {
        self.asked.push(format!("{request:?}"));
        Some(match request {
            Request::StatIre => Reply::Stat(self.ire.as_ref().and_then(|f| f.gate)),
            Request::ReadIre => Reply::Parsed(
                self.ire.as_ref().and_then(|f| f.text.as_deref()).and_then(parse),
            ),
            Request::ListResources => Reply::Listing(
                self.resources.as_ref().map(|all| all.iter().map(|(n, _)| n.clone()).collect()),
            ),
            Request::StatResource(path) => Reply::Stat(self.resource(&path).gate),
            Request::ReadResource(path) => Reply::Text(self.resource(&path).text.clone()),
            Request::Hash(text) => Reply::Hash(hash(&text)),
            Request::Done => return None,
        })
    }

    fn run(&mut self, mut pass: Pass) -> Pass {
        self.asked.clear();
        while let Some(reply) = self.answer(pass.request()) {
            pass = pass.resume(reply);
        }
        pass
    }

    fn primed(&mut self) -> IreSnapshot {
        let pass = self.run(IreSnapshot::default().scan());
        IreSnapshot::primed(pass)
    }

    fn scan(&mut self, snap: &mut IreSnapshot) -> Vec<Change> {
        let pass = self.run(std::mem::take(snap).scan());
        let (next, changes) = pass.finish();
        *snap = next;
        changes
    }
}

fn store() -> Store {
    Store { now: 0, ire: None, resources: Some(vec![]), others: vec![], asked: vec![] }
}

fn write_ire(store: &mut Store, notes: &str) {
    store.write_raw(&format!(
        "{{\"notes\":\"{notes}\",\"focus\":{{\"research_question\":\"\",\"this_week\":\"\"}},\"ideas\":[],\"experiments\":[]}}\n"
    ));
}

fn notes_of(changes: &[Change]) -> Vec<String> {
    changes
        .iter()
        .filter_map(|c| match c {
            Change::Ire(content) => Some(content.notes.clone()),
            _ => None,
        })
        .collect()
}

fn resource_paths(changes: &[Change]) -> Vec<String> {
    changes
        .iter()
        .filter_map(|c| match c {
            Change::Resource(r) => Some(r.path.clone()),
            _ => None,
        })
        .collect()
}

fn deleted_paths(changes: &[Change]) -> Vec<String> {
    changes
        .iter()
        .filter_map(|c| match c {
            Change::ResourceDeleted(p) => Some(p.clone()),
            _ => None,
        })
        .collect()
}

#[test]
fn priming_reports_nothing_and_absorbs_current_state() {
    let mut s = store();
    write_ire(&mut s, "seeded");
    s.write("a.md", "# A\n");

    let mut snap = s.primed();
    assert!(s.scan(&mut snap).is_empty());
}

#[test]
fn external_ire_edit_is_reported_once() {
    let mut s = store();
    write_ire(&mut s, "before");
    let mut snap = s.primed();

    write_ire(&mut s, "after an external edit");
    assert_eq!(notes_of(&s.scan(&mut snap)), ["after an external edit"]);
    // Second pass sees settled metadata and stays quiet.
    assert!(s.scan(&mut snap).is_empty());
}

#[test]
fn rewriting_identical_content_reports_nothing() {
    // What `git checkout` does: bump the mtime of files whose bytes did
    // not change.
    let mut s = store();
    write_ire(&mut s, "steady");
    s.write("a.md", "# A\n");
    let mut snap = s.primed();

    write_ire(&mut s, "steady");
    s.write("a.md", "# A\n");
    assert!(s.scan(&mut snap).is_empty());
    assert!(s.asked.iter().any(|r| r == "ReadIre"));
}

#[test]
fn unchanged_metadata_is_never_re_read() {
    let mut s = store();
    write_ire(&mut s, "aaaaaa");
    let pinned = s.ire.as_ref().unwrap().gate.unwrap();
    let mut snap = s.primed();

    // Same byte length, different content, mtime forced back: metadata is
    // the only thing that could have suppressed this.
    write_ire(&mut s, "bbbbbb");
    s.ire.as_mut().unwrap().gate = Some(pinned);
    assert!(s.scan(&mut snap).is_empty());
    assert_eq!(s.asked, ["StatIre", "ListResources", "Done"]);

    // Move the mtime and the same content is picked up.
    s.ire.as_mut().unwrap().gate =
        Some(Gate { mtime: pinned.mtime.map(|t| t + 1_000_000_000), size: pinned.size });
    assert_eq!(notes_of(&s.scan(&mut snap)), ["bbbbbb"]);
}

#[test]
fn experiment_churn_in_ire_json_stays_quiet() {
    let mut s = store();
    write_ire(&mut s, "steady");
    let mut snap = s.primed();

    // What the runner writes on every experiment status transition. The
    // sections reconcile emits are untouched, so nothing should fire.
    s.write_raw(
        "{\"notes\":\"steady\",\"focus\":{\"research_question\":\"\",\"this_week\":\"\"},\"ideas\":[],\
         \"experiments\":[{\"uuid\":\"e1\",\"name\":\"train\",\"command\":\"make\",\
         \"status\":\"running\",\"started_at\":\"2026-01-01T00:00:00Z\"}]}\n",
    );
    assert!(s.scan(&mut snap).is_empty());
}

#[test]
fn malformed_ire_json_reports_nothing_and_retries() {
    let mut s = store();
    write_ire(&mut s, "good");
    let mut snap = s.primed();

    s.write_raw("{ not json");
    assert!(s.scan(&mut snap).is_empty());
    // The bad file stays un-recorded, so the repair is still detected.
    write_ire(&mut s, "repaired");
    assert_eq!(notes_of(&s.scan(&mut snap)), ["repaired"]);
}

#[test]
fn missing_ire_json_reports_nothing() {
    let mut s = store();
    write_ire(&mut s, "good");
    let mut snap = s.primed();

    s.ire = None;
    assert!(s.scan(&mut snap).is_empty());
}

#[test]
fn added_and_deleted_resources_are_reported() {
    let mut s = store();
    s.write("a.md", "---\ntitle: \"A\"\n---\n");
    let mut snap = s.primed();

    s.write("b.md", "---\ntitle: \"B\"\n---\n");
    assert_eq!(resource_paths(&s.scan(&mut snap)), ["resources/b.md"]);

    s.remove("a.md");
    assert_eq!(deleted_paths(&s.scan(&mut snap)), ["resources/a.md"]);
    assert!(s.scan(&mut snap).is_empty());
}

#[test]
fn generated_index_and_dotfiles_are_ignored() {
    let mut s = store();
    let mut snap = s.primed();

    s.write("_index.md", "- regenerated\n");
    s.write(".hidden.md", "x\n");
    assert!(s.scan(&mut snap).is_empty());
    assert_eq!(s.asked, ["StatIre", "ListResources", "Done"]);
}

#[test]
fn cache_churn_is_outside_the_scan() {
    let mut s = store();
    let mut snap = s.primed();

    s.write_other("cache/experiments/abc/stdout.log", "a lot of output\n");
    assert!(s.scan(&mut snap).is_empty());
    assert_eq!(s.asked, ["StatIre", "ListResources", "Done"]);
}

#[test]
fn edited_resource_is_reported_with_its_text() {
    let mut s = store();
    s.write("a.md", "one");
    let mut snap = s.primed();
    s.write("a.md", "two");
    let changes = s.scan(&mut snap);
    assert_eq!(changes.len(), 1);
    assert!(matches!(&changes[0], Change::Resource(r) if r.path == "resources/a.md" && r.content == "two"));
}

#[test]
fn changes_come_in_order_and_deletions_last() {
    let mut s = store();
    s.write("old.md", "x");
    s.write("older.md", "x");
    let mut snap = s.primed();
    write_ire(&mut s, "n");
    s.write("z.md", "z");
    s.write("b.md", "b");
    s.remove("old.md");
    s.remove("older.md");
    let changes = s.scan(&mut snap);
    assert_eq!(changes.len(), 5);
    assert!(matches!(changes[0], Change::Ire(_)));
    assert!(matches!(&changes[1], Change::Resource(r) if r.path == "resources/z.md"));
    assert!(matches!(&changes[2], Change::Resource(r) if r.path == "resources/b.md"));
    let mut gone = deleted_paths(&changes);
    gone.sort();
    assert_eq!(gone, ["resources/old.md", "resources/older.md"]);
    assert_eq!(deleted_paths(&changes[3..]).len(), 2);
}

#[test]
fn repair_with_the_metadata_of_the_malformed_file_is_found() {
    let mut s = store();
    write_ire(&mut s, "good");
    let mut snap = s.primed();
    s.write_raw("{ not json");
    let bad = s.ire.as_ref().unwrap().gate;
    assert!(s.scan(&mut snap).is_empty());
    write_ire(&mut s, "repaired");
    s.ire.as_mut().unwrap().gate = bad;
    assert_eq!(notes_of(&s.scan(&mut snap)), ["repaired"]);
}

#[test]
fn unlistable_resources_are_not_gone() {
    let mut s = store();
    s.write("a.md", "a");
    let mut snap = s.primed();
    let kept = s.resources.take();
    assert!(s.scan(&mut snap).is_empty());
    s.resources = kept;
    assert!(s.scan(&mut snap).is_empty());
}

#[test]
fn resource_that_cannot_be_statted_is_no_change() {
    let mut s = store();
    s.write("a.md", "a");
    let mut snap = s.primed();
    let kept = s.resource("resources/a.md").gate;
    s.resource_mut("resources/a.md").gate = None;
    assert!(s.scan(&mut snap).is_empty());
    s.resource_mut("resources/a.md").gate = kept;
    assert!(s.scan(&mut snap).is_empty());
}

#[test]
fn unreadable_resource_is_retried() {
    let mut s = store();
    let mut snap = s.primed();
    s.write("a.md", "a");
    s.resource_mut("resources/a.md").text = None;
    assert!(s.scan(&mut snap).is_empty());
    s.resource_mut("resources/a.md").text = Some("a".to_string());
    assert_eq!(resource_paths(&s.scan(&mut snap)), ["resources/a.md"]);
}

#[test]
fn names_that_are_not_unicode_are_no_resources() {
    let mut s = store();
    let mut snap = s.primed();
    let file = s.file("x");
    s.resources.as_mut().unwrap().push((None, file));
    assert!(s.scan(&mut snap).is_empty());
}

#[test]
fn a_missing_mtime_is_compared_like_any_other() {
    let mut snap = IreSnapshot::default();
    assert!(!snap.matches_gate("ire.json", None, 3));
    assert!(!snap.record("ire.json", None, 3, "h".to_string()));
    assert!(snap.matches_gate("ire.json", None, 3));
    assert!(!snap.matches_gate("ire.json", Some(0), 3));
    assert!(!snap.matches_gate("ire.json", None, 4));
    assert!(!snap.matches_gate("resources/a.md", None, 3));
    assert!(snap.record("ire.json", Some(9), 5, "h".to_string()));
    assert!(snap.matches_gate("ire.json", Some(9), 5));
    assert!(!snap.record("ire.json", Some(9), 5, "other".to_string()));
}

#[test]
fn sweeping_forgets_unlisted_resources_only() {
    let mut snap = IreSnapshot::default();
    snap.record("ire.json", None, 1, "i".to_string());
    snap.record("resources/a.md", None, 1, "a".to_string());
    snap.record("resources/b.md", None, 1, "b".to_string());
    assert_eq!(snap.sweep(&vec!["resources/b.md".to_string()]), ["resources/a.md"]);
    assert!(snap.matches_gate("ire.json", None, 1));
    assert!(snap.matches_gate("resources/b.md", None, 1));
    assert!(!snap.matches_gate("resources/a.md", None, 1));
    assert!(snap.sweep(&vec!["resources/b.md".to_string()]).is_empty());
}

#[test]
fn a_reply_to_another_request_changes_nothing() {
    let pass = IreSnapshot::default().scan();
    assert!(matches!(pass.request(), Request::StatIre));
    let pass = pass.resume(Reply::Hash("h".to_string()));
    assert!(matches!(pass.request(), Request::StatIre));
    let pass = pass.resume(Reply::Listing(None));
    assert!(matches!(pass.request(), Request::StatIre));
}

#[test]
fn resources_go_by_their_names() {
    for name in ["a.md", "a.b.md", "ß.md", "-.md", "a_.md", "_notes.md", "_index2.md", "a_index.md", "__index.md"] {
        assert!(is_resource(name), "{name}");
    }
    for name in ["", ".md", "md", "a", "a.txt", "a.MD", "a.md~", "_index.md", ".hidden.md", "..md"] {
        assert!(!is_resource(name), "{name}");
    }
    assert_eq!(rel_resource_path("a.md"), "resources/a.md");
}

#[test]
fn a_leading_underscore_alone_hides_no_resource() {
    let mut s = store();
    let mut snap = s.primed();
    s.write("_notes.md", "one");
    assert_eq!(resource_paths(&s.scan(&mut snap)), ["resources/_notes.md"]);
    s.write("_notes.md", "two");
    assert_eq!(resource_paths(&s.scan(&mut snap)), ["resources/_notes.md"]);
    s.remove("_notes.md");
    assert_eq!(deleted_paths(&s.scan(&mut snap)), ["resources/_notes.md"]);
}

#[test]
fn names_are_judged_as_std_paths_judge_them() {
    for name in ["_index.md", "a.md", ".md", "a.", "a.md.", "x.y.md", "md", "a.mdx", "_a.md", ".a.md", "a b.md"] {
        let path = std::path::Path::new(name);
        let expected = path.extension().and_then(|e| e.to_str()) == Some("md")
            && path
                .file_name()
                .and_then(|n| n.to_str())
                .is_some_and(|n| n != "_index.md" && !n.starts_with('.'));
        assert_eq!(is_resource(name), expected, "{name}");
    }
}

fn content(notes: &str, focus: &str, ideas: &str) -> IreContent {
    IreContent {
        notes: notes.to_string(),
        focus: focus.to_string(),
        ideas: ideas.to_string(),
        experiments: "[]".to_string(),
    }
}

#[test]
fn sections_are_one_json_object() {
    let c = content("say \"hi\"", "{ \"this_week\": \"x\", \"research_question\": \"\" }", "[ 1 ]");
    assert_eq!(
        sections_text(&c).unwrap(),
        "{\"focus\":{\"research_question\":\"\",\"this_week\":\"x\"},\"ideas\":[1],\"notes\":\"say \\\"hi\\\"\"}"
    );
}

#[test]
fn sections_that_are_not_json_are_named() {
    assert_eq!(sections_text(&content("", "{", "[]")), Err(SectionsError::Focus));
    assert_eq!(sections_text(&content("", "{}", "")), Err(SectionsError::Ideas));
    assert_eq!(sections_text(&content("", "x", "x")), Err(SectionsError::Focus));
    assert_eq!(sections_text(&content("", "{}", "]")), Err(SectionsError::Ideas));
}

#[test]
fn sections_tell_notes_focus_and_ideas_apart() {
    let base = sections_text(&content("n", "{}", "[]")).unwrap();
    assert_ne!(base, sections_text(&content("m", "{}", "[]")).unwrap());
    assert_ne!(base, sections_text(&content("n", "{\"a\":1}", "[]")).unwrap());
    assert_ne!(base, sections_text(&content("n", "{}", "[{}]")).unwrap());
    // The same JSON written otherwise, and other experiments, are no difference.
    let mut same = content("n", " { } ", "[\n]");
    same.experiments = "[1]".to_string();
    assert_eq!(base, sections_text(&same).unwrap());
}

#[test]
fn notes_that_look_like_json_are_told_apart() {
    let texts: Vec<String> = ["", "\"", "\\", "\\\"", "\n", "\\n", "\u{1}", "\\u0001", "\",\"focus\":{},\"x\":\""]
        .iter()
        .map(|notes| sections_text(&content(notes, "{}", "[]")).unwrap())
        .collect();
    for (i, one) in texts.iter().enumerate() {
        for other in &texts[i + 1..] {
            assert_ne!(one, other);
        }
    }
}

#[test]
fn a_pass_hashes_the_sections_of_what_it_read() {
    let pass = IreSnapshot::default().scan();
    let pass = pass.resume(Reply::Stat(Some(Gate { mtime: Some(1), size: 1 })));
    let c = content("n", "{ }", "[ ]");
    let expected = sections_text(&c).unwrap();
    let pass = pass.resume(Reply::Parsed(Some(c)));
    assert!(matches!(pass.request(), Request::Hash(text) if text == expected));
}

#[test]
fn a_resource_payload_is_one_json_object() {
    let text = resource_payload(
        "resources/a.md",
        "On \"A\"",
        vec!["x".to_string(), "https://y/\\z".to_string()],
    );
    assert_eq!(
        text,
        "{\"path\":\"resources/a.md\",\"sources\":[\"x\",\"https://y/\\\\z\"],\"title\":\"On \\\"A\\\"\"}"
    );
    assert_eq!(
        resource_payload("p", "", vec![]),
        "{\"path\":\"p\",\"sources\":[],\"title\":\"\"}"
    );
    assert_eq!(
        resource_payload("p", "t", vec!["only".to_string()]),
        "{\"path\":\"p\",\"sources\":[\"only\"],\"title\":\"t\"}"
    );
}

#[test]
fn events_follow_the_changes() {
    let mut s = store();
    s.write("gone.md", "x");
    let snap = s.primed();
    write_ire(&mut s, "n");
    s.write("new.md", "text");
    s.remove("gone.md");
    let pass = s.run(snap.scan());
    let (_, events) = reconcile(pass);
    assert_eq!(events.len(), 3);
    assert!(matches!(&events[0], WorkspaceEvent::Sections { notes, focus, ideas }
        if notes == "n" && focus == "{\"research_question\":\"\",\"this_week\":\"\"}" && ideas == "[]"));
    assert!(matches!(&events[1], WorkspaceEvent::ResourceChanged { source: EventSource::Mutation, resource }
        if resource.path == "resources/new.md" && resource.content == "text"));
    assert!(matches!(&events[2], WorkspaceEvent::ResourceDeleted { path } if path == "resources/gone.md"));
}

#[test]
fn events_carry_no_experiments() {
    let mut s = store();
    let snap = s.primed();
    s.write_raw(
        "{\"notes\":\"n\",\"focus\":{},\"ideas\":[],\"experiments\":[{\"uuid\":\"secret-row\"}]}",
    );
    let (_, events) = reconcile(s.run(snap.scan()));
    assert_eq!(events.len(), 1);
    assert!(!format!("{events:?}").contains("secret-row"));
}

#[test]
fn a_section_that_is_not_json_counts_as_malformed() {
    let pass = IreSnapshot::default().scan();
    let pass = pass.resume(Reply::Stat(Some(Gate { mtime: Some(1), size: 1 })));
    assert!(matches!(pass.request(), Request::ReadIre));
    let parsed = Some(content("n", "not json", "[]"));
    let pass = pass.resume(Reply::Parsed(parsed)).resume(Reply::Listing(None));
    assert!(matches!(pass.request(), Request::Done));
    let (snap, changes) = pass.finish();
    assert!(changes.is_empty());
    assert!(!snap.matches_gate("ire.json", Some(1), 1));
}
