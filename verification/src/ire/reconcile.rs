//! Checkpoint reconciliation of `.ire/` against the app's in-memory state.
//!
//! IRE does not watch the filesystem. It re-reads `.ire/` at points where its
//! own writes have already settled, and emits the same `workspace-event`s a
//! mutation would, so a direct file edit or a `git checkout` shows up in the
//! panels.
//!
//! Two gates keep a pass cheap. Per-file `(mtime, size)` from the previous pass
//! decides whether a file is read at all; the content hash of what was read
//! decides whether an event is emitted. The second gate matters for `git`
//! operations, which rewrite mtimes for every file they touch even when the
//! bytes are identical.
//!
//! Only `ire.json` and `resources/*.md` are scanned: the two things the frontend
//! mirrors in memory.
//!
//! A pass does no I/O itself. It is a [`Pass`], which says what it needs next
//! ([`Pass::request`]) and goes on when it gets the answer ([`Pass::resume`]).

use vstd::prelude::*;
use crate::ire::content::{sections_of, sections_text, told_apart, ContentView, IreContent};
use crate::ire::json::{
    insert_member, json_array, json_object, json_string, json_strings, new_object, no_members,
    object_text, string_value, strings_value,
};
use crate::ire::snapshot::{
    gate_matches, hash_matches, ire_path, is_resource, is_resource_name, meta_of,
    rel_resource_path, resource_path, texts, unlisted, Files, Gate, IreSnapshot,
};

verus! {

/// One externally-originated change found by a pass.
#[derive(Debug)]
pub enum Change {
    /// `ire.json` parsed and its content differs: notes/focus/ideas.
    Ire(IreContent),
    /// A `resources/<slug>.md` that is new or whose content differs.
    Resource(Resource),
    /// A `resources/<slug>.md` that is no longer on disk.
    ResourceDeleted(String),
}

/// A resource: its path from `.ire/` and its text.
#[derive(Debug)]
pub struct Resource {
    pub path: String,
    pub content: String,
}

/// The JSON text of what the frontend gets of a resource: an object with the members
/// `path`, `title` and `sources`.
pub open spec fn payload_of(path: Seq<char>, title: Seq<char>, sources: Seq<String>) -> Seq<char> {
    json_object(
        no_members().insert("path"@, json_string(path)).insert("title"@, json_string(title)).insert(
            "sources"@,
            json_array(json_strings(sources)),
        ),
    )
}

/// What the frontend gets of a resource, shaped like an entry of the resource list, as
/// JSON text.
pub fn resource_payload(path: &str, title: &str, sources: Vec<String>) -> (text: String)
    ensures
        text@ == payload_of(path@, title@, sources@),
{
    let mut payload = new_object();
    insert_member(&mut payload, "path", string_value(path));
    insert_member(&mut payload, "title", string_value(title));
    insert_member(&mut payload, "sources", strings_value(sources));
    object_text(payload)
}

/// What a [`Change`] stands for.
pub enum ChangeView {
    Ire(ContentView),
    Resource { path: Seq<char>, content: Seq<char> },
    ResourceDeleted(Seq<char>),
}

impl View for Change {
    type V = ChangeView;

    open spec fn view(&self) -> ChangeView {
        match self {
            Change::Ire(content) => ChangeView::Ire(content@),
            Change::Resource(r) => ChangeView::Resource { path: r.path@, content: r.content@ },
            Change::ResourceDeleted(path) => ChangeView::ResourceDeleted(path@),
        }
    }
}

/// What a list of changes stands for.
pub open spec fn change_views(changes: Seq<Change>) -> Seq<ChangeView> {
    changes.map_values(|c: Change| c@)
}

/// What a pass needs next. Paths are from `.ire/`.
#[derive(Debug)]
pub enum Request {
    /// `stat` `ire.json`. Answered by [`Reply::Stat`].
    StatIre,
    /// Read and parse `ire.json`. Answered by [`Reply::Parsed`].
    ReadIre,
    /// List `resources/`. Answered by [`Reply::Listing`].
    ListResources,
    /// `stat` a resource. Answered by [`Reply::Stat`].
    StatResource(String),
    /// Read a resource. Answered by [`Reply::Text`].
    ReadResource(String),
    /// Hash a text. Answered by [`Reply::Hash`].
    Hash(String),
    /// Nothing: the pass is over.
    Done,
}

/// What a [`Request`] stands for.
pub enum RequestView {
    StatIre,
    ReadIre,
    ListResources,
    StatResource(Seq<char>),
    ReadResource(Seq<char>),
    Hash(Seq<char>),
    Done,
}

impl View for Request {
    type V = RequestView;

    open spec fn view(&self) -> RequestView {
        match self {
            Request::StatIre => RequestView::StatIre,
            Request::ReadIre => RequestView::ReadIre,
            Request::ListResources => RequestView::ListResources,
            Request::StatResource(path) => RequestView::StatResource(path@),
            Request::ReadResource(path) => RequestView::ReadResource(path@),
            Request::Hash(text) => RequestView::Hash(text@),
            Request::Done => RequestView::Done,
        }
    }
}

/// The answer to a [`Request`].
#[derive(Debug)]
pub enum Reply {
    /// The modification time and size of a file, or `None` when it can't be
    /// stat'd.
    Stat(Option<Gate>),
    /// What `ire.json` holds, or `None` when it did not parse.
    Parsed(Option<IreContent>),
    /// The names of the files in `resources/`, each `None` where it is not valid
    /// Unicode; or `None` when the directory can't be listed.
    Listing(Option<Vec<Option<String>>>),
    /// The text of a resource, or `None` when it can't be read.
    Text(Option<String>),
    /// The hash of a text.
    Hash(String),
}

/// What a [`Reply`] stands for.
pub enum ReplyView {
    Stat(Option<Gate>),
    Parsed(Option<ContentView>),
    Listing(Option<Seq<Option<Seq<char>>>>),
    Text(Option<Seq<char>>),
    Hash(Seq<char>),
}

/// What an optional string stands for.
pub open spec fn opt_text(s: Option<String>) -> Option<Seq<char>> {
    match s {
        Some(s) => Some(s@),
        None => None,
    }
}

/// What a list of file names stands for.
pub open spec fn name_views(names: Seq<Option<String>>) -> Seq<Option<Seq<char>>> {
    names.map_values(|n: Option<String>| opt_text(n))
}

impl View for Reply {
    type V = ReplyView;

    open spec fn view(&self) -> ReplyView {
        match self {
            Reply::Stat(gate) => ReplyView::Stat(*gate),
            Reply::Parsed(None) => ReplyView::Parsed(None),
            Reply::Parsed(Some(content)) => ReplyView::Parsed(Some(content@)),
            Reply::Listing(None) => ReplyView::Listing(None),
            Reply::Listing(Some(names)) => ReplyView::Listing(Some(name_views(names@))),
            Reply::Text(text) => ReplyView::Text(opt_text(*text)),
            Reply::Hash(hash) => ReplyView::Hash(hash@),
        }
    }
}

/// Where a pass stands.
enum Phase {
    StatIre,
    ReadIre(Gate),
    /// With the text of the content's sections.
    HashIre(Gate, IreContent, String),
    List,
    StatResource,
    ReadResource(Gate),
    HashResource(Gate, String),
    Done,
}

/// What the phase of a [`Pass`] stands for. In the phases on a resource, that
/// resource is the first of those still to be looked at.
pub enum PhaseView {
    StatIre,
    ReadIre(Gate),
    HashIre(Gate, ContentView),
    List,
    StatResource,
    ReadResource(Gate),
    HashResource(Gate, Seq<char>),
    Done,
}

/// A reconcile pass under way.
pub struct Pass {
    state: PassState,
}

/// What a [`Pass`] holds.
struct PassState {
    snapshot: IreSnapshot,
    phase: Phase,
    listed: Vec<String>,
    next: usize,
    changes: Vec<Change>,
    deleted: Vec<String>,
}

/// What a [`Pass`] stands for.
pub struct PassView {
    /// What is known of each file.
    pub files: Files,
    /// What the pass waits for.
    pub phase: PhaseView,
    /// The resources listed, in that order.
    pub listed: Seq<Seq<char>>,
    /// How many of them are done.
    pub next: nat,
    /// New and changed files found so far, in the order found.
    pub changes: Seq<ChangeView>,
    /// Resources found to be gone.
    pub deleted: Set<Seq<char>>,
}

/// The paths of the resources among the names of a listing.
pub open spec fn resource_paths(names: Seq<Option<Seq<char>>>) -> Seq<Seq<char>>
    decreases names.len(),
{
    if names.len() == 0 {
        Seq::empty()
    } else {
        let before = resource_paths(names.drop_last());
        match names.last() {
            Some(name) => if is_resource_name(name) {
                before.push(resource_path(name))
            } else {
                before
            },
            None => before,
        }
    }
}

/// A pass that has not begun to look at the disk.
pub open spec fn started(files: Files) -> PassView {
    PassView {
        files,
        phase: PhaseView::StatIre,
        listed: Seq::empty(),
        next: 0,
        changes: Seq::empty(),
        deleted: Set::empty(),
    }
}

impl PassView {
    /// What the pass needs next.
    pub open spec fn request(self) -> RequestView {
        match self.phase {
            PhaseView::StatIre => RequestView::StatIre,
            PhaseView::ReadIre(_) => RequestView::ReadIre,
            PhaseView::HashIre(_, content) => RequestView::Hash(sections_of(content)->Ok_0),
            PhaseView::List => RequestView::ListResources,
            PhaseView::StatResource => RequestView::StatResource(self.listed[self.next as int]),
            PhaseView::ReadResource(_) => RequestView::ReadResource(self.listed[self.next as int]),
            PhaseView::HashResource(_, text) => RequestView::Hash(text),
            PhaseView::Done => RequestView::Done,
        }
    }

    /// The sections to be hashed are JSON, and in the phases on a resource there is
    /// one.
    pub open spec fn wf(self) -> bool {
        match self.phase {
            PhaseView::HashIre(_, content) => sections_of(content) is Ok,
            PhaseView::StatResource
            | PhaseView::ReadResource(_)
            | PhaseView::HashResource(_, _) => self.next < self.listed.len(),
            _ => true,
        }
    }

    /// Turn to `resources/`.
    pub open spec fn to_resources(self) -> PassView {
        PassView { phase: PhaseView::List, ..self }
    }

    /// Turn to the resource numbered `next`; past the last, sweep the resources
    /// that are no longer listed, and end.
    pub open spec fn to_resource(self, next: nat) -> PassView {
        if next < self.listed.len() {
            PassView { phase: PhaseView::StatResource, next, ..self }
        } else {
            let gone = unlisted(self.files, self.listed);
            PassView {
                files: self.files.remove_keys(gone),
                phase: PhaseView::Done,
                next,
                deleted: gone,
                ..self
            }
        }
    }

    /// Record a file that was read; where its hash is not the one already known,
    /// that is a change.
    pub open spec fn recorded(
        self,
        path: Seq<char>,
        gate: Gate,
        hash: Seq<char>,
        change: ChangeView,
    ) -> PassView {
        PassView {
            files: self.files.insert(path, meta_of(gate, hash)),
            changes: if hash_matches(self.files, path, hash) {
                self.changes
            } else {
                self.changes.push(change)
            },
            ..self
        }
    }

    /// The pass after a reply. One that does not answer the request leaves the
    /// pass as it was. A content with a section that is not JSON counts as one that
    /// did not parse.
    pub open spec fn after(self, reply: ReplyView) -> PassView {
        match (self.phase, reply) {
            (PhaseView::StatIre, ReplyView::Stat(gate)) => match gate {
                Some(g) if !gate_matches(self.files, ire_path(), g) => PassView {
                    phase: PhaseView::ReadIre(g),
                    ..self
                },
                _ => self.to_resources(),
            },
            (PhaseView::ReadIre(g), ReplyView::Parsed(content)) => match content {
                Some(c) if sections_of(c) is Ok => PassView {
                    phase: PhaseView::HashIre(g, c),
                    ..self
                },
                _ => self.to_resources(),
            },
            (PhaseView::HashIre(g, c), ReplyView::Hash(hash)) => self.recorded(
                ire_path(),
                g,
                hash,
                ChangeView::Ire(c),
            ).to_resources(),
            (PhaseView::List, ReplyView::Listing(names)) => match names {
                Some(names) => PassView { listed: resource_paths(names), ..self }.to_resource(0),
                None => PassView { phase: PhaseView::Done, ..self },
            },
            (PhaseView::StatResource, ReplyView::Stat(gate)) => match gate {
                Some(g) if !gate_matches(self.files, self.listed[self.next as int], g) => PassView {
                    phase: PhaseView::ReadResource(g),
                    ..self
                },
                _ => self.to_resource(self.next + 1),
            },
            (PhaseView::ReadResource(g), ReplyView::Text(text)) => match text {
                Some(t) => PassView { phase: PhaseView::HashResource(g, t), ..self },
                None => self.to_resource(self.next + 1),
            },
            (PhaseView::HashResource(g, t), ReplyView::Hash(hash)) => self.recorded(
                self.listed[self.next as int],
                g,
                hash,
                ChangeView::Resource { path: self.listed[self.next as int], content: t },
            ).to_resource(self.next + 1),
            _ => self,
        }
    }
}

/// The paths of the resources among the names of a listing.
fn resources_listed(names: &Vec<Option<String>>) -> (paths: Vec<String>)
    ensures
        texts(paths@) == resource_paths(name_views(names@)),
{
    let ghost views = name_views(names@);
    let mut paths: Vec<String> = Vec::new();
    let mut i: usize = 0;
    assert(texts(paths@) =~= resource_paths(views.take(0)));
    while i < names.len()
        invariant
            i <= names@.len(),
            views == name_views(names@),
            texts(paths@) == resource_paths(views.take(i as int)),
        decreases names.len() - i,
    {
        let ghost before = paths@;
        assert(views.take(i + 1).drop_last() =~= views.take(i as int));
        if let Some(name) = &names[i] {
            if is_resource(name.as_str()) {
                let path = rel_resource_path(name.as_str());
                paths.push(path);
                assert(texts(paths@) =~= texts(before).push(path@));
            }
        }
        i = i + 1;
    }
    assert(views.take(views.len() as int) =~= views);
    paths
}

impl View for PassState {
    type V = PassView;

    closed spec fn view(&self) -> PassView {
        PassView {
            files: self.snapshot@,
            phase: match self.phase {
                Phase::StatIre => PhaseView::StatIre,
                Phase::ReadIre(g) => PhaseView::ReadIre(g),
                Phase::HashIre(g, c, _) => PhaseView::HashIre(g, c@),
                Phase::List => PhaseView::List,
                Phase::StatResource => PhaseView::StatResource,
                Phase::ReadResource(g) => PhaseView::ReadResource(g),
                Phase::HashResource(g, t) => PhaseView::HashResource(g, t@),
                Phase::Done => PhaseView::Done,
            },
            listed: texts(self.listed@),
            next: self.next as nat,
            changes: change_views(self.changes@),
            deleted: texts(self.deleted@).to_set(),
        }
    }
}

impl View for Pass {
    type V = PassView;

    closed spec fn view(&self) -> PassView {
        self.state@
    }
}

impl PassState {
    /// No resource is deleted twice, the sections to be hashed are those of the
    /// content read, and in the phases on a resource there is one.
    spec fn wf(&self) -> bool {
        &&& texts(self.deleted@).no_duplicates()
        &&& self@.wf()
        &&& self.phase matches Phase::HashIre(_, content, sections) ==> sections@ == sections_of(
            content@,
        )->Ok_0 && told_apart(content@)
    }

    /// Store what was read of a file and note the change, unless the content is
    /// the one already reported.
    fn record(&mut self, path: &str, gate: Gate, hash: String, change: Change)
        requires
            old(self).wf(),
        ensures
            final(self).wf(),
            final(self)@ == old(self)@.recorded(path@, gate, hash@, change@),
            final(self).next == old(self).next,
            final(self).listed == old(self).listed,
    {
        let same = self.snapshot.record(path, gate.mtime, gate.size, hash);
        if !same {
            let ghost before = self.changes@;
            self.changes.push(change);
            assert(change_views(self.changes@) =~= change_views(before).push(change@));
        }
    }

    /// Turn to the resource numbered `next`, or sweep and end.
    fn go_to_resource(self, next: usize) -> (pass: PassState)
        requires
            self.wf(),
        ensures
            pass.wf(),
            pass@ == self@.to_resource(next as nat),
    {
        let mut pass = self;
        pass.next = next;
        if next < pass.listed.len() {
            pass.phase = Phase::StatResource;
        } else {
            pass.deleted = pass.snapshot.sweep(&pass.listed);
            pass.phase = Phase::Done;
        }
        pass
    }

    /// Turn to the resource after the present one, or sweep and end.
    fn go_to_next(self) -> (pass: PassState)
        requires
            self.wf(),
            self@.next < self@.listed.len(),
        ensures
            pass.wf(),
            pass@ == self@.to_resource(self@.next + 1),
    {
        let total: usize = self.listed.len();
        assert(self.next < total);
        let next: usize = self.next + 1;
        self.go_to_resource(next)
    }

    /// Go on with the answer to the last request.
    fn resume(self, reply: Reply) -> (pass: PassState)
        requires
            self.wf(),
        ensures
            pass.wf(),
            pass@ == self@.after(reply@),
    {
        let mut pass = self;
        match reply {
            Reply::Stat(gate) => match pass.phase {
                Phase::StatIre => {
                    pass.phase = Phase::List;
                    if let Some(g) = gate {
                        if !pass.snapshot.matches_gate("ire.json", g.mtime, g.size) {
                            pass.phase = Phase::ReadIre(g);
                        }
                    }
                    pass
                },
                Phase::StatResource => {
                    if let Some(g) = gate {
                        if !pass.snapshot.matches_gate(
                            pass.listed[pass.next].as_str(),
                            g.mtime,
                            g.size,
                        ) {
                            pass.phase = Phase::ReadResource(g);
                            return pass;
                        }
                    }
                    pass.go_to_next()
                },
                _ => pass,
            },
            Reply::Parsed(content) => match pass.phase {
                Phase::ReadIre(gate) => {
                    pass.phase = Phase::List;
                    if let Some(content) = content {
                        if let Ok(sections) = sections_text(&content) {
                            pass.phase = Phase::HashIre(gate, content, sections);
                        }
                    }
                    pass
                },
                _ => pass,
            },
            Reply::Listing(names) => match pass.phase {
                Phase::List => match names {
                    Some(names) => {
                        pass.listed = resources_listed(&names);
                        pass.go_to_resource(0)
                    },
                    None => {
                        pass.phase = Phase::Done;
                        pass
                    },
                },
                _ => pass,
            },
            Reply::Text(text) => match pass.phase {
                Phase::ReadResource(gate) => match text {
                    Some(text) => {
                        pass.phase = Phase::HashResource(gate, text);
                        pass
                    },
                    None => pass.go_to_next(),
                },
                _ => pass,
            },
            Reply::Hash(hash) => pass.hashed(hash),
        }
    }

    /// Go on with the hash of the text read.
    fn hashed(self, hash: String) -> (pass: PassState)
        requires
            self.wf(),
        ensures
            pass.wf(),
            pass@ == self@.after(ReplyView::Hash(hash@)),
    {
        let mut pass = self;
        let phase = pass.phase;
        pass.phase = Phase::List;
        match phase {
            Phase::HashIre(gate, content, _) => {
                pass.record("ire.json", gate, hash, Change::Ire(content));
                pass
            },
            Phase::HashResource(gate, content) => {
                let path = pass.listed[pass.next].clone();
                let change = Change::Resource(Resource { path: path.clone(), content });
                pass.record(path.as_str(), gate, hash, change);
                pass.go_to_next()
            },
            other => {
                pass.phase = other;
                pass
            },
        }
    }
}

/// The changes that a pass reports: what is new or changed in the order found,
/// then the resources that are gone, each once, in no particular order.
pub open spec fn reports(pass: PassView, changes: Seq<ChangeView>) -> bool {
    exists|gone: Seq<Seq<char>>| #[trigger] reports_with(pass, changes, gone)
}

/// Whether a pass reports these changes, with the deletions in this order.
pub open spec fn reports_with(
    pass: PassView,
    changes: Seq<ChangeView>,
    gone: Seq<Seq<char>>,
) -> bool {
    &&& gone.no_duplicates()
    &&& gone.to_set() == pass.deleted
    &&& changes == pass.changes + gone.map_values(|p: Seq<char>| ChangeView::ResourceDeleted(p))
}

impl Pass {
    /// What holds of every pass is what holds of its state.
    #[verifier::type_invariant]
    spec fn wf(self) -> bool {
        self.state.wf()
    }

    /// What the pass needs next.
    pub fn request(&self) -> (request: Request)
        ensures
            self@.wf(),
            request@ == self@.request(),
    {
        proof {
            use_type_invariant(self);
        }
        let state = &self.state;
        match &state.phase {
            Phase::StatIre => Request::StatIre,
            Phase::ReadIre(_) => Request::ReadIre,
            Phase::HashIre(_, _, sections) => Request::Hash(sections.clone()),
            Phase::List => Request::ListResources,
            Phase::StatResource => Request::StatResource(state.listed[state.next].clone()),
            Phase::ReadResource(_) => Request::ReadResource(state.listed[state.next].clone()),
            Phase::HashResource(_, text) => Request::Hash(text.clone()),
            Phase::Done => Request::Done,
        }
    }

    /// Go on with the answer to the last request. Where the sections of `ire.json`
    /// are to be hashed next, only contents with the same notes, focus and ideas
    /// would have the same text hashed.
    pub fn resume(self, reply: Reply) -> (pass: Pass)
        ensures
            pass@.wf(),
            pass@ == self@.after(reply@),
            pass@.phase matches PhaseView::HashIre(_, content) ==> told_apart(content),
    {
        proof {
            use_type_invariant(&self);
        }
        Pass { state: self.state.resume(reply) }
    }

    /// End the pass: the snapshot for the next one, and the changes found.
    pub fn finish(self) -> (outcome: (IreSnapshot, Vec<Change>))
        ensures
            outcome.0@ == self@.files,
            reports(self@, change_views(outcome.1@)),
            self@.deleted == Set::<Seq<char>>::empty() ==> change_views(outcome.1@)
                == self@.changes,
    {
        proof {
            use_type_invariant(&self);
        }
        let state = self.state;
        let mut changes = state.changes;
        let deleted = state.deleted;
        let ghost gone = texts(deleted@);
        let ghost found = change_views(changes@);
        let ghost deletions = gone.map_values(|p: Seq<char>| ChangeView::ResourceDeleted(p));
        let mut i: usize = 0;
        assert(change_views(changes@) =~= found + deletions.take(0));
        while i < deleted.len()
            invariant
                i <= deleted@.len(),
                gone == texts(deleted@),
                deletions == gone.map_values(|p: Seq<char>| ChangeView::ResourceDeleted(p)),
                change_views(changes@) == found + deletions.take(i as int),
            decreases deleted.len() - i,
        {
            let ghost before = changes@;
            let change = Change::ResourceDeleted(deleted[i].clone());
            changes.push(change);
            i = i + 1;
            assert(change_views(changes@) =~= change_views(before).push(change@));
            assert(deletions.take(i as int) =~= deletions.take(i - 1).push(deletions[i - 1]));
            assert(change_views(changes@) =~= found + deletions.take(i as int));
        }
        assert(deletions.take(deletions.len() as int) =~= deletions);
        assert(reports_with(self@, change_views(changes@), gone));
        proof {
            if gone.len() > 0 {
                assert(gone.to_set().contains(gone[0]));
            } else {
                assert(change_views(changes@) =~= found);
            }
        }
        (state.snapshot, changes)
    }
}

impl IreSnapshot {
    /// Begin a pass that reports what actually changed since the previous one.
    pub fn scan(self) -> (pass: Pass)
        ensures
            pass@.wf(),
            pass@ == started(self@),
    {
        let state = PassState {
            snapshot: self,
            phase: Phase::StatIre,
            listed: Vec::new(),
            next: 0,
            changes: Vec::new(),
            deleted: Vec::new(),
        };
        assert(state@.listed =~= Seq::empty());
        assert(state@.changes =~= Seq::empty());
        assert(state@.deleted =~= Set::empty());
        Pass { state }
    }

    /// Record the current state of `.ire/` without reporting it: what a pass has
    /// seen, with its changes dropped. Used at workspace open, where the hydrate
    /// burst has already sent everything.
    pub fn primed(pass: Pass) -> (snapshot: Self)
        ensures
            snapshot@ == pass@.files,
    {
        let (snapshot, _) = pass.finish();
        snapshot
    }
}

/// Where an event comes from.
#[derive(Debug, Clone, Copy, PartialEq, Eq, Structural)]
pub enum EventSource {
    /// As from a mutation of the workspace.
    Mutation,
}

/// An event for the frontend.
#[derive(Debug)]
pub enum WorkspaceEvent {
    /// The notes, focus and ideas sections.
    Sections { notes: String, focus: String, ideas: String },
    /// A resource that is new or changed.
    ResourceChanged { source: EventSource, resource: Resource },
    /// A resource that is gone, by its path.
    ResourceDeleted { path: String },
}

/// What a [`WorkspaceEvent`] stands for.
pub enum EventView {
    Sections { notes: Seq<char>, focus: Seq<char>, ideas: Seq<char> },
    ResourceChanged { source: EventSource, path: Seq<char>, content: Seq<char> },
    ResourceDeleted { path: Seq<char> },
}

impl View for WorkspaceEvent {
    type V = EventView;

    open spec fn view(&self) -> EventView {
        match self {
            WorkspaceEvent::Sections { notes, focus, ideas } => EventView::Sections {
                notes: notes@,
                focus: focus@,
                ideas: ideas@,
            },
            WorkspaceEvent::ResourceChanged { source, resource } => EventView::ResourceChanged {
                source: *source,
                path: resource.path@,
                content: resource.content@,
            },
            WorkspaceEvent::ResourceDeleted { path } => EventView::ResourceDeleted { path: path@ },
        }
    }
}

/// What a list of events stands for.
pub open spec fn event_views(events: Seq<WorkspaceEvent>) -> Seq<EventView> {
    events.map_values(|e: WorkspaceEvent| e@)
}

/// The event that tells of a change.
pub open spec fn event_of(change: ChangeView) -> EventView {
    match change {
        ChangeView::Ire(content) => EventView::Sections {
            notes: content.notes,
            focus: content.focus,
            ideas: content.ideas,
        },
        ChangeView::Resource { path, content } => EventView::ResourceChanged {
            source: EventSource::Mutation,
            path,
            content,
        },
        ChangeView::ResourceDeleted(path) => EventView::ResourceDeleted { path },
    }
}

/// The event that tells of a change.
///
/// Experiments are read from `ire.json` but never emitted here: their rows carry
/// live tab linkage owned by the experiment runner, and re-emitting the
/// git-tracked copy would drop it.
fn event_for(change: Change) -> (event: WorkspaceEvent)
    ensures
        event@ == event_of(change@),
{
    match change {
        Change::Ire(content) => WorkspaceEvent::Sections {
            notes: content.notes,
            focus: content.focus,
            ideas: content.ideas,
        },
        Change::Resource(resource) => WorkspaceEvent::ResourceChanged {
            source: EventSource::Mutation,
            resource,
        },
        Change::ResourceDeleted(path) => WorkspaceEvent::ResourceDeleted { path },
    }
}

/// The events that a pass emits: one for each change that it reports, in that
/// order.
pub open spec fn emits(pass: PassView, events: Seq<EventView>) -> bool {
    exists|changes: Seq<ChangeView>| #[trigger]
        reports(pass, changes) && events == changes.map_values(|c: ChangeView| event_of(c))
}

/// End a pass: the snapshot for the next one, and the events to emit, one for
/// each change, in the order of the changes.
pub fn reconcile(pass: Pass) -> (outcome: (IreSnapshot, Vec<WorkspaceEvent>))
    ensures
        outcome.0@ == pass@.files,
        emits(pass@, event_views(outcome.1@)),
        pass@.changes.len() == 0 && pass@.deleted == Set::<Seq<char>>::empty()
            ==> outcome.1@.len() == 0,
{
    let (snapshot, changes) = pass.finish();
    let ghost views = change_views(changes@);
    let ghost wanted = views.map_values(|c: ChangeView| event_of(c));
    let mut events: Vec<WorkspaceEvent> = Vec::new();
    assert(event_views(events@) =~= wanted.take(0));
    for change in it: changes
        invariant
            views == change_views(it.seq()),
            wanted == views.map_values(|c: ChangeView| event_of(c)),
            event_views(events@) == wanted.take(it.index() as int),
    {
        let ghost before = events@;
        let ghost k = it.index() as int;
        assert(views[k] == change@);
        let event = event_for(change);
        events.push(event);
        assert(event_views(events@) =~= event_views(before).push(event@));
        assert(wanted.take(k + 1) =~= wanted.take(k).push(wanted[k]));
    }
    assert(wanted.take(wanted.len() as int) =~= wanted);
    (snapshot, events)
}

} // verus!
