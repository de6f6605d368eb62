//! What holds of whole reconcile passes: what a pass over a disk reports and
//! remembers, and when it stays quiet.

use vstd::prelude::*;
use crate::ire::content::{sections_of, told_apart, ContentView, IreContent, SectionsError};
use crate::ire::json::{json_array, json_compact, json_object, json_string, json_strings, Members};
use crate::ire::reconcile::{
    change_views, emits, event_of, event_views, name_views, payload_of, reports, reports_with,
    resource_paths, started, Change, ChangeView, EventSource, EventView, PassView, PhaseView, Reply,
    ReplyView, Request, RequestView, WorkspaceEvent,
};
use crate::ire::snapshot::{
    ire_path, is_resource_name, lemma_ire_path_is_no_resource, lemma_resource_path, resource_path,
    texts, unlisted, FileMeta, Files, Gate, MetaView,
};
use crate::text::{law_prefix, law_suffix};

verus! {

/// Whether a file is known with this very modification time and size.
pub open spec fn unmoved(files: Files, path: Seq<char>, gate: Gate) -> bool {
    &&& files.contains_key(path)
    &&& files[path].mtime == gate.mtime
    &&& files[path].size == gate.size
}

/// Whether a file is known with this very content hash.
pub open spec fn known_as(files: Files, path: Seq<char>, hash: Seq<char>) -> bool {
    &&& files.contains_key(path)
    &&& files[path].hash == hash
}

/// What is known of a file with this modification time, size and content hash.
pub open spec fn metadata(gate: Gate, hash: Seq<char>) -> MetaView {
    MetaView { mtime: gate.mtime, size: gate.size, hash }
}

/// Whether a path starts with `resources/`.
pub open spec fn lies_in_resources(path: Seq<char>) -> bool {
    &&& path.len() >= "resources/"@.len()
    &&& path.take("resources/"@.len() as int) == "resources/"@
}

/// The known files in `resources/` that are not listed.
pub open spec fn gone_from(files: Files, listed: Seq<Seq<char>>) -> Set<Seq<char>> {
    files.dom().filter(|p: Seq<char>| lies_in_resources(p) && !listed.contains(p))
}

/// What is swept are the known files in `resources/` that are not listed.
pub proof fn law_swept_are_known_and_unlisted(files: Files, listed: Seq<Seq<char>>)
    ensures
        unlisted(files, listed) == gone_from(files, listed),
{
    assert(unlisted(files, listed) =~= gone_from(files, listed));
}

/// A `.ire/` directory that does not change while a pass looks at it, and the
/// hash function in use.
pub struct Disk {
    /// What a `stat` of `ire.json` gives.
    pub ire_stat: Option<Gate>,
    /// What `ire.json` parses to.
    pub ire: Option<ContentView>,
    /// The names in `resources/`.
    pub names: Option<Seq<Option<Seq<char>>>>,
    /// What a `stat` of a resource gives.
    pub stat: spec_fn(Seq<char>) -> Option<Gate>,
    /// What reading a resource gives.
    pub read: spec_fn(Seq<char>) -> Option<Seq<char>>,
    /// The hash of a text.
    pub hash: spec_fn(Seq<char>) -> Seq<char>,
}

impl Disk {
    /// The resources on the disk, in the order listed.
    pub open spec fn listed(self) -> Seq<Seq<char>> {
        match self.names {
            Some(names) => resource_paths(names),
            None => Seq::empty(),
        }
    }

    /// The text of the sections in `ire.json`, where it parses and they are JSON.
    pub open spec fn sections(self) -> Option<Seq<char>> {
        match self.ire {
            Some(content) => match (json_compact(content.focus), json_compact(content.ideas)) {
                (Some(focus), Some(ideas)) => Some(
                    json_object(
                        map![
                            "notes"@ => json_string(content.notes),
                            "focus"@ => focus,
                            "ideas"@ => ideas,
                        ],
                    ),
                ),
                _ => None,
            },
            None => None,
        }
    }

    /// No resource is listed twice.
    pub open spec fn wf(self) -> bool {
        self.listed().no_duplicates()
    }

    /// The answer to a request.
    pub open spec fn reply(self, request: RequestView) -> ReplyView {
        match request {
            RequestView::StatIre => ReplyView::Stat(self.ire_stat),
            RequestView::ReadIre => ReplyView::Parsed(self.ire),
            RequestView::ListResources => ReplyView::Listing(self.names),
            RequestView::StatResource(path) => ReplyView::Stat((self.stat)(path)),
            RequestView::ReadResource(path) => ReplyView::Text((self.read)(path)),
            RequestView::Hash(text) => ReplyView::Hash((self.hash)(text)),
            RequestView::Done => ReplyView::Stat(None),
        }
    }
}

/// How far from its end a pass is, as to the phase.
pub open spec fn stage(phase: PhaseView) -> int {
    match phase {
        PhaseView::StatIre => 5,
        PhaseView::ReadIre(_) => 4,
        PhaseView::HashIre(_, _) => 3,
        PhaseView::List => 2,
        PhaseView::StatResource => 1,
        PhaseView::ReadResource(_) => 1,
        PhaseView::HashResource(_, _) => 1,
        PhaseView::Done => 0,
    }
}

/// How many resources are to be looked at.
pub open spec fn left(pass: PassView) -> int {
    match pass.phase {
        PhaseView::StatResource
        | PhaseView::ReadResource(_)
        | PhaseView::HashResource(_, _) => pass.listed.len() - pass.next,
        _ => 0,
    }
}

/// How many answers on the present resource are wanted.
pub open spec fn step(phase: PhaseView) -> int {
    match phase {
        PhaseView::StatResource => 2,
        PhaseView::ReadResource(_) => 1,
        _ => 0,
    }
}

/// A pass with every request answered from the disk, to its end.
pub open spec fn run(pass: PassView, disk: Disk) -> PassView
    decreases stage(pass.phase), left(pass), step(pass.phase),
    when pass.wf()
{
    if pass.phase is Done {
        pass
    } else {
        run(pass.after(disk.reply(pass.request())), disk)
    }
}

/// The requests of a pass that are answered from the disk, to its end.
pub open spec fn asked(pass: PassView, disk: Disk) -> Seq<RequestView>
    decreases stage(pass.phase), left(pass), step(pass.phase),
    when pass.wf()
{
    if pass.phase is Done {
        Seq::empty()
    } else {
        seq![pass.request()] + asked(pass.after(disk.reply(pass.request())), disk)
    }
}

/// What a pass learns of `ire.json`: its metadata, where its gate moved and it
/// parsed.
pub open spec fn ire_fresh(files: Files, disk: Disk) -> Option<MetaView> {
    match (disk.ire_stat, disk.sections()) {
        (Some(gate), Some(text)) => if unmoved(files, ire_path(), gate) {
            None
        } else {
            Some(metadata(gate, (disk.hash)(text)))
        },
        _ => None,
    }
}

/// What is known after a look at `ire.json`.
pub open spec fn files_after_ire(files: Files, disk: Disk) -> Files {
    match ire_fresh(files, disk) {
        Some(meta) => files.insert(ire_path(), meta),
        None => files,
    }
}

/// What a pass reports of `ire.json`: its content, where its hash is a new one.
pub open spec fn ire_changes(files: Files, disk: Disk) -> Seq<ChangeView> {
    match ire_fresh(files, disk) {
        Some(meta) => if known_as(files, ire_path(), meta.hash) {
            Seq::empty()
        } else {
            seq![ChangeView::Ire(disk.ire->0)]
        },
        None => Seq::empty(),
    }
}

/// What a pass learns of a resource: its metadata, where its gate moved and it
/// could be read.
pub open spec fn resource_fresh(files: Files, disk: Disk, path: Seq<char>) -> Option<MetaView> {
    match ((disk.stat)(path), (disk.read)(path)) {
        (Some(gate), Some(text)) => if unmoved(files, path, gate) {
            None
        } else {
            Some(metadata(gate, (disk.hash)(text)))
        },
        _ => None,
    }
}

/// What a pass reports of a resource: its content, where its hash is a new one.
pub open spec fn resource_change(files: Files, disk: Disk, path: Seq<char>) -> Option<ChangeView> {
    match resource_fresh(files, disk, path) {
        Some(meta) => if known_as(files, path, meta.hash) {
            None
        } else {
            Some(ChangeView::Resource { path, content: (disk.read)(path)->0 })
        },
        None => None,
    }
}

/// What a pass reports of several resources, in their order.
pub open spec fn resource_changes(files: Files, disk: Disk, paths: Seq<Seq<char>>) -> Seq<
    ChangeView,
>
    decreases paths.len(),
{
    if paths.len() == 0 {
        Seq::empty()
    } else {
        let before = resource_changes(files, disk, paths.drop_last());
        match resource_change(files, disk, paths.last()) {
            Some(change) => before.push(change),
            None => before,
        }
    }
}

/// What is known after a look at several resources.
pub open spec fn files_after_resources(files: Files, disk: Disk, paths: Seq<Seq<char>>) -> Files {
    Map::new(
        |p: Seq<char>|
            files.contains_key(p) || (paths.contains(p) && resource_fresh(files, disk, p) is Some),
        |p: Seq<char>|
            if paths.contains(p) && resource_fresh(files, disk, p) is Some {
                resource_fresh(files, disk, p)->0
            } else {
                files[p]
            },
    )
}

/// The resources that a pass finds gone.
pub open spec fn deleted_by(files: Files, disk: Disk) -> Set<Seq<char>> {
    match disk.names {
        Some(_) => gone_from(files, disk.listed()),
        None => Set::empty(),
    }
}

/// What is known after a pass.
pub open spec fn files_after(files: Files, disk: Disk) -> Files {
    files_after_resources(files_after_ire(files, disk), disk, disk.listed()).remove_keys(
        deleted_by(files, disk),
    )
}

/// What a pass reports as new or changed.
pub open spec fn changes_by(files: Files, disk: Disk) -> Seq<ChangeView> {
    ire_changes(files, disk) + resource_changes(files, disk, disk.listed())
}

/// Every listed path is that of a resource by its name.
pub proof fn lemma_resource_paths(names: Seq<Option<Seq<char>>>, path: Seq<char>)
    ensures
        resource_paths(names).contains(path) <==> exists|i: int|
            0 <= i < names.len() && #[trigger] names[i] is Some && is_resource_name(names[i]->0)
                && path == resource_path(names[i]->0),
        resource_paths(names).contains(path) ==> lies_in_resources(path),
    decreases names.len(),
{
    let paths = resource_paths(names);
    if names.len() > 0 {
        let before = names.drop_last();
        lemma_resource_paths(before, path);
        let old = resource_paths(before);
        let last = names.len() - 1;
        if names.last() is Some {
            lemma_resource_path(names.last()->0);
        }
        if paths.contains(path) {
            let k = choose|k: int| 0 <= k < paths.len() && paths[k] == path;
            if k < old.len() {
                assert(old[k] == path);
                let i = choose|i: int|
                    0 <= i < before.len() && #[trigger] before[i] is Some && is_resource_name(
                        before[i]->0,
                    ) && path == resource_path(before[i]->0);
                assert(names[i] == before[i]);
            } else {
                assert(names[last] is Some);
            }
        }
        if exists|i: int|
            0 <= i < names.len() && #[trigger] names[i] is Some && is_resource_name(names[i]->0)
                && path == resource_path(names[i]->0) {
            let i = choose|i: int|
                0 <= i < names.len() && #[trigger] names[i] is Some && is_resource_name(
                    names[i]->0,
                ) && path == resource_path(names[i]->0);
            if i < last {
                assert(before[i] == names[i]);
                let k = choose|k: int| 0 <= k < old.len() && old[k] == path;
                assert(paths[k] == path);
            } else {
                assert(paths[paths.len() - 1] == path);
            }
        }
    } else {
        assert(!paths.contains(path));
    }
}

/// A directory that lists no name twice lists no resource twice.
pub proof fn law_listing_has_no_duplicates(names: Seq<Option<Seq<char>>>)
    requires
        forall|i: int, j: int|
            0 <= i < j < names.len() && (#[trigger] names[i]) is Some ==> names[i] != (
            #[trigger] names[j]),
    ensures
        resource_paths(names).no_duplicates(),
    decreases names.len(),
{
    if names.len() > 0 {
        let before = names.drop_last();
        assert forall|i: int, j: int|
            0 <= i < j < before.len() && (#[trigger] before[i]) is Some implies before[i] != (
        #[trigger] before[j]) by {
            assert(before[i] == names[i] && before[j] == names[j]);
        }
        law_listing_has_no_duplicates(before);
        if names.last() is Some {
            let path = resource_path(names.last()->0);
            lemma_resource_paths(before, path);
            lemma_resource_path(names.last()->0);
            assert(!resource_paths(before).contains(path)) by {
                if resource_paths(before).contains(path) {
                    let i = choose|i: int|
                        0 <= i < before.len() && #[trigger] before[i] is Some && is_resource_name(
                            before[i]->0,
                        ) && path == resource_path(before[i]->0);
                    lemma_resource_path(before[i]->0);
                    assert(names[i] == before[i]);
                    assert(names[names.len() - 1] == names.last());
                }
            }
        }
    }
}

/// A pass at resource `k` of its listing, with what it has found before.
spec fn at_resource(pass: PassView, files: Files, disk: Disk, k: nat) -> PassView {
    PassView {
        files: files_after_resources(files, disk, pass.listed.take(k as int)),
        changes: pass.changes + resource_changes(files, disk, pass.listed.take(k as int)),
        next: k,
        phase: PhaseView::StatResource,
        ..pass
    }
}

/// The look at the resources, from number `k` on.
proof fn lemma_run_resources(pass: PassView, files: Files, disk: Disk, k: nat)
    requires
        pass.listed.no_duplicates(),
        pass.deleted == Set::<Seq<char>>::empty(),
        k <= pass.listed.len(),
    ensures
        ({
            let from = at_resource(pass, files, disk, k).to_resource(k);
            let end = run(from, disk);
            let gone = gone_from(files, pass.listed);
            &&& from.wf()
            &&& end.phase is Done
            &&& end.files == files_after_resources(files, disk, pass.listed).remove_keys(gone)
            &&& end.changes == pass.changes + resource_changes(files, disk, pass.listed)
            &&& end.deleted == gone
        }),
    decreases pass.listed.len() - k,
{
    let all = pass.listed;
    let seen = all.take(k as int);
    let at = at_resource(pass, files, disk, k);
    let from = at.to_resource(k);
    if k < all.len() {
        let p = all[k as int];
        let then = all.take((k + 1) as int);
        let next = at_resource(pass, files, disk, k + 1);
        assert(then.drop_last() =~= seen);
        assert(then.last() == p);
        assert(!seen.contains(p)) by {
            if seen.contains(p) {
                let j = choose|j: int| 0 <= j < seen.len() && seen[j] == p;
                assert(all[j] == p);
            }
        }
        assert forall|q: Seq<char>| then.contains(q) == (seen.contains(q) || q == p) by {
            if then.contains(q) {
                let j = choose|j: int| 0 <= j < then.len() && then[j] == q;
                if j < k {
                    assert(seen[j] == q);
                }
            }
            if seen.contains(q) {
                let j = choose|j: int| 0 <= j < seen.len() && seen[j] == q;
                assert(then[j] == q);
            }
            assert(then[k as int] == p);
        }
        assert(at.files.contains_key(p) == files.contains_key(p));
        assert(files.contains_key(p) ==> at.files[p] == files[p]);
        lemma_run_resources(pass, files, disk, k + 1);
        assert(from == at);
        assert(from.wf());
        let stat = (disk.stat)(p);
        let one = from.after(disk.reply(from.request()));
        assert(from.request() == RequestView::StatResource(p));
        assert(run(from, disk) == run(one, disk));
        if stat is Some && !unmoved(files, p, stat->0) {
            assert(one.phase == PhaseView::ReadResource(stat->0));
            let text = (disk.read)(p);
            let two = one.after(disk.reply(one.request()));
            assert(run(one, disk) == run(two, disk));
            if text is Some {
                let three = two.after(disk.reply(two.request()));
                assert(run(two, disk) == run(three, disk));
                assert(next.files =~= at.files.insert(
                    p,
                    metadata(stat->0, (disk.hash)(text->0)),
                ));
                let h = (disk.hash)(text->0);
                assert(known_as(at.files, p, h) == known_as(files, p, h));
                assert(next.changes =~= if known_as(files, p, h) {
                    at.changes
                } else {
                    at.changes.push(ChangeView::Resource { path: p, content: text->0 })
                });
                assert(three == next.to_resource(k + 1));
            } else {
                assert(next.files =~= at.files);
                assert(next.changes =~= at.changes);
                assert(two == next.to_resource(k + 1));
            }
        } else {
            assert(next.files =~= at.files);
            assert(next.changes =~= at.changes);
            assert(one == next.to_resource(k + 1));
        }
    } else {
        assert(seen =~= all);
        assert(gone_from(at.files, all) =~= gone_from(files, all));
        assert(run(from, disk) == from);
    }
}

/// What a whole pass over a disk comes to: it ends; `ire.json` and every listed
/// resource whose gate moved and that could be read are remembered as they are
/// now, and reported if their content hash is a new one; the known resources that
/// are no longer listed are forgotten and reported as gone; all else stays as it
/// was.
pub proof fn law_pass_outcome(files: Files, disk: Disk)
    requires
        disk.wf(),
    ensures
        run(started(files), disk).phase is Done,
        run(started(files), disk).files == files_after(files, disk),
        run(started(files), disk).changes == changes_by(files, disk),
        run(started(files), disk).deleted == deleted_by(files, disk),
{
    lemma_ire_path_is_no_resource();
    let begin = started(files);
    let one = begin.after(disk.reply(begin.request()));
    let known = files_after_ire(files, disk);
    let listing = PassView {
        files: known,
        changes: ire_changes(files, disk),
        phase: PhaseView::List,
        ..begin
    };
    assert(run(begin, disk) == run(one, disk));
    if one.phase is ReadIre {
        let two = one.after(disk.reply(one.request()));
        assert(run(one, disk) == run(two, disk));
        if disk.sections() is Some {
            let three = two.after(disk.reply(two.request()));
            assert(run(two, disk) == run(three, disk));
            assert(three.changes =~= listing.changes);
            assert(three == listing);
        } else {
            assert(two == listing);
        }
    } else {
        assert(one == listing);
    }
    let then = listing.after(disk.reply(listing.request()));
    assert(run(listing, disk) == run(then, disk));
    let listed = disk.listed();
    assert forall|p: Seq<char>| listed.contains(p) implies resource_fresh(files, disk, p)
        == resource_fresh(known, disk, p) && resource_change(files, disk, p) == resource_change(
        known,
        disk,
        p,
    ) by {
        if disk.names is Some {
            lemma_resource_paths(disk.names->0, p);
        }
    }
    lemma_same_changes(files, known, disk, listed);
    if disk.names is Some {
        let pass = PassView { listed, ..listing };
        lemma_run_resources(pass, known, disk, 0);
        let at = at_resource(pass, known, disk, 0);
        assert(listed.take(0) =~= Seq::empty());
        assert(files_after_resources(known, disk, Seq::empty()) =~= known);
        assert(at.changes =~= pass.changes);
        assert(at.to_resource(0) == then);
        assert(gone_from(known, listed) =~= gone_from(files, listed));
    } else {
        assert(run(then, disk) == then);
        assert(files_after_resources(known, disk, listed).remove_keys(Set::empty()) =~= known);
        assert(changes_by(files, disk) =~= ire_changes(files, disk));
    }
}

/// What is reported of resources goes by what is known of them alone.
proof fn lemma_same_changes(files: Files, known: Files, disk: Disk, paths: Seq<Seq<char>>)
    requires
        forall|p: Seq<char>|
            paths.contains(p) ==> #[trigger] resource_change(files, disk, p) == resource_change(
                known,
                disk,
                p,
            ),
    ensures
        resource_changes(files, disk, paths) == resource_changes(known, disk, paths),
    decreases paths.len(),
{
    if paths.len() > 0 {
        let before = paths.drop_last();
        assert forall|p: Seq<char>| before.contains(p) implies #[trigger] resource_change(
            files,
            disk,
            p,
        ) == resource_change(known, disk, p) by {
            let j = choose|j: int| 0 <= j < before.len() && before[j] == p;
            assert(paths[j] == p);
        }
        lemma_same_changes(files, known, disk, before);
        assert(paths[paths.len() - 1] == paths.last());
        assert(paths.contains(paths.last()));
    }
}

/// Where nothing is reported of any of the paths, nothing is reported.
proof fn lemma_no_changes(files: Files, disk: Disk, paths: Seq<Seq<char>>)
    requires
        forall|p: Seq<char>|
            paths.contains(p) ==> #[trigger] resource_change(files, disk, p) is None,
    ensures
        resource_changes(files, disk, paths) == Seq::<ChangeView>::empty(),
    decreases paths.len(),
{
    if paths.len() > 0 {
        let before = paths.drop_last();
        assert forall|p: Seq<char>| before.contains(p) implies #[trigger] resource_change(
            files,
            disk,
            p,
        ) is None by {
            let j = choose|j: int| 0 <= j < before.len() && before[j] == p;
            assert(paths[j] == p);
        }
        lemma_no_changes(files, disk, before);
        assert(paths[paths.len() - 1] == paths.last());
        assert(paths.contains(paths.last()));
    }
}

/// A pass over a disk that the previous pass has already seen reports nothing and
/// learns nothing: a change is reported once, and a primed snapshot makes the
/// first checkpoint quiet.
pub proof fn law_second_pass_is_quiet(files: Files, disk: Disk)
    requires
        disk.wf(),
    ensures
        ({
            let again = run(started(run(started(files), disk).files), disk);
            &&& again.changes == Seq::<ChangeView>::empty()
            &&& again.deleted == Set::<Seq<char>>::empty()
            &&& again.files == run(started(files), disk).files
        }),
{
    lemma_ire_path_is_no_resource();
    law_pass_outcome(files, disk);
    let known = files_after(files, disk);
    law_pass_outcome(known, disk);
    let listed = disk.listed();
    let after_ire = files_after_ire(files, disk);
    assert(!listed.contains(ire_path())) by {
        if disk.names is Some {
            lemma_resource_paths(disk.names->0, ire_path());
        }
    }
    assert(!deleted_by(files, disk).contains(ire_path()));
    assert(known.contains_key(ire_path()) == after_ire.contains_key(ire_path()));
    assert(known.contains_key(ire_path()) ==> known[ire_path()] == after_ire[ire_path()]);
    assert(ire_fresh(known, disk) is None);
    assert forall|p: Seq<char>| listed.contains(p) implies #[trigger] resource_change(
        known,
        disk,
        p,
    ) is None && resource_fresh(known, disk, p) is None by {
        if disk.names is Some {
            lemma_resource_paths(disk.names->0, p);
        }
        assert(!deleted_by(files, disk).contains(p));
        assert(files_after_resources(after_ire, disk, listed).contains_key(p)
            == known.contains_key(p));
    }
    lemma_no_changes(known, disk, listed);
    assert(changes_by(known, disk) =~= Seq::empty());
    assert(deleted_by(known, disk) =~= Set::empty());
    assert forall|p: Seq<char>| listed.contains(p) implies resource_fresh(known, disk, p) is None by {
        assert(resource_change(known, disk, p) is None);
    }
    assert(files_after(known, disk) =~= known);
}

/// Whether what is on the disk has the content hashes already known, and all
/// known resources are there.
pub open spec fn same_content(files: Files, disk: Disk) -> bool {
    &&& disk.sections() matches Some(text) ==> known_as(files, ire_path(), (disk.hash)(text))
    &&& forall|p: Seq<char>| #[trigger]
        disk.listed().contains(p) && (disk.read)(p) is Some ==> known_as(
            files,
            p,
            (disk.hash)((disk.read)(p)->0),
        )
    &&& deleted_by(files, disk) == Set::<Seq<char>>::empty()
}

/// Rewriting files with the content they had reports nothing, whatever becomes of
/// their modification times: what a `git checkout` does.
pub proof fn law_identical_content_is_quiet(files: Files, disk: Disk)
    requires
        disk.wf(),
        same_content(files, disk),
    ensures
        run(started(files), disk).changes == Seq::<ChangeView>::empty(),
        run(started(files), disk).deleted == Set::<Seq<char>>::empty(),
{
    law_pass_outcome(files, disk);
    assert forall|p: Seq<char>| disk.listed().contains(p) implies #[trigger] resource_change(
        files,
        disk,
        p,
    ) is None by {}
    lemma_no_changes(files, disk, disk.listed());
    assert(changes_by(files, disk) =~= Seq::empty());
}

/// Whether no file's gate moved.
pub open spec fn gates_match(files: Files, disk: Disk) -> bool {
    &&& disk.ire_stat is Some ==> unmoved(files, ire_path(), disk.ire_stat->0)
    &&& forall|p: Seq<char>| #[trigger]
        disk.listed().contains(p) && (disk.stat)(p) is Some ==> unmoved(
            files,
            p,
            (disk.stat)(p)->0,
        )
}

/// The requests on the resources from number `k` on, where no gate moved.
proof fn lemma_asked_resources(pass: PassView, disk: Disk, k: nat)
    requires
        k <= pass.listed.len(),
        forall|p: Seq<char>| #[trigger]
            pass.listed.contains(p) && (disk.stat)(p) is Some ==> unmoved(
                pass.files,
                p,
                (disk.stat)(p)->0,
            ),
    ensures
        pass.to_resource(k).wf(),
        asked(pass.to_resource(k), disk) == pass.listed.skip(k as int).map_values(
            |p: Seq<char>| RequestView::StatResource(p),
        ),
    decreases pass.listed.len() - k,
{
    let from = pass.to_resource(k);
    if k < pass.listed.len() {
        let p = pass.listed[k as int];
        assert(pass.listed.contains(p));
        let then = from.after(disk.reply(from.request()));
        assert(then == from.to_resource(k + 1));
        assert(then == pass.to_resource(k + 1));
        lemma_asked_resources(pass, disk, k + 1);
        assert(pass.listed.skip(k as int) =~= seq![p] + pass.listed.skip((k + 1) as int));
        assert(asked(from, disk) =~= pass.listed.skip(k as int).map_values(
            |p: Seq<char>| RequestView::StatResource(p),
        ));
    } else {
        assert(asked(from, disk) =~= pass.listed.skip(k as int).map_values(
            |p: Seq<char>| RequestView::StatResource(p),
        ));
    }
}

/// A pass with nothing new costs one `stat` of `ire.json`, one listing of
/// `resources/` and one `stat` per resource: no reads, no hashing. A file whose
/// metadata did not move is never re-read.
pub proof fn law_unmoved_gates_cost_no_reads(files: Files, disk: Disk)
    requires
        gates_match(files, disk),
    ensures
        asked(started(files), disk) == seq![RequestView::StatIre, RequestView::ListResources]
            + disk.listed().map_values(|p: Seq<char>| RequestView::StatResource(p)),
{
    let begin = started(files);
    let listing = begin.to_resources();
    assert(begin.after(disk.reply(begin.request())) == listing);
    let then = listing.after(disk.reply(listing.request()));
    let stats = disk.listed().map_values(|p: Seq<char>| RequestView::StatResource(p));
    assert(asked(listing, disk) == seq![RequestView::ListResources] + asked(then, disk));
    assert(asked(begin, disk) == seq![RequestView::StatIre] + asked(listing, disk));
    if disk.names is Some {
        let pass = PassView { listed: disk.listed(), ..listing };
        lemma_asked_resources(pass, disk, 0);
        assert(disk.listed().skip(0) =~= disk.listed());
        assert(then == pass.to_resource(0));
    } else {
        assert(asked(then, disk) =~= stats);
    }
    assert(asked(begin, disk) =~= seq![RequestView::StatIre, RequestView::ListResources] + stats);
}

/// Whatever the state of a pass: a file is asked for only right after a `stat` of
/// it whose modification time or size is not the one known.
pub proof fn law_reads_follow_moved_gates(pass: PassView, reply: ReplyView)
    requires
        pass.wf(),
        pass.after(reply) != pass,
    ensures
        pass.after(reply).request() is ReadIre ==> pass.request() is StatIre && (reply matches
            ReplyView::Stat(Some(gate)) && !unmoved(pass.files, ire_path(), gate)),
        pass.after(reply).request() matches RequestView::ReadResource(path) ==> pass.request()
            == RequestView::StatResource(path) && (reply matches ReplyView::Stat(Some(gate))
            && !unmoved(pass.files, path, gate)),
{
}

/// An `ire.json` that does not parse, or has a section that is not JSON, is no change
/// and is not remembered, so the repair is still detected, even one that leaves time
/// and size as they are.
pub proof fn law_malformed_ire_is_retried(files: Files, disk: Disk, repaired: Disk)
    requires
        disk.wf(),
        disk.sections() is None,
    ensures
        forall|c: ContentView|
            !(#[trigger] run(started(files), disk).changes.contains(ChangeView::Ire(c))),
        ire_changes(run(started(files), disk).files, repaired) == ire_changes(files, repaired),
{
    law_pass_outcome(files, disk);
    lemma_ire_metadata_kept(files, disk);
    lemma_resource_changes_are_of_resources(files, disk, disk.listed());
    assert(changes_by(files, disk) =~= resource_changes(files, disk, disk.listed()));
}

/// An `ire.json` that is missing, or cannot be stat'd, is no change and leaves
/// what is known of it as it was.
pub proof fn law_missing_ire_is_no_change(files: Files, disk: Disk)
    requires
        disk.wf(),
        disk.ire_stat is None,
    ensures
        forall|c: ContentView|
            !(#[trigger] run(started(files), disk).changes.contains(ChangeView::Ire(c))),
        run(started(files), disk).files.contains_key(ire_path()) == files.contains_key(ire_path()),
        files.contains_key(ire_path()) ==> run(started(files), disk).files[ire_path()]
            == files[ire_path()],
{
    law_pass_outcome(files, disk);
    lemma_ire_metadata_kept(files, disk);
    lemma_resource_changes_are_of_resources(files, disk, disk.listed());
    assert(changes_by(files, disk) =~= resource_changes(files, disk, disk.listed()));
}

/// Where nothing is learnt of `ire.json`, what is known of it stays.
proof fn lemma_ire_metadata_kept(files: Files, disk: Disk)
    requires
        ire_fresh(files, disk) is None,
    ensures
        files_after(files, disk).contains_key(ire_path()) == files.contains_key(ire_path()),
        files.contains_key(ire_path()) ==> files_after(files, disk)[ire_path()]
            == files[ire_path()],
{
    lemma_ire_path_is_no_resource();
    if disk.names is Some {
        lemma_resource_paths(disk.names->0, ire_path());
    }
    assert(!disk.listed().contains(ire_path()));
}

/// What is reported of resources is never a report of `ire.json`.
proof fn lemma_resource_changes_are_of_resources(files: Files, disk: Disk, paths: Seq<Seq<char>>)
    ensures
        forall|c: ContentView|
            !(#[trigger] resource_changes(files, disk, paths).contains(ChangeView::Ire(c))),
    decreases paths.len(),
{
    if paths.len() > 0 {
        lemma_resource_changes_are_of_resources(files, disk, paths.drop_last());
        let before = resource_changes(files, disk, paths.drop_last());
        let all = resource_changes(files, disk, paths);
        assert forall|c: ContentView| !(#[trigger] all.contains(ChangeView::Ire(c))) by {
            if all.contains(ChangeView::Ire(c)) {
                let k = choose|k: int| 0 <= k < all.len() && all[k] == ChangeView::Ire(c);
                if k < before.len() {
                    assert(before[k] == ChangeView::Ire(c));
                    assert(before.contains(ChangeView::Ire(c)));
                }
            }
        }
    }
}

/// A `resources/` that cannot be listed is not read as every resource being gone:
/// no resource is reported, deleted or forgotten.
pub proof fn law_unlisted_directory_is_no_change(files: Files, disk: Disk, path: Seq<char>)
    requires
        disk.names is None,
        path != ire_path(),
    ensures
        run(started(files), disk).deleted == Set::<Seq<char>>::empty(),
        run(started(files), disk).changes == ire_changes(files, disk),
        run(started(files), disk).files.contains_key(path) == files.contains_key(path),
        files.contains_key(path) ==> run(started(files), disk).files[path] == files[path],
{
    law_pass_outcome(files, disk);
    assert(changes_by(files, disk) =~= ire_changes(files, disk));
}

/// A listed resource that cannot be stat'd gives no information: it is neither
/// reported, deleted nor forgotten.
pub proof fn law_unstattable_resource_is_no_change(files: Files, disk: Disk, path: Seq<char>)
    requires
        disk.wf(),
        disk.listed().contains(path),
        (disk.stat)(path) is None,
    ensures
        !run(started(files), disk).deleted.contains(path),
        forall|content: Seq<char>|
            !(#[trigger] run(started(files), disk).changes.contains(
                (ChangeView::Resource { path, content }),
            )),
        run(started(files), disk).files.contains_key(path) == files.contains_key(path),
        files.contains_key(path) ==> run(started(files), disk).files[path] == files[path],
{
    law_pass_outcome(files, disk);
    lemma_ire_path_is_no_resource();
    lemma_resource_paths(disk.names->0, path);
    lemma_quiet_resource(files, disk, disk.listed(), path);
    assert forall|content: Seq<char>|
        !(#[trigger] changes_by(files, disk).contains((ChangeView::Resource { path, content }))) by {
        let all = changes_by(files, disk);
        let change = ChangeView::Resource { path, content };
        if all.contains(change) {
            let k = choose|k: int| 0 <= k < all.len() && all[k] == change;
            let ire = ire_changes(files, disk);
            let rest = resource_changes(files, disk, disk.listed());
            if k >= ire.len() {
                assert(rest[k - ire.len()] == change);
                assert(rest.contains(change));
            }
        }
    }
}

/// A resource of which nothing is learnt is not reported.
proof fn lemma_quiet_resource(files: Files, disk: Disk, paths: Seq<Seq<char>>, path: Seq<char>)
    requires
        resource_change(files, disk, path) is None,
    ensures
        forall|content: Seq<char>|
            !(#[trigger] resource_changes(files, disk, paths).contains(
                (ChangeView::Resource { path, content }),
            )),
    decreases paths.len(),
{
    if paths.len() > 0 {
        lemma_quiet_resource(files, disk, paths.drop_last(), path);
        let before = resource_changes(files, disk, paths.drop_last());
        let all = resource_changes(files, disk, paths);
        assert forall|content: Seq<char>|
            !(#[trigger] all.contains((ChangeView::Resource { path, content }))) by {
            let change = ChangeView::Resource { path, content };
            if all.contains(change) {
                let k = choose|k: int| 0 <= k < all.len() && all[k] == change;
                if k < before.len() {
                    assert(before[k] == change);
                    assert(before.contains(change));
                }
            }
        }
    }
}

/// A resource is reported as gone exactly when it was known and is no longer
/// listed, and it is then forgotten.
pub proof fn law_deleted_means_known_and_gone_from(files: Files, disk: Disk, path: Seq<char>)
    requires
        disk.wf(),
        disk.names is Some,
    ensures
        run(started(files), disk).deleted.contains(path) <==> files.contains_key(path)
            && path.len() >= "resources/"@.len() && path.take("resources/"@.len() as int)
            == "resources/"@ && !disk.listed().contains(path),
        run(started(files), disk).deleted.contains(path) ==> !run(
            started(files),
            disk,
        ).files.contains_key(path),
{
    law_pass_outcome(files, disk);
}

/// A resource not known before, that can be stat'd and read, is reported with its
/// text and remembered.
pub proof fn law_added_resource_is_reported(files: Files, disk: Disk, path: Seq<char>)
    requires
        disk.wf(),
        disk.listed().contains(path),
        !files.contains_key(path),
        (disk.stat)(path) is Some,
        (disk.read)(path) is Some,
    ensures
        run(started(files), disk).changes.contains(
            (ChangeView::Resource { path, content: (disk.read)(path)->0 }),
        ),
        run(started(files), disk).files.contains_key(path),
        run(started(files), disk).files[path] == metadata(
            (disk.stat)(path)->0,
            (disk.hash)((disk.read)(path)->0),
        ),
{
    law_pass_outcome(files, disk);
    lemma_ire_path_is_no_resource();
    lemma_resource_paths(disk.names->0, path);
    let listed = disk.listed();
    let change = ChangeView::Resource { path, content: (disk.read)(path)->0 };
    lemma_reported(files, disk, listed, path);
    let some = resource_changes(files, disk, listed);
    let k = choose|k: int| 0 <= k < some.len() && some[k] == change;
    assert(changes_by(files, disk)[ire_changes(files, disk).len() + k] == change);
    assert(resource_fresh(files_after_ire(files, disk), disk, path) is Some);
}

/// A change found of one of the paths is among those reported.
proof fn lemma_reported(files: Files, disk: Disk, paths: Seq<Seq<char>>, path: Seq<char>)
    requires
        paths.contains(path),
        resource_change(files, disk, path) is Some,
    ensures
        resource_changes(files, disk, paths).contains(resource_change(files, disk, path)->0),
    decreases paths.len(),
{
    let j = choose|j: int| 0 <= j < paths.len() && paths[j] == path;
    let change = resource_change(files, disk, path)->0;
    let all = resource_changes(files, disk, paths);
    if j < paths.len() - 1 {
        let before = paths.drop_last();
        assert(before[j] == path);
        lemma_reported(files, disk, before, path);
        let some = resource_changes(files, disk, before);
        let k = choose|k: int| 0 <= k < some.len() && some[k] == change;
        assert(all[k] == change);
    } else {
        assert(all[all.len() - 1] == change);
    }
}

/// An `ire.json` that parses, whose gate moved and whose sections have a new hash
/// is reported with its content, before everything else.
pub proof fn law_edited_ire_is_reported(files: Files, disk: Disk)
    requires
        disk.wf(),
        disk.ire_stat is Some,
        disk.sections() is Some,
        !unmoved(files, ire_path(), disk.ire_stat->0),
        !known_as(files, ire_path(), (disk.hash)(disk.sections()->0)),
    ensures
        run(started(files), disk).changes.len() > 0,
        run(started(files), disk).changes[0] == ChangeView::Ire(disk.ire->0),
{
    law_pass_outcome(files, disk);
}

/// Whether two contents have the same notes, and focus and ideas that are the same JSON.
pub open spec fn alike(a: ContentView, b: ContentView) -> bool {
    &&& a.notes == b.notes
    &&& json_compact(a.focus) == json_compact(b.focus)
    &&& json_compact(a.ideas) == json_compact(b.ideas)
}

/// Contents with the same notes, focus and ideas have the same sections text, whatever
/// their experiments; and where one is told apart by its text, as `sections_text` shows
/// of every content that it makes a text of, a content with other notes, focus or ideas
/// has another text.
pub proof fn law_sections_tell_notes_focus_and_ideas(a: ContentView, b: ContentView)
    ensures
        alike(a, b) ==> sections_of(a) == sections_of(b),
        told_apart(a) && !alike(a, b) ==> sections_of(a) != sections_of(b),
{
}

/// An edit of notes, focus or ideas is reported: where the known hash is that of a
/// content whose notes, focus or ideas are others, and the hash function does not send
/// the two texts to one hash, the new content is reported, before everything else.
pub proof fn law_edited_sections_are_reported(files: Files, disk: Disk, known: ContentView)
    requires
        disk.wf(),
        disk.ire_stat is Some,
        disk.sections() is Some,
        told_apart(disk.ire->0),
        !unmoved(files, ire_path(), disk.ire_stat->0),
        sections_of(known) is Ok,
        files.contains_key(ire_path()),
        files[ire_path()].hash == (disk.hash)(sections_of(known)->Ok_0),
        !alike(known, disk.ire->0),
        (disk.hash)(sections_of(known)->Ok_0) == (disk.hash)(disk.sections()->0)
            ==> sections_of(known)->Ok_0 == disk.sections()->0,
    ensures
        run(started(files), disk).changes.len() > 0,
        run(started(files), disk).changes[0] == ChangeView::Ire(disk.ire->0),
{
    assert(sections_of(known) != sections_of(disk.ire->0));
    law_edited_ire_is_reported(files, disk);
}

/// The runner rewriting its experiment rows is not reported: an `ire.json` is quiet as
/// long as its notes, focus and ideas are those of the content already known.
pub proof fn law_experiment_churn_is_quiet(files: Files, disk: Disk, known: ContentView)
    requires
        disk.wf(),
        sections_of(known) is Ok,
        known_as(files, ire_path(), (disk.hash)(sections_of(known)->Ok_0)),
        disk.ire matches Some(found) ==> alike(found, known),
    ensures
        forall|c: ContentView|
            !(#[trigger] run(started(files), disk).changes.contains(ChangeView::Ire(c))),
{
    law_pass_outcome(files, disk);
    lemma_resource_changes_are_of_resources(files, disk, disk.listed());
    assert(changes_by(files, disk) =~= resource_changes(files, disk, disk.listed()));
}

/// The events of a pass carry no experiments: contents that differ in those alone
/// give the same event.
pub proof fn law_events_carry_no_experiments(c: ContentView, d: ContentView)
    requires
        c.notes == d.notes,
        c.focus == d.focus,
        c.ideas == d.ideas,
    ensures
        event_of(ChangeView::Ire(c)) == event_of(ChangeView::Ire(d)),
{
}

/// A file in `resources/` that is no resource by its name (the generated index,
/// dotfiles, anything but `*.md`) has no part in a pass.
pub proof fn law_other_names_are_ignored(
    names: Seq<Option<Seq<char>>>,
    more: Seq<Option<Seq<char>>>,
)
    requires
        forall|i: int|
            0 <= i < more.len() && (#[trigger] more[i]) is Some ==> !is_resource_name(more[i]->0),
    ensures
        resource_paths(names + more) == resource_paths(names),
    decreases more.len(),
{
    if more.len() > 0 {
        assert((names + more).drop_last() =~= names + more.drop_last());
        assert(more[more.len() - 1] == more.last());
        assert forall|i: int|
            0 <= i < more.drop_last().len() && (#[trigger] more.drop_last()[i]) is Some implies !is_resource_name(
            more.drop_last()[i]->0) by {
            assert(more[i] == more.drop_last()[i]);
        }
        law_other_names_are_ignored(names, more.drop_last());
    } else {
        assert(names + more =~= names);
    }
}

/// Whether a pass knows and visits only `ire.json` and files in `resources/`.
pub open spec fn stays_in_scan(pass: PassView) -> bool {
    &&& forall|p: Seq<char>| #[trigger]
        pass.files.contains_key(p) ==> p == ire_path() || lies_in_resources(p)
    &&& forall|i: int| 0 <= i < pass.listed.len() ==> lies_in_resources(#[trigger] pass.listed[i])
}

/// Whatever the answers, a pass asks for and remembers nothing outside `ire.json`
/// and `resources/`: churn elsewhere in `.ire/` is outside the scan.
pub proof fn law_pass_stays_in_scan(pass: PassView, reply: ReplyView)
    requires
        pass.wf(),
        stays_in_scan(pass),
    ensures
        stays_in_scan(pass.after(reply)),
        pass.request() matches RequestView::StatResource(path) ==> lies_in_resources(path),
        pass.request() matches RequestView::ReadResource(path) ==> lies_in_resources(path),
{
    if pass.phase is List && (reply matches ReplyView::Listing(Some(names))) {
        let names = reply->Listing_0->0;
        let paths = resource_paths(names);
        assert forall|i: int| 0 <= i < paths.len() implies lies_in_resources(#[trigger] paths[i]) by {
            lemma_resource_paths(names, paths[i]);
            assert(paths.contains(paths[i]));
        }
    }
}

/// A pass over a snapshot that knows nothing starts inside the scan.
pub proof fn law_fresh_pass_is_in_scan()
    ensures
        stays_in_scan(started(Files::empty())),
{
}

/// A file name is that of a resource when it ends in `.md`, does not start with a dot
/// and is not `_index.md`.
pub proof fn law_resource_names(name: Seq<char>)
    ensures
        is_resource_name(name) <==> {
            &&& name.len() >= 3
            &&& name[name.len() - 3] == '.'
            &&& name[name.len() - 2] == 'm'
            &&& name[name.len() - 1] == 'd'
            &&& name[0] != '.'
            &&& name != seq!['_', 'i', 'n', 'd', 'e', 'x', '.', 'm', 'd']
        },
{
    reveal_strlit(".md");
    reveal_strlit(".");
    reveal_strlit("_index.md");
    law_suffix(name, ".md"@);
    law_prefix(name, "."@);
    assert("_index.md"@ =~= seq!['_', 'i', 'n', 'd', 'e', 'x', '.', 'm', 'd']);
    if name.len() >= 3 {
        let from = name.len() - 3;
        assert(".md"@[0] == '.' && ".md"@[1] == 'm' && ".md"@[2] == 'd');
        if name[from] == '.' && name[from + 1] == 'm' && name[from + 2] == 'd' {
            assert forall|i: int| 0 <= i < ".md"@.len() implies name[name.len() - ".md"@.len() + i]
                == ".md"@[i] by {}
        }
    }
    if name.len() >= 1 {
        assert("."@[0] == '.');
    }
}

/// `ire.json` and the resources go by their paths from `.ire/`.
pub proof fn law_paths(name: Seq<char>)
    ensures
        ire_path() == "ire.json"@,
        resource_path(name) == "resources/"@ + name,
        lies_in_resources(resource_path(name)),
{
    lemma_resource_path(name);
}

/// A listing gives its resources one by one, in its own order: those of one part, then
/// those of the next.
pub proof fn law_listing_keeps_its_order(
    names: Seq<Option<Seq<char>>>,
    more: Seq<Option<Seq<char>>>,
)
    ensures
        resource_paths(names + more) == resource_paths(names) + resource_paths(more),
    decreases more.len(),
{
    if more.len() > 0 {
        assert((names + more).drop_last() =~= names + more.drop_last());
        assert((names + more).last() == more.last());
        law_listing_keeps_its_order(names, more.drop_last());
        assert(resource_paths(names + more) =~= resource_paths(names) + resource_paths(more));
    } else {
        assert(names + more =~= names);
        assert(resource_paths(names + more) =~= resource_paths(names) + resource_paths(more));
    }
}

/// One name in a listing gives one resource, or none where it is not that of a resource
/// or not valid Unicode.
pub proof fn law_listing_of_one_name(name: Seq<char>)
    ensures
        is_resource_name(name) ==> resource_paths(seq![Some(name)]) == seq!["resources/"@ + name],
        !is_resource_name(name) ==> resource_paths(seq![Some(name)]) == Seq::<Seq<char>>::empty(),
        resource_paths(seq![None]) == Seq::<Seq<char>>::empty(),
{
    let one = seq![Some(name)];
    let none = seq![None::<Seq<char>>];
    assert(one.drop_last() =~= Seq::empty());
    assert(none.drop_last() =~= Seq::empty());
    assert(resource_paths(Seq::empty()) =~= Seq::empty());
    assert(one.last() == Some(name));
    assert(none.last() is None);
    if is_resource_name(name) {
        assert(resource_paths(one) =~= seq!["resources/"@ + name]);
    }
}

/// The sections have a text just where focus and ideas are JSON, whatever the notes; it
/// is that of an object with the members `notes`, `focus` and `ideas`, which hold the
/// three as they are, and no others.
pub proof fn law_sections_have_a_text_where_they_are_json(c: ContentView)
    ensures
        json_compact(c.focus) is Some && json_compact(c.ideas) is Some ==> sections_of(c) is Ok
            && exists|m: Members|
            {
                &&& #[trigger] json_object(m) == sections_of(c)->Ok_0
                &&& m.dom() == set!["notes"@, "focus"@, "ideas"@]
                &&& m["notes"@] == json_string(c.notes)
                &&& m["focus"@] == json_compact(c.focus)->0
                &&& m["ideas"@] == json_compact(c.ideas)->0
            },
        json_compact(c.focus) is None ==> sections_of(c) == Err::<Seq<char>, SectionsError>(
            SectionsError::Focus,
        ),
        json_compact(c.focus) is Some && json_compact(c.ideas) is None ==> sections_of(c) == Err::<
            Seq<char>,
            SectionsError,
        >(SectionsError::Ideas),
{
    if json_compact(c.focus) is Some && json_compact(c.ideas) is Some {
        reveal_strlit("notes");
        reveal_strlit("focus");
        reveal_strlit("ideas");
        assert("notes"@[0] == 'n' && "focus"@[0] == 'f' && "ideas"@[0] == 'i');
        let m = map![
            "notes"@ => json_string(c.notes),
            "focus"@ => json_compact(c.focus)->0,
            "ideas"@ => json_compact(c.ideas)->0,
        ];
        assert(m.dom() =~= set!["notes"@, "focus"@, "ideas"@]);
        assert(json_object(m) == sections_of(c)->Ok_0);
    }
}

/// The payload of a resource is an object with the members `path`, `title` and
/// `sources`, which hold the three as they are, and no others.
pub proof fn law_payload_holds_path_title_and_sources(
    path: Seq<char>,
    title: Seq<char>,
    sources: Seq<String>,
)
    ensures
        exists|m: Members|
            {
                &&& #[trigger] json_object(m) == payload_of(path, title, sources)
                &&& m.dom() == set!["path"@, "title"@, "sources"@]
                &&& m["path"@] == json_string(path)
                &&& m["title"@] == json_string(title)
                &&& m["sources"@] == json_array(json_strings(sources))
            },
{
    reveal_strlit("path");
    reveal_strlit("title");
    reveal_strlit("sources");
    assert("path"@[0] == 'p' && "title"@[0] == 't' && "sources"@[0] == 's');
    let m = map![
        "path"@ => json_string(path),
        "title"@ => json_string(title),
        "sources"@ => json_array(json_strings(sources)),
    ];
    assert(m.dom() =~= set!["path"@, "title"@, "sources"@]);
    assert(json_object(m) == payload_of(path, title, sources));
}

/// What is reported of resources is found at one of them.
proof fn lemma_reported_is_found(
    files: Files,
    disk: Disk,
    paths: Seq<Seq<char>>,
    change: ChangeView,
)
    requires
        resource_changes(files, disk, paths).contains(change),
    ensures
        change is Resource,
        paths.contains(change->path),
        resource_change(files, disk, change->path) == Some(change),
    decreases paths.len(),
{
    let all = resource_changes(files, disk, paths);
    let k = choose|k: int| 0 <= k < all.len() && all[k] == change;
    let before = resource_changes(files, disk, paths.drop_last());
    if k < before.len() {
        assert(before[k] == change);
        lemma_reported_is_found(files, disk, paths.drop_last(), change);
        let i = choose|i: int|
            0 <= i < paths.drop_last().len() && paths.drop_last()[i] == change->path;
        assert(paths[i] == change->path);
    } else {
        assert(paths[paths.len() - 1] == paths.last());
    }
}

/// A resource is reported just when it is listed, can be stat'd and read, and both its
/// modification time or size and its content hash are not those known; and it is
/// reported with the text that was read.
pub proof fn law_resource_is_reported_just_when_new(
    files: Files,
    disk: Disk,
    path: Seq<char>,
    content: Seq<char>,
)
    requires
        disk.wf(),
    ensures
        run(started(files), disk).changes.contains((ChangeView::Resource { path, content })) <==> {
            &&& disk.listed().contains(path)
            &&& (disk.stat)(path) is Some
            &&& (disk.read)(path) == Some(content)
            &&& !(files.contains_key(path) && files[path].mtime == (disk.stat)(path)->0.mtime
                && files[path].size == (disk.stat)(path)->0.size)
            &&& !(files.contains_key(path) && files[path].hash == (disk.hash)(content))
        },
{
    law_pass_outcome(files, disk);
    let change = ChangeView::Resource { path, content };
    let ire = ire_changes(files, disk);
    let some = resource_changes(files, disk, disk.listed());
    let all = changes_by(files, disk);
    if all.contains(change) {
        let k = choose|k: int| 0 <= k < all.len() && all[k] == change;
        assert(k >= ire.len());
        assert(some[k - ire.len()] == change);
        lemma_reported_is_found(files, disk, disk.listed(), change);
    }
    if disk.listed().contains(path) && resource_change(files, disk, path) == Some(change) {
        lemma_reported(files, disk, disk.listed(), path);
        let k = choose|k: int| 0 <= k < some.len() && some[k] == change;
        assert(all[ire.len() + k] == change);
    }
}

/// An edit of a known resource is reported: where it is listed and can be stat'd and
/// read, its modification time or size moved and its content hash is not the known one,
/// the pass reports it with its new text.
pub proof fn law_edited_resource_is_reported(files: Files, disk: Disk, path: Seq<char>)
    requires
        disk.wf(),
        disk.listed().contains(path),
        files.contains_key(path),
        (disk.stat)(path) is Some,
        (disk.read)(path) is Some,
        files[path].mtime != (disk.stat)(path)->0.mtime || files[path].size != (disk.stat)(
            path,
        )->0.size,
        files[path].hash != (disk.hash)((disk.read)(path)->0),
    ensures
        run(started(files), disk).changes.contains(
            (ChangeView::Resource { path, content: (disk.read)(path)->0 }),
        ),
        run(started(files), disk).files.contains_key(path),
        run(started(files), disk).files[path].hash == (disk.hash)((disk.read)(path)->0),
{
    law_resource_is_reported_just_when_new(files, disk, path, (disk.read)(path)->0);
    law_pass_outcome(files, disk);
    lemma_ire_path_is_no_resource();
    lemma_resource_paths(disk.names->0, path);
    assert(resource_fresh(files_after_ire(files, disk), disk, path) is Some);
}

/// `ire.json` is reported just when it can be stat'd and parses, its focus and ideas are
/// JSON, and neither its modification time and size nor the hash of its sections are
/// those known; and it is reported with the content that was read.
pub proof fn law_ire_is_reported_just_when_new(files: Files, disk: Disk, content: ContentView)
    requires
        disk.wf(),
    ensures
        run(started(files), disk).changes.contains(ChangeView::Ire(content)) <==> {
            &&& disk.ire_stat is Some
            &&& disk.ire == Some(content)
            &&& json_compact(content.focus) is Some
            &&& json_compact(content.ideas) is Some
            &&& !(files.contains_key("ire.json"@) && files["ire.json"@].mtime
                == disk.ire_stat->0.mtime && files["ire.json"@].size == disk.ire_stat->0.size)
            &&& !(files.contains_key("ire.json"@) && files["ire.json"@].hash == (disk.hash)(
                sections_of(content)->Ok_0,
            ))
        },
{
    law_pass_outcome(files, disk);
    lemma_resource_changes_are_of_resources(files, disk, disk.listed());
    let change = ChangeView::Ire(content);
    let ire = ire_changes(files, disk);
    let some = resource_changes(files, disk, disk.listed());
    let all = changes_by(files, disk);
    if all.contains(change) {
        let k = choose|k: int| 0 <= k < all.len() && all[k] == change;
        if k >= ire.len() {
            assert(some[k - ire.len()] == change);
            assert(some.contains(change));
        }
        assert(ire[k] == change);
    }
    if ire.len() > 0 {
        assert(all[0] == ire[0]);
    }
}

/// What is reported of distinct resources is of distinct resources.
proof fn lemma_changes_are_distinct(files: Files, disk: Disk, paths: Seq<Seq<char>>)
    requires
        paths.no_duplicates(),
    ensures
        ({
            let all = resource_changes(files, disk, paths);
            &&& forall|i: int| 0 <= i < all.len() ==> (#[trigger] all[i]) is Resource
            &&& forall|i: int, j: int|
                0 <= i < j < all.len() ==> (#[trigger] all[i])->path != (#[trigger] all[j])->path
            &&& forall|i: int, j: int, a: int, b: int|
                #![trigger all[i], all[j], paths[a], paths[b]]
                0 <= i < j < all.len() && 0 <= a < paths.len() && 0 <= b < paths.len() && paths[a]
                    == all[i]->path && paths[b] == all[j]->path ==> a < b
        }),
    decreases paths.len(),
{
    if paths.len() > 0 {
        let less = paths.drop_last();
        lemma_changes_are_distinct(files, disk, less);
        let before = resource_changes(files, disk, less);
        let all = resource_changes(files, disk, paths);
        assert forall|i: int| 0 <= i < before.len() implies (#[trigger] before[i])->path
            != paths.last() by {
            assert(before.contains(before[i]));
            lemma_reported_is_found(files, disk, less, before[i]);
            let k = choose|k: int| 0 <= k < less.len() && less[k] == before[i]->path;
            assert(paths[k] == before[i]->path);
            assert(paths[paths.len() - 1] == paths.last());
        }
        assert forall|i: int| 0 <= i < before.len() implies #[trigger] all[i] == before[i] by {}
        let last = paths.len() - 1;
        assert forall|i: int, j: int, a: int, b: int|
            #![trigger all[i], all[j], paths[a], paths[b]]
            0 <= i < j < all.len() && 0 <= a < paths.len() && 0 <= b < paths.len() && paths[a]
                == all[i]->path && paths[b] == all[j]->path implies a < b by {
            assert(all[i] == before[i]);
            assert(before[i]->path != paths.last());
            assert(a < last);
            assert(less[a] == paths[a]);
            if j < before.len() {
                assert(all[j] == before[j]);
                assert(before[j]->path != paths.last());
                assert(less[b] == paths[b]);
            } else {
                assert(paths[last] == all[j]->path);
            }
        }
    }
}

/// A pass reports `ire.json` at most once, before everything else, and each resource at
/// most once, in the order listed; deletions are kept apart.
pub proof fn law_each_file_is_reported_at_most_once(files: Files, disk: Disk)
    requires
        disk.wf(),
    ensures
        ({
            let all = run(started(files), disk).changes;
            &&& forall|i: int| 0 <= i < all.len() && (#[trigger] all[i]) is Ire ==> i == 0
            &&& forall|i: int| 0 <= i < all.len() ==> !((#[trigger] all[i]) is ResourceDeleted)
            &&& forall|i: int, j: int|
                0 <= i < j < all.len() && (#[trigger] all[i]) is Resource && (
                #[trigger] all[j]) is Resource ==> all[i]->path != all[j]->path
            &&& forall|i: int, j: int, a: int, b: int|
                #![trigger all[i], all[j], disk.listed()[a], disk.listed()[b]]
                0 <= i < j < all.len() && all[i] is Resource && all[j] is Resource && 0 <= a
                    < disk.listed().len() && 0 <= b < disk.listed().len() && disk.listed()[a]
                    == all[i]->path && disk.listed()[b] == all[j]->path ==> a < b
        }),
{
    law_pass_outcome(files, disk);
    lemma_changes_are_distinct(files, disk, disk.listed());
    let ire = ire_changes(files, disk);
    let some = resource_changes(files, disk, disk.listed());
    let all = changes_by(files, disk);
    assert forall|i: int| ire.len() <= i < all.len() implies #[trigger] all[i] == some[i
        - ire.len()] by {}
    assert forall|i: int, j: int|
        0 <= i < j < all.len() && (#[trigger] all[i]) is Resource && (#[trigger] all[j]) is Resource
        implies all[i]->path != all[j]->path by {
        if i < ire.len() {
            assert(all[i] == ire[i]);
        } else {
            assert(some[i - ire.len()]->path != some[j - ire.len()]->path);
        }
    }
    let listed = disk.listed();
    assert forall|i: int, j: int, a: int, b: int|
        #![trigger all[i], all[j], listed[a], listed[b]]
        0 <= i < j < all.len() && all[i] is Resource && all[j] is Resource && 0 <= a < listed.len()
            && 0 <= b < listed.len() && listed[a] == all[i]->path && listed[b]
            == all[j]->path implies a < b by {
        if i < ire.len() {
            assert(all[i] == ire[i]);
        } else {
            assert(all[i] == some[i - ire.len()] && all[j] == some[j - ire.len()]);
        }
    }
}

/// What a pass remembers of a file. Of a listed resource, or of `ire.json`, that moved
/// and could be read: its present modification time, size and content hash. Of a
/// resource that is no longer listed: nothing. Of all else: what was known before.
pub proof fn law_what_is_remembered(files: Files, disk: Disk, path: Seq<char>)
    requires
        disk.wf(),
    ensures
        ({
            let now = run(started(files), disk).files;
            let seen = if path == "ire.json"@ {
                (disk.ire_stat, disk.sections())
            } else if disk.listed().contains(path) {
                ((disk.stat)(path), (disk.read)(path))
            } else {
                (None, None)
            };
            if disk.names is Some && lies_in_resources(path) && !disk.listed().contains(path) {
                !now.contains_key(path)
            } else if seen.0 is Some && seen.1 is Some && !(files.contains_key(path)
                && files[path].mtime == seen.0->0.mtime && files[path].size == seen.0->0.size) {
                now.contains_key(path) && now[path] == (MetaView {
                    mtime: seen.0->0.mtime,
                    size: seen.0->0.size,
                    hash: (disk.hash)(seen.1->0),
                })
            } else {
                now.contains_key(path) == files.contains_key(path) && (files.contains_key(path)
                    ==> now[path] == files[path])
            }
        }),
{
    law_pass_outcome(files, disk);
    lemma_ire_path_is_no_resource();
    if disk.names is Some {
        lemma_resource_paths(disk.names->0, path);
        lemma_resource_paths(disk.names->0, ire_path());
    }
    let known = files_after_ire(files, disk);
    assert(path != ire_path() ==> resource_fresh(known, disk, path) == resource_fresh(
        files,
        disk,
        path,
    ));
}

/// The changes that a pass reports are what it found, in that order, and after that the
/// resources that are gone, each once and no others.
pub proof fn law_reports_hold_what_was_found(pass: PassView, changes: Seq<ChangeView>)
    requires
        reports(pass, changes),
    ensures
        changes.len() == pass.changes.len() + pass.deleted.len(),
        changes.take(pass.changes.len() as int) == pass.changes,
        forall|i: int|
            pass.changes.len() <= i < changes.len() ==> ((#[trigger] changes[i]) matches
                ChangeView::ResourceDeleted(p) && pass.deleted.contains(p)),
        forall|p: Seq<char>| #[trigger]
            pass.deleted.contains(p) ==> changes.skip(pass.changes.len() as int).contains(
                ChangeView::ResourceDeleted(p),
            ),
        forall|i: int, j: int|
            pass.changes.len() <= i < j < changes.len() ==> (#[trigger] changes[i]) != (
            #[trigger] changes[j]),
{
    let gone = choose|gone: Seq<Seq<char>>| #[trigger] reports_with(pass, changes, gone);
    gone.unique_seq_to_set();
    let n = pass.changes.len() as int;
    assert(changes.take(n) =~= pass.changes);
    assert forall|i: int| n <= i < changes.len() implies (#[trigger] changes[i])
        == ChangeView::ResourceDeleted(gone[i - n]) && pass.deleted.contains(gone[i - n]) by {
        assert(gone.to_set().contains(gone[i - n]));
    }
    assert forall|p: Seq<char>| #[trigger] pass.deleted.contains(p) implies changes.skip(
        n,
    ).contains(ChangeView::ResourceDeleted(p)) by {
        assert(gone.to_set().contains(p));
        let k = choose|k: int| 0 <= k < gone.len() && gone[k] == p;
        assert(changes.skip(n)[k] == ChangeView::ResourceDeleted(p));
    }
}

/// A pass emits one event for each change that it found, in that order, and then one for
/// each resource that is gone. The event of a changed `ire.json` carries its notes, focus
/// and ideas as they are; that of a changed resource its path and its text as they are.
pub proof fn law_events_carry_what_was_found(pass: PassView, events: Seq<EventView>)
    requires
        emits(pass, events),
    ensures
        events.len() == pass.changes.len() + pass.deleted.len(),
        forall|i: int|
            0 <= i < pass.changes.len() ==> match #[trigger] pass.changes[i] {
                ChangeView::Ire(c) => events[i] == (EventView::Sections {
                    notes: c.notes,
                    focus: c.focus,
                    ideas: c.ideas,
                }),
                ChangeView::Resource { path, content } => events[i] == (
                EventView::ResourceChanged { source: EventSource::Mutation, path, content }),
                ChangeView::ResourceDeleted(path) => events[i] == (EventView::ResourceDeleted {
                    path,
                }),
            },
        forall|i: int|
            pass.changes.len() <= i < events.len() ==> ((#[trigger] events[i]) matches
                EventView::ResourceDeleted { path } && pass.deleted.contains(path)),
        forall|p: Seq<char>| #[trigger]
            pass.deleted.contains(p) ==> events.contains((EventView::ResourceDeleted { path: p })),
        forall|i: int, j: int|
            pass.changes.len() <= i < j < events.len() ==> (#[trigger] events[i]) != (
            #[trigger] events[j]),
{
    let changes = choose|changes: Seq<ChangeView>| #[trigger]
        reports(pass, changes) && events == changes.map_values(|c: ChangeView| event_of(c));
    law_reports_hold_what_was_found(pass, changes);
    let n = pass.changes.len() as int;
    assert forall|i: int| 0 <= i < n implies #[trigger] pass.changes[i] == changes[i] by {
        assert(changes.take(n)[i] == changes[i]);
    }
    assert forall|i: int| 0 <= i < changes.len() implies #[trigger] events[i] == event_of(
        changes[i],
    ) by {}
    assert forall|p: Seq<char>| #[trigger] pass.deleted.contains(p) implies events.contains(
        (EventView::ResourceDeleted { path: p }),
    ) by {
        let rest = changes.skip(n);
        let k = choose|k: int| 0 <= k < rest.len() && rest[k] == ChangeView::ResourceDeleted(p);
        assert(changes[n + k] == ChangeView::ResourceDeleted(p));
        assert(events[n + k] == (EventView::ResourceDeleted { path: p }));
    }
    assert forall|i: int, j: int| n <= i < j < events.len() implies (#[trigger] events[i]) != (
    #[trigger] events[j]) by {
        assert(changes[i] != changes[j]);
        assert(changes[i] is ResourceDeleted && changes[j] is ResourceDeleted);
    }
}

/// Different contents of `ire.json` give different events, unless they differ in their
/// experiments alone; and so do different resources and different deletions.
pub proof fn law_events_tell_changes_apart(a: ChangeView, b: ChangeView)
    requires
        event_of(a) == event_of(b),
    ensures
        match (a, b) {
            (ChangeView::Ire(c), ChangeView::Ire(d)) => c.notes == d.notes && c.focus == d.focus
                && c.ideas == d.ideas,
            _ => a == b,
        },
{
}

/// A pass goes on only with the answer to its own request: any other reply leaves it as
/// it was, and an answer always takes it further.
pub proof fn law_only_an_answer_moves_a_pass(pass: PassView, reply: ReplyView)
    requires
        pass.wf(),
    ensures
        pass.after(reply) != pass <==> match (pass.request(), reply) {
            (RequestView::StatIre, ReplyView::Stat(_)) => true,
            (RequestView::ReadIre, ReplyView::Parsed(_)) => true,
            (RequestView::ListResources, ReplyView::Listing(_)) => true,
            (RequestView::StatResource(_), ReplyView::Stat(_)) => true,
            (RequestView::ReadResource(_), ReplyView::Text(_)) => true,
            (RequestView::Hash(_), ReplyView::Hash(_)) => true,
            _ => false,
        },
        pass.after(reply).wf(),
{
}

/// A content stands for its four sections as they are.
pub proof fn law_content_stands_for_its_sections(content: IreContent)
    ensures
        content@.notes == content.notes@,
        content@.focus == content.focus@,
        content@.ideas == content.ideas@,
        content@.experiments == content.experiments@,
{
}

/// What is known of a file stands for its modification time, size and hash as they are.
pub proof fn law_metadata_stands_for_itself(meta: FileMeta)
    ensures
        meta@.mtime == meta.mtime,
        meta@.size == meta.size,
        meta@.hash == meta.hash@,
{
}

/// A request stands for what it names: the same kind, with the whole path or text.
pub proof fn law_request_stands_for_what_it_names(request: Request)
    ensures
        match request {
            Request::StatIre => request@ is StatIre,
            Request::ReadIre => request@ is ReadIre,
            Request::ListResources => request@ is ListResources,
            Request::StatResource(path) => request@ == RequestView::StatResource(path@),
            Request::ReadResource(path) => request@ == RequestView::ReadResource(path@),
            Request::Hash(text) => request@ == RequestView::Hash(text@),
            Request::Done => request@ is Done,
        },
{
}

/// A reply stands for all that it brings: time and size, the content, every name of the
/// listing, the whole text, the hash.
pub proof fn law_reply_stands_for_what_it_brings(reply: Reply)
    ensures
        match reply {
            Reply::Stat(gate) => reply@ == ReplyView::Stat(gate),
            Reply::Parsed(None) => reply@ == ReplyView::Parsed(None),
            Reply::Parsed(Some(content)) => reply@ == ReplyView::Parsed(Some(content@)),
            Reply::Listing(None) => reply@ == ReplyView::Listing(None),
            Reply::Listing(Some(names)) => reply@ == ReplyView::Listing(Some(name_views(names@))),
            Reply::Text(None) => reply@ == ReplyView::Text(None),
            Reply::Text(Some(text)) => reply@ == ReplyView::Text(Some(text@)),
            Reply::Hash(hash) => reply@ == ReplyView::Hash(hash@),
        },
{
}

/// A list of names stands for each of its names, in their order.
pub proof fn law_names_stand_one_by_one(names: Seq<Option<String>>)
    ensures
        name_views(names).len() == names.len(),
        forall|i: int|
            #![trigger name_views(names)[i]]
            0 <= i < names.len() ==> {
                &&& names[i] is None ==> name_views(names)[i] is None
                &&& names[i] matches Some(name) ==> name_views(names)[i] == Some(name@)
            },
{
}

/// A change stands for what changed: the whole content of `ire.json`, or the path and
/// the whole text of a resource, or the path of one that is gone.
pub proof fn law_change_stands_for_what_changed(change: Change)
    ensures
        match change {
            Change::Ire(content) => change@ == ChangeView::Ire(content@),
            Change::Resource(resource) => change@ == (ChangeView::Resource {
                path: resource.path@,
                content: resource.content@,
            }),
            Change::ResourceDeleted(path) => change@ == ChangeView::ResourceDeleted(path@),
        },
{
}

/// An event stands for all that it carries.
pub proof fn law_event_stands_for_what_it_carries(event: WorkspaceEvent)
    ensures
        match event {
            WorkspaceEvent::Sections { notes, focus, ideas } => event@ == (EventView::Sections {
                notes: notes@,
                focus: focus@,
                ideas: ideas@,
            }),
            WorkspaceEvent::ResourceChanged { source, resource } => event@ == (
            EventView::ResourceChanged {
                source,
                path: resource.path@,
                content: resource.content@,
            }),
            WorkspaceEvent::ResourceDeleted { path } => event@ == (EventView::ResourceDeleted {
                path: path@,
            }),
        },
{
}

/// Lists of paths, changes and events stand for their items one by one, in their order.
pub proof fn law_lists_stand_for_their_items(
    paths: Seq<String>,
    changes: Seq<Change>,
    events: Seq<WorkspaceEvent>,
)
    ensures
        texts(paths).len() == paths.len(),
        forall|i: int| 0 <= i < paths.len() ==> #[trigger] texts(paths)[i] == paths[i]@,
        change_views(changes).len() == changes.len(),
        forall|i: int|
            0 <= i < changes.len() ==> #[trigger] change_views(changes)[i] == changes[i]@,
        event_views(events).len() == events.len(),
        forall|i: int| 0 <= i < events.len() ==> #[trigger] event_views(events)[i] == events[i]@,
{
}

} // verus!
