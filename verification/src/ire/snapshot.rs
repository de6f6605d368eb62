//! What the previous reconcile pass saw of `.ire/`.
//!
//! Files go by their path from `.ire/`: `ire.json`, and `resources/<name>` for a
//! resource.

use vstd::prelude::*;
use crate::text::{ends_with, has_prefix, has_suffix, starts_with};

verus! {

/// What a `stat` of a file gives: its modification time, in nanoseconds from the
/// Unix epoch, where the filesystem has one, and its size.
#[derive(Debug, Clone, Copy)]
pub struct Gate {
    pub mtime: Option<i128>,
    pub size: u64,
}

/// What a pass saw of one file: the `(mtime, size)` gate plus the hash of the
/// content it read.
#[derive(Debug)]
pub struct FileMeta {
    pub mtime: Option<i128>,
    pub size: u64,
    pub hash: String,
}

/// What a [`FileMeta`] stands for.
pub struct MetaView {
    pub mtime: Option<i128>,
    pub size: u64,
    pub hash: Seq<char>,
}

impl View for FileMeta {
    type V = MetaView;

    open spec fn view(&self) -> MetaView {
        MetaView { mtime: self.mtime, size: self.size, hash: self.hash@ }
    }
}

/// The metadata of a file that has the given gate and content hash.
pub open spec fn meta_of(gate: Gate, hash: Seq<char>) -> MetaView {
    MetaView { mtime: gate.mtime, size: gate.size, hash }
}

/// What is known of each file, by its path.
pub type Files = Map<Seq<char>, MetaView>;

/// Whether a file is known with exactly this modification time and size.
pub open spec fn gate_matches(files: Files, path: Seq<char>, gate: Gate) -> bool {
    files.contains_key(path) && files[path].mtime == gate.mtime && files[path].size == gate.size
}

/// Whether a file is known with this content hash.
pub open spec fn hash_matches(files: Files, path: Seq<char>, hash: Seq<char>) -> bool {
    files.contains_key(path) && files[path].hash == hash
}

/// The path of `ire.json`.
pub open spec fn ire_path() -> Seq<char> {
    "ire.json"@
}

/// The path of the resource with the given file name.
pub open spec fn resource_path(name: Seq<char>) -> Seq<char> {
    "resources/"@ + name
}

/// Whether a path lies in `resources/`.
pub open spec fn in_resources(path: Seq<char>) -> bool {
    has_prefix(path, "resources/"@)
}

/// Whether a file name in `resources/` is that of a resource: `*.md`, skipping
/// `_index.md` and dotfiles.
pub open spec fn is_resource_name(name: Seq<char>) -> bool {
    &&& has_suffix(name, ".md"@)
    &&& name != "_index.md"@
    &&& !has_prefix(name, "."@)
}

/// Whether a file of `resources/` is a resource, by its file name.
pub fn is_resource(name: &str) -> (yes: bool)
    ensures
        yes == is_resource_name(name@),
{
    ends_with(name, ".md") && name.to_string() != "_index.md".to_string() && !starts_with(
        name,
        ".",
    )
}

/// The path of a resource, by its file name.
pub fn rel_resource_path(name: &str) -> (path: String)
    ensures
        path@ == resource_path(name@),
        path@ == "resources/"@ + name@,
{
    let mut path = "resources/".to_string();
    path.append(name);
    path
}

/// `ire.json` does not lie in `resources/`.
pub proof fn lemma_ire_path_is_no_resource()
    ensures
        !in_resources(ire_path()),
{
    reveal_strlit("ire.json");
    reveal_strlit("resources/");
}

/// A resource's path lies in `resources/`, and names its file.
pub proof fn lemma_resource_path(name: Seq<char>)
    ensures
        in_resources(resource_path(name)),
        resource_path(name).skip("resources/"@.len() as int) == name,
{
    assert(resource_path(name).take("resources/"@.len() as int) =~= "resources/"@);
    assert(resource_path(name).skip("resources/"@.len() as int) =~= name);
}

/// Per-file metadata from the last reconcile pass.
#[derive(Debug)]
pub struct IreSnapshot {
    files: Vec<(String, FileMeta)>,
}

/// Whether the entry at `i` is that of `path`.
spec fn entry_at(files: Seq<(String, FileMeta)>, i: int, path: Seq<char>) -> bool {
    0 <= i < files.len() && files[i].0@ == path
}

/// No path has two entries.
spec fn distinct(files: Seq<(String, FileMeta)>) -> bool {
    forall|i: int, j: int| 0 <= i < j < files.len() ==> files[i].0@ != files[j].0@
}

/// The entries as a map.
spec fn files_of(files: Seq<(String, FileMeta)>) -> Files {
    Map::new(
        |path: Seq<char>| exists|i: int| entry_at(files, i, path),
        |path: Seq<char>| files[choose|i: int| entry_at(files, i, path)].1@,
    )
}

/// The entry found under a path is the only one.
proof fn lemma_entry(files: Seq<(String, FileMeta)>, i: int)
    requires
        distinct(files),
        0 <= i < files.len(),
    ensures
        files_of(files).contains_key(files[i].0@),
        files_of(files)[files[i].0@] == files[i].1@,
{
    assert(entry_at(files, i, files[i].0@));
    let k = choose|k: int| entry_at(files, k, files[i].0@);
    assert(k == i);
}

/// A path without an entry is not in the map.
proof fn lemma_no_entry(files: Seq<(String, FileMeta)>, path: Seq<char>)
    requires
        forall|i: int| 0 <= i < files.len() ==> (#[trigger] files[i]).0@ != path,
    ensures
        !files_of(files).contains_key(path),
{
}

/// Replacing the metadata of an entry updates the map.
proof fn lemma_set(files: Seq<(String, FileMeta)>, i: int, entry: (String, FileMeta))
    requires
        distinct(files),
        0 <= i < files.len(),
        entry.0@ == files[i].0@,
    ensures
        distinct(files.update(i, entry)),
        files_of(files.update(i, entry)) == files_of(files).insert(entry.0@, entry.1@),
{
    let after = files.update(i, entry);
    assert(distinct(after));
    assert forall|path: Seq<char>| #[trigger]
        files_of(after).contains_key(path) == files_of(files).insert(
            entry.0@,
            entry.1@,
        ).contains_key(path) by {
        if exists|k: int| entry_at(after, k, path) {
            let k = choose|k: int| entry_at(after, k, path);
            assert(entry_at(files, k, path));
        }
        if exists|k: int| entry_at(files, k, path) {
            let k = choose|k: int| entry_at(files, k, path);
            assert(entry_at(after, k, path));
        }
        assert(entry_at(after, i, entry.0@));
    }
    assert forall|path: Seq<char>| #[trigger] files_of(after).contains_key(path) implies files_of(
        after,
    )[path] == files_of(files).insert(entry.0@, entry.1@)[path] by {
        let k = choose|k: int| entry_at(after, k, path);
        lemma_entry(after, k);
        lemma_entry(files, k);
    }
    assert(files_of(after) =~= files_of(files).insert(entry.0@, entry.1@));
}

/// Adding an entry under a new path adds to the map.
proof fn lemma_push(files: Seq<(String, FileMeta)>, entry: (String, FileMeta))
    requires
        distinct(files),
        forall|i: int| 0 <= i < files.len() ==> (#[trigger] files[i]).0@ != entry.0@,
    ensures
        distinct(files.push(entry)),
        files_of(files.push(entry)) == files_of(files).insert(entry.0@, entry.1@),
{
    let after = files.push(entry);
    assert(distinct(after));
    assert(entry_at(after, files.len() as int, entry.0@));
    assert forall|path: Seq<char>| #[trigger]
        files_of(after).contains_key(path) == files_of(files).insert(
            entry.0@,
            entry.1@,
        ).contains_key(path) by {
        if exists|k: int| entry_at(after, k, path) {
            let k = choose|k: int| entry_at(after, k, path);
            if k < files.len() {
                assert(entry_at(files, k, path));
            }
        }
        if exists|k: int| entry_at(files, k, path) {
            let k = choose|k: int| entry_at(files, k, path);
            assert(entry_at(after, k, path));
        }
    }
    assert forall|path: Seq<char>| #[trigger] files_of(after).contains_key(path) implies files_of(
        after,
    )[path] == files_of(files).insert(entry.0@, entry.1@)[path] by {
        let k = choose|k: int| entry_at(after, k, path);
        lemma_entry(after, k);
        if k < files.len() {
            lemma_entry(files, k);
        }
    }
    assert(files_of(after) =~= files_of(files).insert(entry.0@, entry.1@));
}

/// Taking an entry out takes its path out of the map.
proof fn lemma_remove(files: Seq<(String, FileMeta)>, i: int)
    requires
        distinct(files),
        0 <= i < files.len(),
    ensures
        distinct(files.remove(i)),
        files_of(files.remove(i)) == files_of(files).remove(files[i].0@),
{
    let after = files.remove(i);
    let gone = files[i].0@;
    assert forall|k: int| 0 <= k < after.len() implies #[trigger] after[k] == files[if k < i {
        k
    } else {
        k + 1
    }] by {}
    assert(distinct(after));
    assert forall|path: Seq<char>| #[trigger]
        files_of(after).contains_key(path) == files_of(files).remove(gone).contains_key(path) by {
        if exists|k: int| entry_at(after, k, path) {
            let k = choose|k: int| entry_at(after, k, path);
            let m = if k < i {
                k
            } else {
                k + 1
            };
            assert(after[k] == files[m]);
            assert(entry_at(files, m, path));
        }
        if path != gone && exists|k: int| entry_at(files, k, path) {
            let k = choose|k: int| entry_at(files, k, path);
            let m = if k < i {
                k
            } else {
                k - 1
            };
            assert(after[m] == files[k]);
            assert(entry_at(after, m, path));
        }
    }
    assert forall|path: Seq<char>| #[trigger] files_of(after).contains_key(path) implies files_of(
        after,
    )[path] == files_of(files).remove(gone)[path] by {
        let k = choose|k: int| entry_at(after, k, path);
        lemma_entry(after, k);
        let m = if k < i {
            k
        } else {
            k + 1
        };
        assert(after[k] == files[m]);
        lemma_entry(files, m);
    }
    assert(files_of(after) =~= files_of(files).remove(gone));
}

impl View for IreSnapshot {
    type V = Files;

    closed spec fn view(&self) -> Files {
        files_of(self.files@)
    }
}

/// The resources that are known and not listed.
pub open spec fn unlisted(files: Files, listed: Seq<Seq<char>>) -> Set<Seq<char>> {
    Set::new(
        |path: Seq<char>|
            files.contains_key(path) && in_resources(path) && !listed.contains(path),
    )
}

/// What a list of strings stands for.
pub open spec fn texts(strings: Seq<String>) -> Seq<Seq<char>> {
    strings.map_values(|s: String| s@)
}

/// Whether `path` is among `listed`.
fn contains_path(listed: &Vec<String>, path: &String) -> (yes: bool)
    ensures
        yes == texts(listed@).contains(path@),
{
    let mut i: usize = 0;
    while i < listed.len()
        invariant
            i <= listed@.len(),
            forall|j: int| 0 <= j < i ==> texts(listed@)[j] != path@,
        decreases listed.len() - i,
    {
        if listed[i] == *path {
            assert(texts(listed@)[i as int] == path@);
            return true;
        }
        i = i + 1;
    }
    assert(texts(listed@).len() == listed@.len());
    false
}

impl Default for IreSnapshot {
    /// A snapshot that knows no file.
    fn default() -> (snapshot: Self)
        ensures
            snapshot@ == Files::empty(),
    {
        let snapshot = IreSnapshot { files: Vec::new() };
        assert(snapshot@ =~= Files::empty());
        snapshot
    }
}

impl IreSnapshot {
    /// No file is known twice.
    #[verifier::type_invariant]
    spec fn wf(self) -> bool {
        distinct(self.files@)
    }

    /// The place of a path's entry.
    fn find(&self, path: &str) -> (at: Option<usize>)
        ensures
            distinct(self.files@),
            match at {
                Some(i) => i < self.files@.len() && self.files@[i as int].0@ == path@
                    && self@.contains_key(path@) && self@[path@] == self.files@[i as int].1@,
                None => !self@.contains_key(path@) && forall|i: int|
                    0 <= i < self.files@.len() ==> (#[trigger] self.files@[i]).0@ != path@,
            },
    {
        proof {
            use_type_invariant(self);
        }
        let key = path.to_string();
        let mut i: usize = 0;
        while i < self.files.len()
            invariant
                distinct(self.files@),
                key@ == path@,
                i <= self.files@.len(),
                forall|j: int| 0 <= j < i ==> (#[trigger] self.files@[j]).0@ != path@,
            decreases self.files.len() - i,
        {
            if self.files[i].0 == key {
                proof {
                    lemma_entry(self.files@, i as int);
                }
                return Some(i);
            }
            i = i + 1;
        }
        proof {
            lemma_no_entry(self.files@, path@);
        }
        None
    }

    /// Whether the file is known with exactly this modification time and size, so
    /// that it need not be read.
    pub fn matches_gate(&self, path: &str, mtime: Option<i128>, size: u64) -> (yes: bool)
        ensures
            yes == gate_matches(self@, path@, (Gate { mtime, size })),
            yes <==> self@.contains_key(path@) && self@[path@].mtime == mtime && self@[path@].size
                == size,
    {
        match self.find(path) {
            Some(i) => self.files[i].1.mtime == mtime && self.files[i].1.size == size,
            None => false,
        }
    }

    /// Store what this pass read. Returns whether the content hash is the one
    /// the previous pass already reported.
    pub fn record(&mut self, path: &str, mtime: Option<i128>, size: u64, hash: String) -> (same:
        bool)
        ensures
            final(self)@ == old(self)@.insert(path@, meta_of((Gate { mtime, size }), hash@)),
            same == hash_matches(old(self)@, path@, hash@),
            same <==> old(self)@.contains_key(path@) && old(self)@[path@].hash == hash@,
            final(self)@[path@] == (MetaView { mtime, size, hash: hash@ }),
    {
        let at = self.find(path);
        let mut files: Vec<(String, FileMeta)> = Vec::new();
        std::mem::swap(&mut files, &mut self.files);
        let same = match at {
            Some(i) => {
                let same = files[i].1.hash == hash;
                let entry = (path.to_string(), FileMeta { mtime, size, hash });
                proof {
                    lemma_set(files@, i as int, entry);
                }
                files[i] = entry;
                same
            },
            None => {
                let entry = (path.to_string(), FileMeta { mtime, size, hash });
                proof {
                    lemma_push(files@, entry);
                }
                files.push(entry);
                false
            },
        };
        self.files = files;
        same
    }

    /// Forget the resources that are no longer listed, and return their paths.
    pub fn sweep(&mut self, listed: &Vec<String>) -> (gone: Vec<String>)
        ensures
            final(self)@ == old(self)@.remove_keys(unlisted(old(self)@, texts(listed@))),
            texts(gone@).no_duplicates(),
            texts(gone@).to_set() == unlisted(old(self)@, texts(listed@)),
            forall|p: Seq<char>|
                texts(gone@).contains(p) <==> #[trigger] old(self)@.contains_key(p) && has_prefix(
                    p,
                    "resources/"@,
                ) && !texts(listed@).contains(p),
    {
        proof {
            use_type_invariant(&*self);
        }
        let ghost known = self@;
        let ghost missing = unlisted(known, texts(listed@));
        let mut files: Vec<(String, FileMeta)> = Vec::new();
        std::mem::swap(&mut files, &mut self.files);
        let mut gone: Vec<String> = Vec::new();
        let mut i: usize = 0;
        assert(known.remove_keys(texts(gone@).to_set()) =~= known);
        while i < files.len()
            invariant
                i <= files@.len(),
                distinct(files@),
                missing == unlisted(known, texts(listed@)),
                files_of(files@) == known.remove_keys(texts(gone@).to_set()),
                texts(gone@).no_duplicates(),
                texts(gone@).to_set().subset_of(missing),
                forall|j: int| 0 <= j < i ==> !missing.contains((#[trigger] files@[j]).0@),
            decreases files@.len() - i,
        {
            let ghost path = files@[i as int].0@;
            proof {
                lemma_entry(files@, i as int);
                assert(known.contains_key(path) && !texts(gone@).contains(path));
            }
            if starts_with(files[i].0.as_str(), "resources/") && !contains_path(
                listed,
                &files[i].0,
            ) {
                proof {
                    lemma_remove(files@, i as int);
                }
                let ghost before = texts(gone@);
                let (name, _) = files.remove(i);
                gone.push(name);
                proof {
                    assert(texts(gone@) =~= before.push(path));
                    assert(texts(gone@).to_set() =~= before.to_set().insert(path)) by {
                        assert forall|p: Seq<char>|
                            texts(gone@).contains(p) == (before.contains(p) || p == path) by {
                            if before.contains(p) {
                                let k = choose|k: int| 0 <= k < before.len() && before[k] == p;
                                assert(texts(gone@)[k] == p);
                            }
                            assert(texts(gone@)[before.len() as int] == path);
                        }
                    }
                    assert(files_of(files@) =~= known.remove_keys(texts(gone@).to_set()));
                }
            } else {
                i = i + 1;
            }
        }
        proof {
            assert forall|p: Seq<char>| missing.contains(p) implies texts(
                gone@,
            ).to_set().contains(p) by {
                if !texts(gone@).to_set().contains(p) {
                    assert(files_of(files@).contains_key(p));
                    let k = choose|k: int| entry_at(files@, k, p);
                    assert(!missing.contains(files@[k].0@));
                }
            }
            assert(texts(gone@).to_set() =~= missing);
            assert forall|p: Seq<char>|
                texts(gone@).contains(p) <==> #[trigger] known.contains_key(p) && has_prefix(
                    p,
                    "resources/"@,
                ) && !texts(listed@).contains(p) by {
                assert(texts(gone@).to_set().contains(p) == missing.contains(p));
            }
        }
        self.files = files;
        gone
    }
}

} // verus!
