//! Snapshot store: the file contents that tags stand for.
//!
//! A store keeps, for each path, its last few recorded contents with their tags. The
//! number of paths is bounded; the least recently recorded path goes first.

use vstd::prelude::*;

use crate::format::compute_file_hash;
use crate::text;
use crate::views;

verus! {

broadcast use {crate::views::group_all, crate::views::group_texts};

/// How many paths a store holds.
pub const MAX_PATHS: usize = 30;

/// How many versions of a path a store holds.
pub const MAX_VERSIONS_PER_PATH: usize = 4;

/// A snapshot of a file's content at a point in time.
#[derive(Debug, Clone)]
pub struct Snapshot {
    pub tag: String,
    pub content: String,
    /// Line numbers that were shown to the reader.
    pub seen_lines: Vec<u32>,
}

/// The model of a [`Snapshot`].
#[verifier::ext_equal]
pub struct SnapshotView {
    pub tag: Seq<char>,
    pub content: Seq<char>,
    pub seen_lines: Seq<u32>,
}

impl View for Snapshot {
    type V = SnapshotView;

    open spec fn view(&self) -> SnapshotView {
        SnapshotView { tag: self.tag@, content: self.content@, seen_lines: self.seen_lines@ }
    }
}

/// The versions of one path, most recent first.
#[derive(Debug)]
pub struct PathEntry {
    path: String,
    versions: Vec<Snapshot>,
}

/// The model of a [`PathEntry`].
#[verifier::ext_equal]
pub struct PathEntryView {
    pub path: Seq<char>,
    pub versions: Seq<SnapshotView>,
}

impl View for PathEntry {
    type V = PathEntryView;

    closed spec fn view(&self) -> PathEntryView {
        PathEntryView { path: self.path@, versions: views::all(self.versions@) }
    }
}

/// In-memory snapshot store with least-recently-recorded eviction.
#[derive(Debug)]
pub struct InMemorySnapshotStore {
    entries: Vec<PathEntry>,
    /// Paths in the order of their last recording, most recent last; the first goes first.
    lru: Vec<String>,
}

/// The model of an [`InMemorySnapshotStore`].
#[verifier::ext_equal]
pub struct StoreView {
    pub entries: Seq<PathEntryView>,
    pub lru: Seq<Seq<char>>,
}

impl View for InMemorySnapshotStore {
    type V = StoreView;

    closed spec fn view(&self) -> StoreView {
        StoreView { entries: views::all(self.entries@), lru: views::texts(self.lru@) }
    }
}

// ── Looking things up ────────────────────────────────────────────────────

/// The position of the entry of a path, from `i` on.
pub open spec fn entry_index(entries: Seq<PathEntryView>, path: Seq<char>, i: int) -> int
    decreases entries.len() - i,
{
    if i < 0 || i >= entries.len() || entries[i].path == path {
        i
    } else {
        entry_index(entries, path, i + 1)
    }
}

pub proof fn lemma_entry_index(entries: Seq<PathEntryView>, path: Seq<char>, i: int)
    requires
        0 <= i <= entries.len(),
    ensures
        i <= entry_index(entries, path, i) <= entries.len(),
        entry_index(entries, path, i) < entries.len() ==> entries[entry_index(entries, path, i)].path
            == path,
        forall|j: int|
            i <= j < entry_index(entries, path, i) ==> (#[trigger] entries[j]).path != path,
    decreases entries.len() - i,
{
    if i < entries.len() && entries[i].path != path {
        lemma_entry_index(entries, path, i + 1);
    }
}

/// The store holds the path.
pub open spec fn has_path(entries: Seq<PathEntryView>, path: Seq<char>) -> bool {
    entry_index(entries, path, 0) < entries.len()
}

/// The versions of a path, most recent first; none for a path that is not held.
pub open spec fn versions(entries: Seq<PathEntryView>, path: Seq<char>) -> Seq<SnapshotView> {
    if has_path(entries, path) {
        entries[entry_index(entries, path, 0)].versions
    } else {
        Seq::empty()
    }
}

/// The position of the version with a tag, from `i` on.
pub open spec fn tag_index(vs: Seq<SnapshotView>, tag: Seq<char>, i: int) -> int
    decreases vs.len() - i,
{
    if i < 0 || i >= vs.len() || vs[i].tag == tag {
        i
    } else {
        tag_index(vs, tag, i + 1)
    }
}

/// One of the versions has the tag.
pub open spec fn has_tag(vs: Seq<SnapshotView>, tag: Seq<char>) -> bool {
    tag_index(vs, tag, 0) < vs.len()
}

/// The version of a path with a tag.
pub open spec fn tagged(st: StoreView, path: Seq<char>, tag: Seq<char>) -> Option<SnapshotView> {
    let vs = versions(st.entries, path);
    if has_tag(vs, tag) {
        Some(vs[tag_index(vs, tag, 0)])
    } else {
        None
    }
}

/// The most recent version of a path.
pub open spec fn head_of(st: StoreView, path: Seq<char>) -> Option<SnapshotView> {
    let vs = versions(st.entries, path);
    if vs.len() > 0 {
        Some(vs[0])
    } else {
        None
    }
}

/// The paths that have a version with a tag, in the order of the entries.
pub open spec fn paths_with(entries: Seq<PathEntryView>, tag: Seq<char>) -> Seq<Seq<char>>
    decreases entries.len(),
{
    if entries.len() == 0 {
        Seq::empty()
    } else {
        let rest = paths_with(entries.drop_last(), tag);
        if has_tag(entries.last().versions, tag) {
            rest.push(entries.last().path)
        } else {
            rest
        }
    }
}

/// The model of an optional reference to a snapshot.
pub open spec fn opt_snapshot(o: Option<&Snapshot>) -> Option<SnapshotView> {
    match o {
        Some(s) => Some(s@),
        None => None,
    }
}

fn find_entry(entries: &[PathEntry], path: &str) -> (r: usize)
    ensures
        r == entry_index(views::all(entries@), path@, 0),
        r <= entries@.len(),
{
    let ghost ve = views::all(entries@);
    let mut i: usize = 0;
    while i < entries.len() && !text::same(entries[i].path.as_str(), path)
        invariant
            ve == views::all(entries@),
            i <= entries@.len(),
            entry_index(ve, path@, i as int) == entry_index(ve, path@, 0),
        decreases entries@.len() - i,
    {
        assert(ve[i as int] == entries@[i as int]@);
        i = i + 1;
    }
    proof {
        if i < entries@.len() {
            assert(ve[i as int] == entries@[i as int]@);
        }
    }
    i
}

fn find_tag(versions: &[Snapshot], tag: &str) -> (r: usize)
    ensures
        r == tag_index(views::all(versions@), tag@, 0),
        r <= versions@.len(),
{
    let ghost vv = views::all(versions@);
    let mut i: usize = 0;
    while i < versions.len() && !text::same(versions[i].tag.as_str(), tag)
        invariant
            vv == views::all(versions@),
            i <= versions@.len(),
            tag_index(vv, tag@, i as int) == tag_index(vv, tag@, 0),
        decreases versions@.len() - i,
    {
        assert(vv[i as int] == versions@[i as int]@);
        i = i + 1;
    }
    proof {
        if i < versions@.len() {
            assert(vv[i as int] == versions@[i as int]@);
        }
    }
    i
}

// ── Changing the store ───────────────────────────────────────────────────

/// The entries without that of a path.
pub open spec fn without_path(entries: Seq<PathEntryView>, path: Seq<char>) -> Seq<PathEntryView> {
    let k = entry_index(entries, path, 0);
    if k < entries.len() {
        entries.remove(k)
    } else {
        entries
    }
}

/// The entries with `vs` as the versions of a path.
pub open spec fn put(
    entries: Seq<PathEntryView>,
    path: Seq<char>,
    vs: Seq<SnapshotView>,
) -> Seq<PathEntryView> {
    let k = entry_index(entries, path, 0);
    if k < entries.len() {
        entries.update(k, PathEntryView { path, versions: vs })
    } else {
        entries.push(PathEntryView { path, versions: vs })
    }
}

/// A list of paths without one of them.
pub open spec fn without_name(names: Seq<Seq<char>>, path: Seq<char>) -> Seq<Seq<char>>
    decreases names.len(),
{
    if names.len() == 0 {
        Seq::empty()
    } else {
        let rest = without_name(names.drop_last(), path);
        if names.last() == path {
            rest
        } else {
            rest.push(names.last())
        }
    }
}

/// The store with room for one more path: the least recently recorded paths go.
pub open spec fn with_room(st: StoreView) -> StoreView
    decreases st.lru.len(),
{
    if st.entries.len() >= MAX_PATHS && st.lru.len() > 0 {
        with_room(
            StoreView {
                entries: without_path(st.entries, st.lru[0]),
                lru: st.lru.skip(1),
            },
        )
    } else {
        st
    }
}

/// The versions with a content on top: a version with the same tag is moved there and
/// keeps its seen lines, otherwise a new version is added and the oldest may go.
pub open spec fn with_version(
    vs: Seq<SnapshotView>,
    tag: Seq<char>,
    content: Seq<char>,
) -> Seq<SnapshotView> {
    let k = tag_index(vs, tag, 0);
    if k < vs.len() {
        seq![SnapshotView { tag, content, seen_lines: vs[k].seen_lines }] + vs.remove(k)
    } else {
        let all = seq![SnapshotView { tag, content, seen_lines: Seq::empty() }] + vs;
        if all.len() > MAX_VERSIONS_PER_PATH {
            all.take(MAX_VERSIONS_PER_PATH as int)
        } else {
            all
        }
    }
}

/// The store once a content with a tag is recorded for a path, which is the most recent
/// one then.
pub open spec fn recorded(
    st: StoreView,
    path: Seq<char>,
    content: Seq<char>,
    tag: Seq<char>,
) -> StoreView {
    let room = if has_path(st.entries, path) {
        st
    } else {
        with_room(st)
    };
    let vs = versions(room.entries, path);
    StoreView {
        entries: put(room.entries, path, with_version(vs, tag, content)),
        lru: without_name(room.lru, path).push(path),
    }
}

/// The store without a path.
pub open spec fn invalidated(st: StoreView, path: Seq<char>) -> StoreView {
    StoreView { entries: without_path(st.entries, path), lru: without_name(st.lru, path) }
}

/// The store with the seen lines of one version replaced.
pub open spec fn with_seen(
    st: StoreView,
    path: Seq<char>,
    tag: Seq<char>,
    lines: Seq<u32>,
) -> StoreView {
    let vs = versions(st.entries, path);
    let k = tag_index(vs, tag, 0);
    if has_path(st.entries, path) && k < vs.len() {
        StoreView {
            entries: put(
                st.entries,
                path,
                vs.update(k, SnapshotView { seen_lines: lines, ..vs[k] }),
            ),
            ..st
        }
    } else {
        st
    }
}

/// The store with the history of one path moved to another.
pub open spec fn relocated(st: StoreView, from: Seq<char>, to: Seq<char>) -> StoreView {
    StoreView {
        entries: if has_path(st.entries, from) {
            put(without_path(st.entries, from), to, versions(st.entries, from))
        } else {
            st.entries
        },
        lru: st.lru.map_values(
            |p: Seq<char>|
                if p == from {
                    to
                } else {
                    p
                },
        ),
    }
}

fn remove_name(names: &mut Vec<String>, path: &str)
    ensures
        views::texts(final(names)@) == without_name(views::texts(old(names)@), path@),
{
    let ghost start = views::texts(names@);
    let mut kept: Vec<String> = Vec::new();
    for i in 0..names.len()
        invariant
            start == views::texts(names@),
            views::texts(kept@) == without_name(start.take(i as int), path@),
    {
        proof {
            views::lemma_take_step(start, i as int);
            assert(start[i as int] == names@[i as int]@);
        }
        if !text::same(names[i].as_str(), path) {
            kept.push(names[i].clone());
        }
    }
    proof {
        views::lemma_take_all(start);
    }
    *names = kept;
}

fn remove_entry(entries: &mut Vec<PathEntry>, path: &str) -> (r: Option<PathEntry>)
    ensures
        views::all(final(entries)@) == without_path(views::all(old(entries)@), path@),
        match r {
            Some(e) => has_path(views::all(old(entries)@), path@) && e@.versions == versions(
                views::all(old(entries)@),
                path@,
            ),
            None => !has_path(views::all(old(entries)@), path@),
        },
{
    let ghost ve = views::all(entries@);
    let k: usize = find_entry(entries.as_slice(), path);
    if k < entries.len() {
        assert(ve[k as int] == entries@[k as int]@);
        let e = entries.remove(k);
        proof {
            assert(views::all(entries@) =~= ve.remove(k as int));
        }
        Some(e)
    } else {
        None
    }
}

fn put_versions(entries: &mut Vec<PathEntry>, path: &str, vs: Vec<Snapshot>)
    ensures
        views::all(final(entries)@) == put(views::all(old(entries)@), path@, views::all(vs@)),
{
    let k: usize = find_entry(entries.as_slice(), path);
    let entry = PathEntry { path: text::owned(path), versions: vs };
    if k < entries.len() {
        entries.set(k, entry);
    } else {
        entries.push(entry);
    }
}

fn add_version(vs: Vec<Snapshot>, tag: &str, content: &str) -> (r: Vec<Snapshot>)
    ensures
        views::all(r@) == with_version(views::all(vs@), tag@, content@),
{
    let mut vs = vs;
    let ghost vv = views::all(vs@);
    let k: usize = find_tag(vs.as_slice(), tag);
    if k < vs.len() {
        assert(vv[k as int] == vs@[k as int]@);
        let old_version = vs.remove(k);
        let snap = Snapshot {
            tag: text::owned(tag),
            content: text::owned(content),
            seen_lines: old_version.seen_lines,
        };
        let ghost sv = snap@;
        vs.insert(0, snap);
        proof {
            assert(views::all(vs@) =~= seq![sv] + vv.remove(k as int));
        }
    } else {
        let snap = Snapshot {
            tag: text::owned(tag),
            content: text::owned(content),
            seen_lines: Vec::new(),
        };
        let ghost sv = snap@;
        vs.insert(0, snap);
        proof {
            assert(sv.seen_lines =~= Seq::empty());
            assert(views::all(vs@) =~= seq![sv] + vv);
        }
        if vs.len() > MAX_VERSIONS_PER_PATH {
            let ghost all = views::all(vs@);
            vs.truncate(MAX_VERSIONS_PER_PATH);
            proof {
                assert(views::all(vs@) =~= all.take(MAX_VERSIONS_PER_PATH as int));
            }
        }
    }
    vs
}

impl InMemorySnapshotStore {
    pub fn new() -> (r: Self)
        ensures
            r@.entries == Seq::<PathEntryView>::empty(),
            r@.lru == Seq::<Seq<char>>::empty(),
    {
        InMemorySnapshotStore { entries: Vec::new(), lru: Vec::new() }
    }

    fn make_room(&mut self)
        ensures
            final(self)@ == with_room(old(self)@),
    {
        let ghost start = self@;
        while self.entries.len() >= MAX_PATHS && self.lru.len() > 0
            invariant
                with_room(self@) == with_room(start),
            decreases self.lru@.len(),
        {
            let ghost before = self@;
            let oldest = self.lru.remove(0);
            proof {
                assert(views::texts(self.lru@) =~= before.lru.skip(1));
                assert(before.lru[0] == oldest@);
                assert(before.entries.len() == self.entries@.len());
            }
            let _ = remove_entry(&mut self.entries, oldest.as_str());
        }
        proof {
            assert(self@.entries.len() == self.entries@.len());
            assert(self@.lru.len() == self.lru@.len());
        }
    }

    /// Record file content and return its tag.
    pub fn record(&mut self, path: &str, content: &str) -> (r: String)
        ensures
            r@ == crate::format::tag(content@),
            final(self)@ == recorded(old(self)@, path@, content@, r@),
    {
        let tag = compute_file_hash(content);
        let ghost start = self@;
        let known = find_entry(self.entries.as_slice(), path) < self.entries.len();
        assert(start.entries.len() == self.entries@.len());
        if !known {
            self.make_room();
        }
        let ghost room = self@;
        proof {
            assert(room.entries.len() == self.entries@.len());
        }
        let k: usize = find_entry(self.entries.as_slice(), path);
        let ghost vs = versions(room.entries, path@);
        if k < self.entries.len() {
            assert(room.entries[k as int] == self.entries@[k as int]@);
            let entry = self.entries.remove(k);
            assert(vs.len() == entry.versions@.len());
            let next = add_version(entry.versions, tag.as_str(), content);
            self.entries.insert(k, PathEntry { path: text::owned(path), versions: next });
            proof {
                assert(views::all(self.entries@) =~= put(room.entries, path@, views::all(next@)));
            }
        } else {
            let none: Vec<Snapshot> = Vec::new();
            proof {
                assert(views::all(none@) =~= Seq::empty());
            }
            let next = add_version(none, tag.as_str(), content);
            self.entries.push(PathEntry { path: text::owned(path), versions: next });
        }
        remove_name(&mut self.lru, path);
        self.lru.push(text::owned(path));
        tag
    }

    /// Check if a tag is a known snapshot for this path.
    pub fn verify(&self, path: &str, tag: &str) -> (r: bool)
        ensures
            r == has_tag(versions(self@.entries, path@), tag@),
    {
        self.by_tag(path, tag).is_some()
    }

    /// Get the most recent tag for a path.
    pub fn current_tag(&self, path: &str) -> (r: Option<&str>)
        ensures
            match (r, head_of(self@, path@)) {
                (Some(a), Some(b)) => a@ == b.tag,
                (None, None) => true,
                _ => false,
            },
    {
        match self.head(path) {
            Some(s) => Some(s.tag.as_str()),
            None => None,
        }
    }

    /// Look up a snapshot by tag.
    pub fn by_tag(&self, path: &str, tag: &str) -> (r: Option<&Snapshot>)
        ensures
            opt_snapshot(r) == tagged(self@, path@, tag@),
    {
        let k: usize = find_entry(self.entries.as_slice(), path);
        assert(self@.entries.len() == self.entries@.len());
        if k >= self.entries.len() {
            return None;
        }
        let entry = &self.entries[k];
        assert(self@.entries[k as int] == entry@);
        let j: usize = find_tag(entry.versions.as_slice(), tag);
        assert(entry@.versions.len() == entry.versions@.len());
        if j >= entry.versions.len() {
            return None;
        }
        assert(entry@.versions[j as int] == entry.versions@[j as int]@);
        Some(&entry.versions[j])
    }

    /// Find all paths that have a version with the given tag.
    pub fn find_by_tag(&self, tag: &str) -> (r: Vec<&str>)
        ensures
            views::strs(r@) == paths_with(self@.entries, tag@),
    {
        let ghost ve = self@.entries;
        let mut out: Vec<&str> = Vec::new();
        assert(views::strs(out@) =~= Seq::empty());
        for i in 0..self.entries.len()
            invariant
                ve == views::all(self.entries@),
                views::strs(out@) == paths_with(ve.take(i as int), tag@),
        {
            let entry = &self.entries[i];
            proof {
                views::lemma_take_step(ve, i as int);
                assert(ve[i as int] == entry@);
                assert(entry@.versions.len() == entry.versions@.len());
            }
            if find_tag(entry.versions.as_slice(), tag) < entry.versions.len() {
                let ghost before = out@;
                out.push(entry.path.as_str());
                proof {
                    assert(views::strs(out@) =~= views::strs(before).push(entry@.path));
                }
            }
        }
        proof {
            views::lemma_take_all(ve);
        }
        out
    }

    /// Invalidate all snapshots for a path.
    pub fn invalidate(&mut self, path: &str)
        ensures
            final(self)@ == invalidated(old(self)@, path@),
    {
        let _ = remove_entry(&mut self.entries, path);
        remove_name(&mut self.lru, path);
    }

    /// Clear all snapshots.
    pub fn clear(&mut self)
        ensures
            final(self)@.entries == Seq::<PathEntryView>::empty(),
            final(self)@.lru == Seq::<Seq<char>>::empty(),
    {
        self.entries = Vec::new();
        self.lru = Vec::new();
    }

    /// Look up a snapshot by hash tag (alias for by_tag).
    pub fn by_hash(&self, path: &str, tag: &str) -> (r: Option<&Snapshot>)
        ensures
            opt_snapshot(r) == tagged(self@, path@, tag@),
    {
        self.by_tag(path, tag)
    }

    /// Find all paths that have a version with the given hash tag (alias for
    /// find_by_tag).
    pub fn find_by_hash(&self, tag: &str) -> (r: Vec<&str>)
        ensures
            views::strs(r@) == paths_with(self@.entries, tag@),
    {
        self.find_by_tag(tag)
    }

    /// Get the most recent (head) snapshot for a path.
    pub fn head(&self, path: &str) -> (r: Option<&Snapshot>)
        ensures
            opt_snapshot(r) == head_of(self@, path@),
    {
        let k: usize = find_entry(self.entries.as_slice(), path);
        assert(self@.entries.len() == self.entries@.len());
        if k >= self.entries.len() {
            return None;
        }
        let entry = &self.entries[k];
        assert(self@.entries[k as int] == entry@);
        assert(entry@.versions.len() == entry.versions@.len());
        if entry.versions.len() == 0 {
            return None;
        }
        assert(entry@.versions[0] == entry.versions@[0]@);
        Some(&entry.versions[0])
    }

    /// Look up a snapshot by content hash.
    pub fn by_content(&self, path: &str, content: &str) -> (r: Option<&Snapshot>)
        ensures
            opt_snapshot(r) == tagged(self@, path@, crate::format::tag(content@)),
    {
        let tag = compute_file_hash(content);
        self.by_tag(path, tag.as_str())
    }

    /// Record which lines were shown to the reader of a given snapshot.
    pub fn record_seen_lines(&mut self, path: &str, tag: &str, lines: Vec<u32>)
        ensures
            final(self)@ == with_seen(old(self)@, path@, tag@, lines@),
    {
        let ghost start = self@;
        let k: usize = find_entry(self.entries.as_slice(), path);
        assert(start.entries.len() == self.entries@.len());
        if k >= self.entries.len() {
            return;
        }
        proof {
            assert(start.entries[k as int] == self.entries@[k as int]@);
            lemma_entry_index(start.entries, path@, 0);
        }
        let entry = self.entries.remove(k);
        let ghost vs = views::all(entry.versions@);
        let mut held = entry.versions;
        let j: usize = find_tag(held.as_slice(), tag);
        assert(vs.len() == held@.len());
        if j < held.len() {
            assert(vs[j as int] == held@[j as int]@);
            let snap = held.remove(j);
            let changed = Snapshot { tag: snap.tag, content: snap.content, seen_lines: lines };
            let ghost cv = changed@;
            held.insert(j, changed);
            proof {
                assert(views::all(held@) =~= vs.update(j as int, cv));
            }
        }
        let ghost now = views::all(held@);
        self.entries.insert(k, PathEntry { path: entry.path, versions: held });
        proof {
            if now == vs {
                assert(views::all(self.entries@) =~= start.entries);
            }
            assert(views::all(self.entries@) =~= put(start.entries, path@, now));
        }
    }

    /// Get the seen lines for a snapshot.
    pub fn get_seen_lines(&self, path: &str, tag: &str) -> (r: Option<&Vec<u32>>)
        ensures
            match (r, tagged(self@, path@, tag@)) {
                (Some(a), Some(b)) => a@ == b.seen_lines,
                (None, None) => true,
                _ => false,
            },
    {
        match self.by_tag(path, tag) {
            Some(s) => Some(&s.seen_lines),
            None => None,
        }
    }

    /// Move version history and read provenance from one path to another.
    pub fn relocate(&mut self, old_path: &str, new_path: &str)
        ensures
            final(self)@ == relocated(old(self)@, old_path@, new_path@),
    {
        let ghost start = self@;
        match remove_entry(&mut self.entries, old_path) {
            Some(entry) => {
                put_versions(&mut self.entries, new_path, entry.versions);
            },
            None => {
                assert(self@.entries == start.entries);
            },
        }
        let ghost goal = relocated(start, old_path@, new_path@).lru;
        let mut names: Vec<String> = Vec::new();
        for i in 0..self.lru.len()
            invariant
                start.lru == views::texts(self.lru@),
                goal == relocated(start, old_path@, new_path@).lru,
                views::texts(names@) == goal.take(i as int),
        {
            proof {
                views::lemma_take_step(goal, i as int);
                assert(start.lru[i as int] == self.lru@[i as int]@);
            }
            if text::same(self.lru[i].as_str(), old_path) {
                names.push(text::owned(new_path));
            } else {
                names.push(self.lru[i].clone());
            }
        }
        proof {
            views::lemma_take_all(goal);
        }
        self.lru = names;
    }
}

impl Default for InMemorySnapshotStore {
    fn default() -> (r: Self)
        ensures
            r@.entries == Seq::<PathEntryView>::empty(),
            r@.lru == Seq::<Seq<char>>::empty(),
    {
        InMemorySnapshotStore::new()
    }
}

/// What a snapshot store must offer (allows alternative implementations).
pub trait SnapshotStoreTrait: Send + Sync {
    /// The tag names a content recorded for the path.
    spec fn knows(&self, path: Seq<char>, tag: Seq<char>) -> bool;

    /// The tag recorded last for the path.
    spec fn latest(&self, path: Seq<char>) -> Option<Seq<char>>;

    /// Record file content and return its tag.
    fn record(&mut self, path: &str, content: &str) -> (r: String)
        ensures
            final(self).knows(path@, r@),
            final(self).latest(path@) == Some(r@),
    ;

    /// Check if a tag is a known snapshot for this path.
    fn verify(&self, path: &str, tag: &str) -> (r: bool)
        ensures
            r == self.knows(path@, tag@),
    ;

    /// Get the most recent tag for a path.
    fn current_tag(&self, path: &str) -> (r: Option<String>)
        ensures
            views::opt_text(r) == self.latest(path@),
    ;
}

impl SnapshotStoreTrait for InMemorySnapshotStore {
    open spec fn knows(&self, path: Seq<char>, tag: Seq<char>) -> bool {
        tagged(self@, path, tag) is Some
    }

    open spec fn latest(&self, path: Seq<char>) -> Option<Seq<char>> {
        match head_of(self@, path) {
            Some(s) => Some(s.tag),
            None => None,
        }
    }

    fn record(&mut self, path: &str, content: &str) -> (r: String)
        ensures
            r@ == crate::format::tag(content@),
            final(self)@ == recorded(old(self)@, path@, content@, r@),
    {
        let ghost st = self@;
        let tag = InMemorySnapshotStore::record(self, path, content);
        proof {
            law_recorded(st, path@, content@, tag@);
        }
        tag
    }

    fn verify(&self, path: &str, tag: &str) -> (r: bool) {
        InMemorySnapshotStore::verify(self, path, tag)
    }

    fn current_tag(&self, path: &str) -> (r: Option<String>) {
        match self.head(path) {
            Some(s) => Some(s.tag.clone()),
            None => None,
        }
    }
}

// ── Laws ─────────────────────────────────────────────────────────────────

proof fn lemma_index_free(entries: Seq<PathEntryView>, path: Seq<char>, i: int)
    requires
        0 <= i <= entries.len(),
        forall|j: int| i <= j < entries.len() ==> (#[trigger] entries[j]).path != path,
    ensures
        entry_index(entries, path, i) == entries.len(),
    decreases entries.len() - i,
{
    if i < entries.len() {
        lemma_index_free(entries, path, i + 1);
    }
}

proof fn lemma_index_at(entries: Seq<PathEntryView>, path: Seq<char>, k: int, i: int)
    requires
        0 <= i <= k < entries.len(),
        entries[k].path == path,
        forall|j: int| i <= j < k ==> (#[trigger] entries[j]).path != path,
    ensures
        entry_index(entries, path, i) == k,
    decreases k - i,
{
    if i < k {
        lemma_index_at(entries, path, k, i + 1);
    }
}

/// What is put for a path is found for it, and other paths keep what they had.
pub proof fn law_put(
    entries: Seq<PathEntryView>,
    path: Seq<char>,
    vs: Seq<SnapshotView>,
    other: Seq<char>,
)
    ensures
        has_path(put(entries, path, vs), path),
        versions(put(entries, path, vs), path) == vs,
        other != path ==> versions(put(entries, path, vs), other) == versions(entries, other),
        other != path ==> has_path(put(entries, path, vs), other) == has_path(entries, other),
{
    let after = put(entries, path, vs);
    lemma_entry_index(entries, path, 0);
    let k = entry_index(entries, path, 0);
    assert forall|j: int| 0 <= j < k implies (#[trigger] after[j]).path != path by {
        assert(after[j] == entries[j]);
    }
    lemma_index_at(after, path, k, 0);
    if other != path {
        lemma_entry_index(entries, other, 0);
        let m = entry_index(entries, other, 0);
        assert forall|j: int| 0 <= j < m implies (#[trigger] after[j]).path != other by {
            if j != k {
                assert(after[j] == entries[j]);
            }
        }
        if m < entries.len() {
            assert(after[m] == entries[m]);
            lemma_index_at(after, other, m, 0);
        } else {
            assert forall|j: int| 0 <= j < after.len() implies (#[trigger] after[j]).path != other by {
                if j != k {
                    assert(after[j] == entries[j]);
                }
            }
            lemma_index_free(after, other, 0);
        }
    }
}

/// A recorded content is found again under its path and tag, and is the most recent
/// version of its path. The path is the last that has to go.
pub proof fn law_recorded(st: StoreView, path: Seq<char>, content: Seq<char>, tag: Seq<char>)
    ensures
        tagged(recorded(st, path, content, tag), path, tag) matches Some(s) && s.content == content
            && s.tag == tag,
        head_of(recorded(st, path, content, tag), path) == tagged(
            recorded(st, path, content, tag),
            path,
            tag,
        ),
        recorded(st, path, content, tag).lru.last() == path,
{
    let room = if has_path(st.entries, path) {
        st
    } else {
        with_room(st)
    };
    let vs = versions(room.entries, path);
    let next = with_version(vs, tag, content);
    law_put(room.entries, path, next, path);
    assert(next[0].tag == tag);
    assert(tag_index(next, tag, 0) == 0);
}

proof fn lemma_index_removed(entries: Seq<PathEntryView>, path: Seq<char>, other: Seq<char>)
    requires
        other != path,
    ensures
        versions(without_path(entries, path), other) == versions(entries, other),
        has_path(without_path(entries, path), other) == has_path(entries, other),
{
    let after = without_path(entries, path);
    lemma_entry_index(entries, path, 0);
    lemma_entry_index(entries, other, 0);
    let k = entry_index(entries, path, 0);
    let m = entry_index(entries, other, 0);
    if k < entries.len() {
        if m < entries.len() {
            let t = if m < k {
                m
            } else {
                m - 1
            };
            assert forall|j: int| 0 <= j < t implies (#[trigger] after[j]).path != other by {
                if j < k {
                    assert(after[j] == entries[j]);
                } else {
                    assert(after[j] == entries[j + 1]);
                }
            }
            assert(after[t] == entries[m]);
            lemma_index_at(after, other, t, 0);
        } else {
            assert forall|j: int| 0 <= j < after.len() implies (#[trigger] after[j]).path != other by {
                if j < k {
                    assert(after[j] == entries[j]);
                } else {
                    assert(after[j] == entries[j + 1]);
                }
            }
            lemma_index_free(after, other, 0);
        }
    }
}

/// A well-kept store: no path occurs twice, every path is in the order of recordings,
/// and the bounds on paths and versions hold. Every version's tag is that of its
/// content, and no path has two versions with one tag.
pub open spec fn well_kept(st: StoreView) -> bool {
    &&& st.entries.len() <= MAX_PATHS
    &&& forall|i: int, j: int|
        0 <= i < j < st.entries.len() ==> (#[trigger] st.entries[i]).path != (
        #[trigger] st.entries[j]).path
    &&& forall|i: int|
        0 <= i < st.entries.len() ==> st.lru.contains((#[trigger] st.entries[i]).path)
    &&& forall|i: int| 0 <= i < st.entries.len() ==> good_versions((#[trigger] st.entries[i]).versions)
}

/// See [`well_kept`].
pub open spec fn good_versions(vs: Seq<SnapshotView>) -> bool {
    &&& vs.len() <= MAX_VERSIONS_PER_PATH
    &&& forall|i: int| 0 <= i < vs.len() ==> (#[trigger] vs[i]).tag == crate::format::tag(vs[i].content)
    &&& forall|i: int, j: int|
        0 <= i < j < vs.len() ==> (#[trigger] vs[i]).tag != (#[trigger] vs[j]).tag
}

proof fn lemma_tag_index(vs: Seq<SnapshotView>, tag: Seq<char>, i: int)
    requires
        0 <= i <= vs.len(),
    ensures
        i <= tag_index(vs, tag, i) <= vs.len(),
        tag_index(vs, tag, i) < vs.len() ==> vs[tag_index(vs, tag, i)].tag == tag,
        forall|j: int| i <= j < tag_index(vs, tag, i) ==> (#[trigger] vs[j]).tag != tag,
    decreases vs.len() - i,
{
    if i < vs.len() && vs[i].tag != tag {
        lemma_tag_index(vs, tag, i + 1);
    }
}

proof fn lemma_good_with_version(vs: Seq<SnapshotView>, content: Seq<char>)
    requires
        good_versions(vs),
    ensures
        good_versions(with_version(vs, crate::format::tag(content), content)),
{
    let tag = crate::format::tag(content);
    let next = with_version(vs, tag, content);
    lemma_tag_index(vs, tag, 0);
    let k = tag_index(vs, tag, 0);
    if k < vs.len() {
        assert forall|j: int| 1 <= j < next.len() implies #[trigger] next[j] == (if j - 1 < k {
            vs[j - 1]
        } else {
            vs[j]
        }) by {}
        assert forall|i: int, j: int| 0 <= i < j < next.len() implies (#[trigger] next[i]).tag != (
        #[trigger] next[j]).tag by {
            if i == 0 {
                if j - 1 >= k {
                    assert(vs[k].tag != vs[j].tag);
                }
            }
        }
    } else {
        assert forall|j: int| 1 <= j < next.len() implies #[trigger] next[j] == vs[j - 1] by {}
    }
}

proof fn lemma_without_name(names: Seq<Seq<char>>, path: Seq<char>, other: Seq<char>)
    requires
        other != path,
        names.contains(other),
    ensures
        without_name(names, path).contains(other),
    decreases names.len(),
{
    let rest = names.drop_last();
    let w = without_name(rest, path);
    if names.last() == other {
        assert(w.push(other)[w.len() as int] == other);
    } else {
        let k = choose|k: int| 0 <= k < names.len() && names[k] == other;
        assert(rest[k] == other);
        lemma_without_name(rest, path, other);
        let j = choose|j: int| 0 <= j < w.len() && w[j] == other;
        assert(w.push(names.last())[j] == other);
    }
}

proof fn lemma_well_kept_removed(st: StoreView, path: Seq<char>, lru: Seq<Seq<char>>)
    requires
        well_kept(st),
        forall|q: Seq<char>| q != path && st.lru.contains(q) ==> #[trigger] lru.contains(q),
    ensures
        well_kept(StoreView { entries: without_path(st.entries, path), lru }),
        !has_path(without_path(st.entries, path), path),
        has_path(st.entries, path) ==> without_path(st.entries, path).len() == st.entries.len() - 1,
{
    let after = without_path(st.entries, path);
    lemma_entry_index(st.entries, path, 0);
    let k = entry_index(st.entries, path, 0);
    assert forall|i: int| 0 <= i < after.len() implies #[trigger] after[i] == st.entries[if i < k {
        i
    } else {
        i + 1
    }] by {}
    assert forall|i: int| 0 <= i < after.len() implies (#[trigger] after[i]).path != path
        && lru.contains(after[i].path) && good_versions(after[i].versions) by {
        let e = if i < k {
            st.entries[i]
        } else {
            st.entries[i + 1]
        };
        assert(after[i] == e);
        if i < k {
            assert(e.path != path);
        } else {
            assert(st.entries[k].path != st.entries[i + 1].path);
        }
        assert(st.lru.contains(e.path));
    }
    lemma_index_free(after, path, 0);
}

proof fn lemma_with_room_kept(st: StoreView)
    requires
        well_kept(st),
    ensures
        well_kept(with_room(st)),
        with_room(st).entries.len() < MAX_PATHS,
        forall|q: Seq<char>|
            !has_path(st.entries, q) ==> !has_path(#[trigger] with_room(st).entries, q),
    decreases st.lru.len(),
{
    if st.entries.len() >= MAX_PATHS {
        assert(st.lru.contains(st.entries[0].path));
        let first = st.lru[0];
        let next = StoreView {
            entries: without_path(st.entries, first),
            lru: st.lru.skip(1),
        };
        assert forall|q: Seq<char>| q != first && st.lru.contains(q) implies
            #[trigger] next.lru.contains(q) by {
            let k = choose|k: int| 0 <= k < st.lru.len() && st.lru[k] == q;
            assert(next.lru[k - 1] == q);
        }
        lemma_well_kept_removed(st, first, next.lru);
        lemma_with_room_kept(next);
        assert forall|q: Seq<char>| !has_path(st.entries, q) implies !has_path(
            #[trigger] with_room(st).entries,
            q,
        ) by {
            if q == first {
                assert(!has_path(next.entries, q));
            } else {
                lemma_index_removed(st.entries, first, q);
                assert(!has_path(next.entries, q));
            }
        }
    }
}

proof fn lemma_well_kept_put(
    st: StoreView,
    path: Seq<char>,
    vs: Seq<SnapshotView>,
    lru: Seq<Seq<char>>,
)
    requires
        well_kept(st),
        has_path(st.entries, path) || st.entries.len() < MAX_PATHS,
        good_versions(vs),
        lru.contains(path),
        forall|q: Seq<char>| q != path && st.lru.contains(q) ==> #[trigger] lru.contains(q),
    ensures
        well_kept(StoreView { entries: put(st.entries, path, vs), lru }),
{
    let after = put(st.entries, path, vs);
    lemma_entry_index(st.entries, path, 0);
    let k = entry_index(st.entries, path, 0);
    assert forall|i: int| 0 <= i < after.len() && i != k implies #[trigger] after[i]
        == st.entries[i] by {}
    assert(after[k] == (PathEntryView { path, versions: vs }));
    assert forall|i: int| 0 <= i < after.len() implies lru.contains((#[trigger] after[i]).path)
        && good_versions(after[i].versions) by {
        if i != k {
            assert(st.lru.contains(st.entries[i].path));
        }
    }
    assert forall|i: int, j: int| 0 <= i < j < after.len() implies (#[trigger] after[i]).path != (
    #[trigger] after[j]).path by {
        if i != k && j != k {
            assert(st.entries[i].path != st.entries[j].path);
        } else if i == k {
            if k < st.entries.len() {
                assert(st.entries[k].path != st.entries[j].path);
            }
        } else {
            assert(st.entries[i].path != path);
        }
    }
}

/// A new store is well kept.
pub proof fn law_new_kept(st: StoreView)
    requires
        st.entries.len() == 0,
    ensures
        well_kept(st),
{
}

/// Recording keeps a store well kept: at most thirty paths, at most four versions of
/// each, and every tag names its content.
pub proof fn law_record_kept(st: StoreView, path: Seq<char>, content: Seq<char>)
    requires
        well_kept(st),
    ensures
        well_kept(recorded(st, path, content, crate::format::tag(content))),
{
    let tag = crate::format::tag(content);
    let room = if has_path(st.entries, path) {
        st
    } else {
        with_room(st)
    };
    if !has_path(st.entries, path) {
        lemma_with_room_kept(st);
    }
    let vs = versions(room.entries, path);
    lemma_entry_index(room.entries, path, 0);
    if has_path(room.entries, path) {
        assert(good_versions(room.entries[entry_index(room.entries, path, 0)].versions));
    }
    lemma_good_with_version(vs, content);
    let after = recorded(st, path, content, tag);
    let w = without_name(room.lru, path);
    assert(after.lru[w.len() as int] == path);
    assert forall|q: Seq<char>| q != path && room.lru.contains(q) implies
        #[trigger] after.lru.contains(q) by {
        lemma_without_name(room.lru, path, q);
        let j = choose|j: int| 0 <= j < w.len() && w[j] == q;
        assert(after.lru[j] == q);
    }
    lemma_well_kept_put(room, path, with_version(vs, tag, content), after.lru);
}

/// Invalidating a path keeps a store well kept, forgets every tag of the path, and
/// leaves the other paths as they are.
pub proof fn law_invalidate_kept(st: StoreView, path: Seq<char>, tag: Seq<char>, other: Seq<char>)
    requires
        well_kept(st),
    ensures
        well_kept(invalidated(st, path)),
        tagged(invalidated(st, path), path, tag) is None,
        other != path ==> versions(invalidated(st, path).entries, other) == versions(
            st.entries,
            other,
        ),
{
    assert forall|q: Seq<char>| q != path && st.lru.contains(q) implies
        #[trigger] without_name(st.lru, path).contains(q) by {
        lemma_without_name(st.lru, path, q);
    }
    lemma_well_kept_removed(st, path, without_name(st.lru, path));
    if other != path {
        lemma_index_removed(st.entries, path, other);
    }
}

/// Recording seen lines keeps a store well kept.
pub proof fn law_seen_kept(st: StoreView, path: Seq<char>, tag: Seq<char>, lines: Seq<u32>)
    requires
        well_kept(st),
    ensures
        well_kept(with_seen(st, path, tag, lines)),
{
    let vs = versions(st.entries, path);
    let k = tag_index(vs, tag, 0);
    if has_path(st.entries, path) && k < vs.len() {
        lemma_tag_index(vs, tag, 0);
        lemma_entry_index(st.entries, path, 0);
        let next = vs.update(k, SnapshotView { seen_lines: lines, ..vs[k] });
        assert forall|i: int| 0 <= i < next.len() implies (#[trigger] next[i]).tag == vs[i].tag
            && next[i].content == vs[i].content by {}
        assert forall|i: int, j: int| 0 <= i < j < next.len() implies (#[trigger] next[i]).tag != (
        #[trigger] next[j]).tag by {
            assert(vs[i].tag != vs[j].tag);
        }
        assert(good_versions(next));
        assert(st.lru.contains(st.entries[entry_index(st.entries, path, 0)].path));
        lemma_well_kept_put(st, path, next, st.lru);
    }
}

/// Moving the history of a path keeps a store well kept, and the history is found under
/// the new path.
pub proof fn law_relocate_kept(st: StoreView, from: Seq<char>, to: Seq<char>)
    requires
        well_kept(st),
    ensures
        well_kept(relocated(st, from, to)),
        has_path(st.entries, from) ==> versions(relocated(st, from, to).entries, to) == versions(
            st.entries,
            from,
        ),
{
    let after = relocated(st, from, to);
    let names = after.lru;
    assert forall|q: Seq<char>| q != from && st.lru.contains(q) implies #[trigger] names.contains(
        q,
    ) by {
        let k = choose|k: int| 0 <= k < st.lru.len() && st.lru[k] == q;
        assert(names[k] == q);
    }
    lemma_well_kept_removed(st, from, names);
    if has_path(st.entries, from) {
        lemma_entry_index(st.entries, from, 0);
        let k = entry_index(st.entries, from, 0);
        assert(st.lru.contains(st.entries[k].path));
        let m = choose|m: int| 0 <= m < st.lru.len() && st.lru[m] == from;
        assert(names[m] == to);
        let mid = StoreView { entries: without_path(st.entries, from), lru: names };
        lemma_well_kept_put(mid, to, versions(st.entries, from), names);
        law_put(mid.entries, to, versions(st.entries, from), to);
    } else {
        assert(after.entries == st.entries);
        assert forall|i: int| 0 <= i < after.entries.len() implies names.contains(
            (#[trigger] after.entries[i]).path,
        ) by {
            lemma_entry_index(st.entries, from, 0);
            assert(st.entries[i].path != from);
            assert(st.lru.contains(st.entries[i].path));
        }
    }
}

/// A version stands at the first place that bears its tag.
proof fn lemma_tag_at(vs: Seq<SnapshotView>, tag: Seq<char>, k: int, i: int)
    requires
        0 <= i <= k < vs.len(),
        vs[k].tag == tag,
        forall|j: int| i <= j < k ==> (#[trigger] vs[j]).tag != tag,
    ensures
        tag_index(vs, tag, i) == k,
    decreases k - i,
{
    if i < k {
        lemma_tag_at(vs, tag, k, i + 1);
    }
}

proof fn lemma_tag_absent(vs: Seq<SnapshotView>, tag: Seq<char>, i: int)
    requires
        0 <= i <= vs.len(),
        forall|j: int| i <= j < vs.len() ==> (#[trigger] vs[j]).tag != tag,
    ensures
        tag_index(vs, tag, i) == vs.len(),
    decreases vs.len() - i,
{
    if i < vs.len() {
        lemma_tag_absent(vs, tag, i + 1);
    }
}

/// Recording a content leaves the other paths alone, while there is room for the path. Of the
/// same path, a version under another tag stays as it is while there is room for it; and
/// recording a content again keeps what was seen of it.
pub proof fn law_recording_keeps(
    st: StoreView,
    path: Seq<char>,
    content: Seq<char>,
    tag: Seq<char>,
    other: Seq<char>,
    old_tag: Seq<char>,
)
    requires
        has_path(st.entries, path) || st.entries.len() < MAX_PATHS,
    ensures
        other != path ==> tagged(recorded(st, path, content, tag), other, old_tag) == tagged(
            st,
            other,
            old_tag,
        ),
        old_tag != tag && (tagged(st, path, tag) is Some || versions(st.entries, path).len()
            < MAX_VERSIONS_PER_PATH) ==> tagged(recorded(st, path, content, tag), path, old_tag)
            == tagged(st, path, old_tag),
        tagged(st, path, tag) matches Some(s) ==> tagged(
            recorded(st, path, content, tag),
            path,
            tag,
        ) == Some(SnapshotView { tag, content, seen_lines: s.seen_lines }),
        tagged(st, path, tag) is None ==> tagged(recorded(st, path, content, tag), path, tag)
            == Some(SnapshotView { tag, content, seen_lines: Seq::empty() }),
{
    let vs = versions(st.entries, path);
    let next = with_version(vs, tag, content);
    let k = tag_index(vs, tag, 0);
    lemma_tag_index(vs, tag, 0);
    law_put(st.entries, path, next, other);
    law_put(st.entries, path, next, path);
    assert(next[0].tag == tag);
    lemma_tag_at(next, tag, 0, 0);
    if old_tag != tag && (k < vs.len() || vs.len() < MAX_VERSIONS_PER_PATH) {
        let m = tag_index(vs, old_tag, 0);
        lemma_tag_index(vs, old_tag, 0);
        if k < vs.len() {
            assert forall|j: int| 1 <= j < next.len() implies #[trigger] next[j] == (if j - 1 < k {
                vs[j - 1]
            } else {
                vs[j]
            }) by {}
            if m < vs.len() {
                let at = if m < k {
                    m + 1
                } else {
                    m
                };
                assert(next[at] == vs[m]);
                lemma_tag_at(next, old_tag, at, 0);
            } else {
                lemma_tag_absent(next, old_tag, 0);
            }
        } else {
            assert forall|j: int| 1 <= j < next.len() implies #[trigger] next[j] == vs[j - 1] by {}
            if m < vs.len() {
                assert(next[m + 1] == vs[m]);
                lemma_tag_at(next, old_tag, m + 1, 0);
            } else {
                lemma_tag_absent(next, old_tag, 0);
            }
        }
    }
}

/// What was seen is noted with the version that it was seen of: the version is otherwise
/// unchanged, and so is every other one, of this path and of others.
pub proof fn law_seen_noted(
    st: StoreView,
    path: Seq<char>,
    tag: Seq<char>,
    lines: Seq<u32>,
    other: Seq<char>,
    other_tag: Seq<char>,
)
    ensures
        tagged(with_seen(st, path, tag, lines), path, tag) == (match tagged(st, path, tag) {
            Some(s) => Some(SnapshotView { tag: s.tag, content: s.content, seen_lines: lines }),
            None => None,
        }),
        other != path || other_tag != tag ==> tagged(
            with_seen(st, path, tag, lines),
            other,
            other_tag,
        ) == tagged(st, other, other_tag),
{
    let vs = versions(st.entries, path);
    let k = tag_index(vs, tag, 0);
    lemma_tag_index(vs, tag, 0);
    if has_path(st.entries, path) && k < vs.len() {
        let next = vs.update(k, SnapshotView { seen_lines: lines, ..vs[k] });
        law_put(st.entries, path, next, other);
        law_put(st.entries, path, next, path);
        assert forall|j: int| 0 <= j < next.len() implies (#[trigger] next[j]).tag == vs[j].tag by {}
        lemma_tag_at(next, tag, k, 0);
        if other_tag != tag {
            let m = tag_index(vs, other_tag, 0);
            lemma_tag_index(vs, other_tag, 0);
            if m < vs.len() {
                lemma_tag_at(next, other_tag, m, 0);
            } else {
                lemma_tag_absent(next, other_tag, 0);
            }
        }
    }
}

/// A file that moves takes its versions along; other files keep theirs.
pub proof fn law_relocation(
    st: StoreView,
    from: Seq<char>,
    to: Seq<char>,
    other: Seq<char>,
    tag: Seq<char>,
)
    requires
        well_kept(st),
        has_path(st.entries, from),
        from != to,
    ensures
        tagged(relocated(st, from, to), to, tag) == tagged(st, from, tag),
        tagged(relocated(st, from, to), from, tag) is None,
        other != from && other != to ==> tagged(relocated(st, from, to), other, tag) == tagged(
            st,
            other,
            tag,
        ),
{
    let rest = without_path(st.entries, from);
    let vs = versions(st.entries, from);
    lemma_path_dropped(st, from, to);
    lemma_path_dropped(st, from, other);
    law_put(rest, to, vs, other);
    law_put(rest, to, vs, from);
    assert(tag_index(Seq::<SnapshotView>::empty(), tag, 0) == 0);
}

/// A path that is dropped is gone, and no other one is.
proof fn lemma_path_dropped(st: StoreView, path: Seq<char>, other: Seq<char>)
    requires
        well_kept(st),
    ensures
        !has_path(without_path(st.entries, path), path),
        other != path ==> versions(without_path(st.entries, path), other) == versions(
            st.entries,
            other,
        ),
        other != path ==> has_path(without_path(st.entries, path), other) == has_path(
            st.entries,
            other,
        ),
{
    let entries = st.entries;
    let k = entry_index(entries, path, 0);
    let rest = without_path(entries, path);
    lemma_entry_index(entries, path, 0);
    if k < entries.len() {
        assert forall|j: int| 0 <= j < rest.len() implies #[trigger] rest[j] == (if j < k {
            entries[j]
        } else {
            entries[j + 1]
        }) by {}
        assert forall|j: int| 0 <= j < rest.len() implies (#[trigger] rest[j]).path != path by {
            if j >= k {
                assert(entries[k].path != entries[j + 1].path);
            }
        }
        lemma_index_free(rest, path, 0);
    }
    if other != path {
        lemma_index_removed(entries, path, other);
    }
}

/// Forgetting a path forgets all its versions and nothing else.
pub proof fn law_forgotten(st: StoreView, path: Seq<char>, other: Seq<char>, tag: Seq<char>)
    requires
        well_kept(st),
    ensures
        tagged(invalidated(st, path), path, tag) is None,
        head_of(invalidated(st, path), path) is None,
        other != path ==> tagged(invalidated(st, path), other, tag) == tagged(st, other, tag),
{
    lemma_path_dropped(st, path, other);
    assert(tag_index(Seq::<SnapshotView>::empty(), tag, 0) == 0);
}

/// A store that is full makes room for a new path by forgetting the one that was recorded
/// longest ago, and no other.
pub proof fn law_oldest_goes(
    st: StoreView,
    path: Seq<char>,
    content: Seq<char>,
    tag: Seq<char>,
    other: Seq<char>,
    other_tag: Seq<char>,
)
    requires
        well_kept(st),
        !has_path(st.entries, path),
        st.entries.len() == MAX_PATHS,
        st.lru.len() > 0,
        has_path(st.entries, st.lru[0]),
    ensures
        st.lru[0] != path ==> tagged(recorded(st, path, content, tag), st.lru[0], other_tag) is None,
        other != path && other != st.lru[0] ==> tagged(
            recorded(st, path, content, tag),
            other,
            other_tag,
        ) == tagged(st, other, other_tag),
{
    let oldest = st.lru[0];
    let room = StoreView { entries: without_path(st.entries, oldest), lru: st.lru.skip(1) };
    lemma_entry_index(st.entries, oldest, 0);
    assert(room.entries.len() == MAX_PATHS - 1);
    assert(with_room(room) == room);
    assert(with_room(st) == room);
    lemma_path_dropped(st, oldest, other);
    let vs = versions(room.entries, path);
    let next = with_version(vs, tag, content);
    law_put(room.entries, path, next, other);
    law_put(room.entries, path, next, oldest);
    assert(tag_index(Seq::<SnapshotView>::empty(), other_tag, 0) == 0);
}

} // verus!
