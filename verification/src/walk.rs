//! Walking a directory tree in search of files that may have duplicates.

use crate::duplicates::{
    breath_after, breathe_after_node, no_stats, pruned, should_prune_dir, Breath, Bucket,
    CacheKeyView, CandidateFile, CandidateView, DuplicateFileView, DuplicateHashCacheKey,
    DuplicateScanStats, FileIdentity, FileIdentityView, Timestamp, SCAN_SLEEP_NODES,
    SCAN_YIELD_NODES,
};
use crate::natural::{
    lemma_natural_order_antisymmetric, lemma_natural_order_transitive, natural_compare,
    natural_order,
};
use crate::order::{is_stable_sort, stable_sort, Order, SortItem};
use crate::path::{
    components, path_bytes, relative_to, shown_text, text_to_show, FilePath,
};
use crate::platform::Platform;
use crate::size_groups::{are_shared_sizes, SizeGroups};
use crate::text::{
    concat, forward_slashes, lowercase, lowercase_text, with_forward_slashes,
};
use std::collections::VecDeque;
use vstd::prelude::*;

verus! {

pub const DUPLICATE_NODE_VISIT_LIMIT: usize = 5000000;

#[derive(Clone, Copy, PartialEq, Eq, Structural, Debug)]
pub enum EntryKind {
    Directory,
    Symlink,
    File,
    Other,
}

/// What the system says of a file. `place` is its device and file number, where
/// the system has these.
#[derive(Clone, Copy, PartialEq, Eq, Structural, Debug)]
pub struct FileFacts {
    pub size: u64,
    pub modified: Option<Timestamp>,
    pub changed: Option<Timestamp>,
    pub place: Option<FilePlace>,
}

#[derive(Clone, Copy, PartialEq, Eq, Structural, Debug)]
pub struct FilePlace {
    pub dev: u64,
    pub ino: u64,
}

/// An entry of a directory. The kind and the facts are absent where they could
/// not be read.
#[derive(Debug)]
pub struct DirEntry {
    pub path: FilePath,
    pub name: Vec<u8>,
    pub hidden: bool,
    pub kind: Option<EntryKind>,
    pub facts: Option<FileFacts>,
}

pub ghost struct DirEntryView {
    pub path: Seq<u8>,
    pub name: Seq<u8>,
    pub hidden: bool,
    pub kind: Option<EntryKind>,
    pub facts: Option<FileFacts>,
}

impl View for DirEntry {
    type V = DirEntryView;

    open spec fn view(&self) -> DirEntryView {
        DirEntryView {
            path: self.path@,
            name: self.name@,
            hidden: self.hidden,
            kind: self.kind,
            facts: self.facts,
        }
    }
}

/// What a remembered digest of a file would be valid for.
pub open spec fn cache_key_of(path: Seq<u8>, facts: FileFacts) -> CacheKeyView {
    CacheKeyView {
        identity: match facts.place {
            Some(place) => FileIdentityView::Unix { dev: place.dev, ino: place.ino },
            None => FileIdentityView::Path(components(path)),
        },
        size: facts.size,
        modified: facts.modified,
        changed: facts.changed,
    }
}

pub fn duplicate_hash_cache_key(path: &FilePath, facts: &FileFacts) -> (r: DuplicateHashCacheKey)
    ensures
        r@ == cache_key_of(path@, *facts),
{
    DuplicateHashCacheKey {
        identity: duplicate_hash_cache_identity(path, facts),
        size: facts.size,
        modified: facts.modified,
        changed: facts.changed,
    }
}

pub fn duplicate_hash_cache_identity(path: &FilePath, facts: &FileFacts) -> (r: FileIdentity)
    ensures
        r@ == cache_key_of(path@, *facts).identity,
{
    match facts.place {
        Some(place) => FileIdentity::Unix { dev: place.dev, ino: place.ino },
        None => FileIdentity::Path(path.copy()),
    }
}

/// A directory that is still to be walked, with the name it is ordered by.
#[derive(Debug)]
pub struct DirNode {
    pub name_key: String,
    pub path: FilePath,
}

impl SortItem for DirNode {
    open spec fn at_most(a: DirNode, b: DirNode) -> bool {
        natural_order(a.name_key@, b.name_key@) != Order::Greater
    }

    proof fn lemma_total(a: DirNode, b: DirNode) {
        lemma_natural_order_antisymmetric(a.name_key@, b.name_key@);
        lemma_natural_order_antisymmetric(b.name_key@, a.name_key@);
    }

    proof fn lemma_transitive(a: DirNode, b: DirNode, c: DirNode) {
        lemma_natural_order_transitive(a.name_key@, b.name_key@, c.name_key@);
    }

    fn is_at_most(&self, other: &DirNode) -> (r: bool) {
        natural_compare(self.name_key.as_str(), other.name_key.as_str()) != Order::Greater
    }
}

/// The names and paths of directories.
pub open spec fn nodes_view(nodes: Seq<DirNode>) -> Seq<(Seq<char>, Seq<u8>)> {
    nodes.map_values(|n: DirNode| (n.name_key@, n.path@))
}

pub open spec fn node_paths(nodes: Seq<DirNode>) -> Seq<Seq<u8>> {
    nodes.map_values(|n: DirNode| n.path@)
}

/// A walk through a directory tree: which directories are still to be read, the
/// subdirectories of the one being read, and the files found.
pub struct Walk {
    pub cwd: FilePath,
    /// Whose paths are walked.
    pub platform: Platform,
    pub show_hidden: bool,
    pub queue: VecDeque<FilePath>,
    pub nodes: Vec<DirNode>,
    pub groups: SizeGroups,
    pub stats: DuplicateScanStats,
}

#[verifier::ext_equal]
pub ghost struct WalkView {
    pub cwd: Seq<u8>,
    pub platform: Platform,
    pub show_hidden: bool,
    pub queue: Seq<Seq<u8>>,
    pub nodes: Seq<(Seq<char>, Seq<u8>)>,
    pub found: Seq<CandidateView>,
    pub stats: DuplicateScanStats,
}

impl View for Walk {
    type V = WalkView;

    open spec fn view(&self) -> WalkView {
        WalkView {
            cwd: self.cwd@,
            platform: self.platform,
            show_hidden: self.show_hidden,
            queue: path_bytes(self.queue@),
            nodes: nodes_view(self.nodes@),
            found: self.groups@,
            stats: self.stats,
        }
    }
}

/// A file below a directory as a candidate.
pub open spec fn candidate_of(
    path: Seq<u8>,
    name: Seq<u8>,
    relative: Seq<u8>,
    facts: FileFacts,
    platform: Platform,
) -> CandidateView {
    CandidateView {
        file: DuplicateFileView {
            path,
            name: shown_text(name, platform),
            relative: forward_slashes(shown_text(relative, platform)),
            size: facts.size,
            modified: facts.modified,
        },
        cache_key: Some(cache_key_of(path, facts)),
    }
}

/// The name by which a directory is ordered and left out.
pub open spec fn name_key(name: Seq<u8>, platform: Platform) -> Seq<char> {
    lowercase_text(shown_text(name, platform))
}

/// What a walk is after it came across an entry. Hidden entries and those of
/// unknown kind do not count; directories are kept for later unless they are
/// left out by name; of the rest only files that are not empty matter.
pub open spec fn after_entry(w: WalkView, entry: DirEntryView) -> WalkView {
    if (entry.hidden && !w.show_hidden) || entry.kind is None {
        w
    } else {
        let counted = DuplicateScanStats {
            visited_nodes: (w.stats.visited_nodes + 1) as usize,
            ..w.stats
        };
        match entry.kind->0 {
            EntryKind::Directory => WalkView {
                stats: counted,
                nodes: if pruned(name_key(entry.name, w.platform)) {
                    w.nodes
                } else {
                    w.nodes.push((name_key(entry.name, w.platform), entry.path))
                },
                ..w
            },
            EntryKind::File => match entry.facts {
                Some(facts) => if facts.size == 0 {
                    WalkView { stats: counted, ..w }
                } else {
                    WalkView {
                        stats: DuplicateScanStats {
                            scanned_files: (w.stats.scanned_files + 1) as usize,
                            ..counted
                        },
                        found: match relative_to(entry.path, w.cwd) {
                            Some(relative) => w.found.push(
                                candidate_of(
                                    entry.path,
                                    entry.name,
                                    relative,
                                    facts,
                                    w.platform,
                                ),
                            ),
                            None => w.found,
                        },
                        ..w
                    }
                },
                None => WalkView { stats: counted, ..w },
            },
            _ => WalkView { stats: counted, ..w },
        }
    }
}

/// Whether as many entries were counted as are allowed.
pub open spec fn at_limit(w: WalkView) -> bool {
    w.stats.visited_nodes >= DUPLICATE_NODE_VISIT_LIMIT
}

/// Whether there is a directory to read next.
pub open spec fn opens_directory(w: WalkView, canceled: bool) -> bool {
    w.queue.len() > 0 && !canceled && !at_limit(w)
}

/// What a walk is after it was asked for the directory to read next.
pub open spec fn after_next(w: WalkView, canceled: bool) -> WalkView {
    if w.queue.len() == 0 {
        w
    } else {
        WalkView {
            queue: w.queue.drop_first(),
            stats: if !canceled && at_limit(w) {
                DuplicateScanStats { node_limit_reached: true, ..w.stats }
            } else {
                w.stats
            },
            ..w
        }
    }
}

/// What a walk is after it was handed an entry, or one that could not be read.
pub open spec fn after_visit(
    w: WalkView,
    canceled: bool,
    entry: Option<DirEntryView>,
) -> WalkView {
    if canceled || at_limit(w) {
        WalkView {
            stats: DuplicateScanStats {
                node_limit_reached: w.stats.node_limit_reached || at_limit(w),
                ..w.stats
            },
            ..w
        }
    } else {
        match entry {
            Some(entry) => after_entry(w, entry),
            None => w,
        }
    }
}

/// Whether the subdirectories that a walk came across were put in line, in
/// natural order of their names.
pub open spec fn put_in_line(before: WalkView, after: WalkView) -> bool {
    exists|nodes: Seq<DirNode>, sorted: Seq<DirNode>| #[trigger]
        is_stable_sort(nodes, sorted) && nodes_view(nodes) == before.nodes && after == (WalkView {
            queue: before.queue + node_paths(sorted),
            nodes: Seq::empty(),
            ..before
        })
}

/// An entry, if it could be read.
pub open spec fn entry_view(entry: Option<DirEntry>) -> Option<DirEntryView> {
    match entry {
        Some(entry) => Some(entry@),
        None => None,
    }
}

/// Whether to go on with the directory that is being read, and how long to pause
/// before that.
#[derive(Clone, Copy, PartialEq, Eq, Structural, Debug)]
pub enum Visit {
    Stop,
    Next(Breath),
}

impl Walk {
    /// No more entries were counted than allowed, every file found was counted,
    /// is not empty and lies below the directory where the walk began.
    pub open spec fn wf(&self) -> bool {
        &&& self.groups.wf()
        &&& self@.sound()
    }

    pub fn new(cwd: &FilePath, show_hidden: bool, platform: Platform) -> (r: Walk)
        ensures
            r.wf(),
            r@ == (WalkView {
                cwd: cwd@,
                platform,
                show_hidden,
                queue: seq![cwd@],
                nodes: Seq::empty(),
                found: Seq::empty(),
                stats: no_stats(),
            }),
    {
        let mut queue: VecDeque<FilePath> = VecDeque::new();
        queue.push_back(cwd.copy());
        let walk: Walk = Walk {
            cwd: cwd.copy(),
            platform,
            show_hidden,
            queue,
            nodes: Vec::new(),
            groups: SizeGroups::new(),
            stats: DuplicateScanStats::default(),
        };
        assert(walk@.queue =~= seq![cwd@]);
        assert(walk@.nodes =~= Seq::<(Seq<char>, Seq<u8>)>::empty());
        walk
    }

    /// The directory to read next. There is none when all were read, when the
    /// walk was canceled, or when too many entries were counted.
    pub fn next_directory(&mut self, canceled: bool) -> (r: Option<FilePath>)
        requires
            old(self).wf(),
        ensures
            final(self).wf(),
            final(self)@ == after_next(old(self)@, canceled),
            r is Some <==> opens_directory(old(self)@, canceled),
            r is Some ==> r->0@ == old(self)@.queue[0],
    {
        let ghost before = self@;
        match self.queue.pop_front() {
            None => None,
            Some(dir) => {
                assert(self@.queue =~= before.queue.drop_first());
                if canceled {
                    return None;
                }
                if self.stats.visited_nodes >= DUPLICATE_NODE_VISIT_LIMIT {
                    self.stats.node_limit_reached = true;
                    return None;
                }
                Some(dir)
            },
        }
    }

    /// What a directory that could not be read means: the search fails where it
    /// is the one that the walk began with, else it is passed over.
    pub fn directory_unreadable(&self, dir: &FilePath) -> (r: Result<(), String>)
        ensures
            r is Err <==> components(dir@) == components(self.cwd@),
            r is Err ==> r->Err_0@ == "failed to read "@ + shown_text(
                self.cwd@,
                self.platform,
            ),
    {
        if dir.same_path(&self.cwd) {
            let place: String = self.cwd.display(self.platform);
            Err(concat("failed to read ", place.as_str()))
        } else {
            Ok(())
        }
    }

    /// Takes in an entry of the directory that is being read; `None` stands for
    /// one that could not be read.
    pub fn visit(&mut self, canceled: bool, entry: Option<DirEntry>) -> (r: Visit)
        requires
            old(self).wf(),
        ensures
            final(self).wf(),
            final(self)@ == after_visit(old(self)@, canceled, entry_view(entry)),
            r == Visit::Stop <==> canceled || old(self)@.stats.visited_nodes >= 5000000,
            r == Visit::Next(Breath::Sleep) ==> final(self)@.stats.visited_nodes % 16384 == 0,
            r == Visit::Next(Breath::Yield) ==> final(self)@.stats.visited_nodes % 512 == 0,
            r == if canceled || at_limit(old(self)@) {
                Visit::Stop
            } else {
                Visit::Next(
                    if final(self)@.stats.visited_nodes == old(self)@.stats.visited_nodes {
                        Breath::NoPause
                    } else {
                        breath_after(
                            final(self)@.stats.visited_nodes as int,
                            SCAN_SLEEP_NODES as int,
                            SCAN_YIELD_NODES as int,
                        )
                    },
                )
            },
    {
        if canceled || self.stats.visited_nodes >= DUPLICATE_NODE_VISIT_LIMIT {
            self.stats.node_limit_reached = self.stats.node_limit_reached
                || self.stats.visited_nodes >= DUPLICATE_NODE_VISIT_LIMIT;
            return Visit::Stop;
        }
        let entry: DirEntry = match entry {
            Some(entry) => entry,
            None => return Visit::Next(Breath::NoPause),
        };
        if !self.show_hidden && entry.hidden {
            return Visit::Next(Breath::NoPause);
        }
        let kind: EntryKind = match entry.kind {
            Some(kind) => kind,
            None => return Visit::Next(Breath::NoPause),
        };
        let name: String = text_to_show(entry.name.as_slice(), self.platform);
        let ghost before = self@;
        self.stats.visited_nodes = self.stats.visited_nodes + 1;
        let breath: Breath = breathe_after_node(self.stats.visited_nodes);
        match kind {
            EntryKind::Directory => {
                let name_key: String = lowercase(name.as_str());
                if !should_prune_dir(name_key.as_str()) {
                    let ghost nodes = self.nodes@;
                    self.nodes.push(DirNode { name_key, path: entry.path });
                    assert(self@.nodes =~= before.nodes.push((name_key@, entry.path@)));
                }
            },
            EntryKind::File => if let Some(facts) = entry.facts {
                if facts.size > 0 {
                    self.stats.scanned_files = self.stats.scanned_files + 1;
                    self.keep(entry.path, name, &facts);
                }
            },
            _ => {},
        }
        Visit::Next(breath)
    }

    fn keep(&mut self, path: FilePath, name: String, facts: &FileFacts)
        requires
            old(self).groups.wf(),
        ensures
            final(self).groups.wf(),
            final(self)@ == (WalkView {
                found: match relative_to(path@, old(self)@.cwd) {
                    Some(relative) => old(self)@.found.push(
                        CandidateView {
                            file: DuplicateFileView {
                                path: path@,
                                name: name@,
                                relative: forward_slashes(
                                    shown_text(relative, old(self)@.platform),
                                ),
                                size: facts.size,
                                modified: facts.modified,
                            },
                            cache_key: Some(cache_key_of(path@, *facts)),
                        },
                    ),
                    None => old(self)@.found,
                },
                ..old(self)@
            }),
    {
        if let Some(below) = path.strip_prefix(&self.cwd) {
            let shown: String = below.display(self.platform);
            let relative: String = with_forward_slashes(shown.as_str());
            let cache_key: DuplicateHashCacheKey = duplicate_hash_cache_key(&path, facts);
            self.groups.push(
                CandidateFile {
                    path,
                    name,
                    relative,
                    size: facts.size,
                    modified: facts.modified,
                    cache_key: Some(cache_key),
                },
            );
        }
    }

    /// Ends a directory: its subdirectories are put in line behind those that
    /// are waiting, in natural order of their names.
    pub fn finish_directory(&mut self)
        requires
            old(self).wf(),
        ensures
            final(self).wf(),
            put_in_line(old(self)@, final(self)@),
    {
        let ghost before = self@;
        let ghost nodes = self.nodes@;
        let mut taken: Vec<DirNode> = Vec::new();
        std::mem::swap(&mut taken, &mut self.nodes);
        let sorted: Vec<DirNode> = stable_sort(taken);
        let mut i: usize = 0;
        assert(node_paths(sorted@.take(0)) =~= Seq::<Seq<u8>>::empty());
        assert(self@.queue =~= before.queue + node_paths(sorted@.take(0)));
        while i < sorted.len()
            invariant
                i <= sorted@.len(),
                self.groups.wf(),
                self.nodes@.len() == 0,
                self@.cwd == before.cwd,
                self@.platform == before.platform,
                self@.show_hidden == before.show_hidden,
                self@.found == before.found,
                self@.stats == before.stats,
                self@.queue == before.queue + node_paths(sorted@.take(i as int)),
            decreases sorted@.len() - i,
        {
            let ghost old_queue = self@.queue;
            self.queue.push_back(sorted[i].path.copy());
            proof {
                assert(self@.queue =~= old_queue.push(sorted@[i as int].path@));
                assert(node_paths(sorted@.take(i + 1)) =~= node_paths(sorted@.take(i as int)).push(
                    sorted@[i as int].path@,
                ));
            }
            i = i + 1;
        }
        proof {
            assert(sorted@.take(sorted@.len() as int) =~= sorted@);
            assert(self@.nodes =~= Seq::<(Seq<char>, Seq<u8>)>::empty());
            assert(is_stable_sort(nodes, sorted@));
            assert(self@ =~= (WalkView {
                queue: before.queue + node_paths(sorted@),
                nodes: Seq::empty(),
                ..before
            }));
        }
    }

    /// Ends the walk: the files of every size that several files share.
    pub fn finish(self) -> (r: (Vec<Bucket>, DuplicateScanStats))
        requires
            self.wf(),
        ensures
            are_shared_sizes(r.0@, self@.found),
            r.1 == self@.stats,
    {
        (self.groups.into_buckets(), self.stats)
    }
}

impl WalkView {
    pub open spec fn sound(self) -> bool {
        &&& self.found.len() <= self.stats.scanned_files
        &&& self.stats.scanned_files <= self.stats.visited_nodes
        &&& self.stats.visited_nodes <= DUPLICATE_NODE_VISIT_LIMIT
        &&& self.stats.checked_candidates == 0
        &&& self.stats.groups == 0
        &&& self.stats.duplicate_bytes == 0
        &&& forall|i: int|
            0 <= i < self.found.len() ==> found_below(
                #[trigger] self.found[i],
                self.cwd,
                self.platform,
            )
    }
}

/// A file that is not empty and lies below a directory, under the name it has
/// there.
pub open spec fn found_below(c: CandidateView, cwd: Seq<u8>, platform: Platform) -> bool {
    &&& c.file.size > 0
    &&& relative_to(c.file.path, cwd) is Some
    &&& c.file.relative == forward_slashes(
        shown_text(relative_to(c.file.path, cwd)->0, platform),
    )
}

/// Empty files, links and anything else that is no regular file never become
/// candidates, and hidden entries only where they are shown.
pub proof fn lemma_only_files_are_found(w: WalkView, entry: DirEntryView)
    ensures
        after_entry(w, entry).found != w.found ==> {
            &&& entry.kind == Some(EntryKind::File)
            &&& entry.facts is Some && entry.facts->0.size > 0
            &&& !entry.hidden || w.show_hidden
        },
{
}

/// Directories that are left out by name, and hidden ones that are not shown,
/// are never walked.
pub proof fn lemma_pruned_directories_are_not_walked(w: WalkView, entry: DirEntryView)
    requires
        pruned(name_key(entry.name, w.platform)) || (entry.hidden && !w.show_hidden),
    ensures
        after_entry(w, entry).nodes == w.nodes,
        after_entry(w, entry).queue == w.queue,
{
}

} // verus!
