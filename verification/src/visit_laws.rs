//! What a walk does with each entry that it comes across.

use crate::duplicates::{
    CacheKeyView, CandidateView, DuplicateFileView, DuplicateScanStats, FileIdentityView,
};
use crate::natural::natural_order;
use crate::order::{is_stable_sort, Order, SortItem};
use crate::path::{components, relative_to, shown_text};
use crate::scan::lemma_map_multiset;
use crate::text::{forward_slashes, lowercase_text};
use crate::walk::{
    after_next, after_visit, node_paths, nodes_view, opens_directory, put_in_line, DirEntryView,
    DirNode, EntryKind, WalkView,
};
use vstd::prelude::*;

verus! {

/// A subdirectory that is shown is kept for walking, under its name in lower case,
/// exactly where that name is none of `.git`, `node_modules` and `target`. It is
/// counted either way, and nothing else changes.
pub proof fn lemma_subdirectories_are_kept(w: WalkView, entry: DirEntryView)
    requires
        w.stats.visited_nodes < 5000000,
        entry.kind == Some(EntryKind::Directory),
        w.show_hidden || !entry.hidden,
    ensures
        ({
            let key = lowercase_text(shown_text(entry.name, w.platform));
            let left_out = key == ".git"@ || key == "node_modules"@ || key == "target"@;
            after_visit(w, false, Some(entry)) == (WalkView {
                nodes: if left_out {
                    w.nodes
                } else {
                    w.nodes.push((key, entry.path))
                },
                stats: DuplicateScanStats {
                    visited_nodes: (w.stats.visited_nodes + 1) as usize,
                    ..w.stats
                },
                ..w
            })
        }),
{
}

/// A subdirectory that is shown, and whose name in lower case is none of `.git`,
/// `node_modules` and `target`, stands in line once the directory is finished.
pub proof fn lemma_subdirectories_are_walked(w: WalkView, entry: DirEntryView, after: WalkView)
    requires
        w.stats.visited_nodes < 5000000,
        entry.kind == Some(EntryKind::Directory),
        w.show_hidden || !entry.hidden,
        lowercase_text(shown_text(entry.name, w.platform)) != ".git"@,
        lowercase_text(shown_text(entry.name, w.platform)) != "node_modules"@,
        lowercase_text(shown_text(entry.name, w.platform)) != "target"@,
        put_in_line(after_visit(w, false, Some(entry)), after),
    ensures
        after.queue.contains(entry.path),
{
    lemma_subdirectories_are_kept(w, entry);
    let visited = after_visit(w, false, Some(entry));
    let key = lowercase_text(shown_text(entry.name, w.platform));
    assert(visited.nodes[w.nodes.len() as int] == (key, entry.path));
    let order = lemma_line_is_in_order(visited, after);
    lemma_same_multiset_contains(visited.nodes, order, (key, entry.path));
    let i = choose|i: int| 0 <= i < order.len() && order[i] == (key, entry.path);
    assert(after.queue[visited.queue.len() + i] == entry.path);
}

proof fn lemma_same_multiset_contains<T>(a: Seq<T>, b: Seq<T>, x: T)
    requires
        a.to_multiset() == b.to_multiset(),
        a.contains(x),
    ensures
        b.contains(x),
{
    broadcast use vstd::seq_lib::group_to_multiset_ensures;

    assert(a.to_multiset().count(x) > 0);
    assert(b.to_multiset().count(x) > 0);
}

/// The subdirectories of a directory go behind those that wait already, which stay
/// as they are: each once, in natural order of their names. Nothing else changes.
pub proof fn lemma_line_is_in_order(before: WalkView, after: WalkView) -> (order: Seq<
    (Seq<char>, Seq<u8>),
>)
    requires
        put_in_line(before, after),
    ensures
        order.to_multiset() == before.nodes.to_multiset(),
        order.len() == before.nodes.len(),
        forall|i: int, j: int|
            0 <= i < j < order.len() ==> natural_order(
                (#[trigger] order[i]).0,
                (#[trigger] order[j]).0,
            ) != Order::Greater,
        after.queue.len() == before.queue.len() + order.len(),
        forall|i: int| 0 <= i < before.queue.len() ==> #[trigger] after.queue[i] == before.queue[i],
        forall|i: int|
            0 <= i < order.len() ==> #[trigger] after.queue[before.queue.len() + i] == order[i].1,
        after.nodes.len() == 0,
        after == (WalkView { queue: after.queue, nodes: after.nodes, ..before }),
{
    let (nodes, sorted) = choose|nodes: Seq<DirNode>, sorted: Seq<DirNode>| #[trigger]
        is_stable_sort(nodes, sorted) && nodes_view(nodes) == before.nodes && after == (WalkView {
            queue: before.queue + node_paths(sorted),
            nodes: Seq::empty(),
            ..before
        });
    lemma_map_multiset(sorted, nodes, |n: DirNode| (n.name_key@, n.path@));
    let order = nodes_view(sorted);
    assert forall|i: int, j: int| 0 <= i < j < order.len() implies natural_order(
        (#[trigger] order[i]).0,
        (#[trigger] order[j]).0,
    ) != Order::Greater by {
        assert(sorted[i].name_key@ == order[i].0);
        assert(sorted[j].name_key@ == order[j].0);
        assert(DirNode::at_most(sorted[i], sorted[j]));
    }
    sorted.to_multiset_ensures();
    nodes.to_multiset_ensures();
    order
}

/// A file that is shown, is not empty and lies below the directory where the walk
/// began is found, with its path, its name as shown, its way from there with forward
/// slashes, its size and its time. It is known again by its place on the disk, else by
/// its path, and by its size and times.
pub proof fn lemma_files_are_found(w: WalkView, entry: DirEntryView)
    requires
        w.stats.visited_nodes < 5000000,
        w.stats.scanned_files <= w.stats.visited_nodes,
        entry.kind == Some(EntryKind::File),
        w.show_hidden || !entry.hidden,
        entry.facts is Some,
        entry.facts->0.size > 0,
    ensures
        ({
            let facts = entry.facts->0;
            let way = relative_to(entry.path, w.cwd);
            after_visit(w, false, Some(entry)) == (WalkView {
                found: if way is None {
                    w.found
                } else {
                    w.found.push(
                        CandidateView {
                            file: DuplicateFileView {
                                path: entry.path,
                                name: shown_text(entry.name, w.platform),
                                relative: forward_slashes(shown_text(way->0, w.platform)),
                                size: facts.size,
                                modified: facts.modified,
                            },
                            cache_key: Some(
                                CacheKeyView {
                                    identity: if facts.place is Some {
                                        FileIdentityView::Unix {
                                            dev: facts.place->0.dev,
                                            ino: facts.place->0.ino,
                                        }
                                    } else {
                                        FileIdentityView::Path(components(entry.path))
                                    },
                                    size: facts.size,
                                    modified: facts.modified,
                                    changed: facts.changed,
                                },
                            ),
                        },
                    )
                },
                stats: DuplicateScanStats {
                    visited_nodes: (w.stats.visited_nodes + 1) as usize,
                    scanned_files: (w.stats.scanned_files + 1) as usize,
                    ..w.stats
                },
                ..w
            })
        }),
{
}

/// Links, files that are empty or of which nothing is known, and anything else that is
/// no directory are counted and passed over.
pub proof fn lemma_the_rest_is_only_counted(w: WalkView, entry: DirEntryView)
    requires
        w.stats.visited_nodes < 5000000,
        w.show_hidden || !entry.hidden,
        entry.kind is Some,
        entry.kind->0 == EntryKind::Symlink || entry.kind->0 == EntryKind::Other || (entry.kind->0
            == EntryKind::File && (entry.facts is None || entry.facts->0.size == 0)),
    ensures
        after_visit(w, false, Some(entry)) == (WalkView {
            stats: DuplicateScanStats {
                visited_nodes: (w.stats.visited_nodes + 1) as usize,
                ..w.stats
            },
            ..w
        }),
{
}

/// Entries that are not shown, whose kind is unknown or that could not be read are not
/// even counted.
pub proof fn lemma_unseen_entries_change_nothing(w: WalkView, entry: Option<DirEntryView>)
    requires
        w.stats.visited_nodes < 5000000,
        entry is Some ==> entry->0.kind is None || (entry->0.hidden && !w.show_hidden),
    ensures
        after_visit(w, false, entry) == w,
{
}

/// A walk that was canceled, or that has counted five million entries, takes no more.
/// That the limit was reached is noted, and never forgotten.
pub proof fn lemma_walk_stops_at_the_limit(
    w: WalkView,
    canceled: bool,
    entry: Option<DirEntryView>,
)
    requires
        canceled || w.stats.visited_nodes >= 5000000,
    ensures
        after_visit(w, canceled, entry) == (WalkView {
            stats: DuplicateScanStats {
                node_limit_reached: w.stats.node_limit_reached || w.stats.visited_nodes >= 5000000,
                ..w.stats
            },
            ..w
        }),
        !opens_directory(w, canceled),
        !canceled && w.queue.len() > 0 ==> after_next(w, canceled).stats.node_limit_reached,
{
}

/// Below the limit, directories are read in the order in which they stand in line.
pub proof fn lemma_directories_are_read_in_line(w: WalkView)
    requires
        w.stats.visited_nodes < 5000000,
    ensures
        opens_directory(w, false) <==> w.queue.len() > 0,
        w.queue.len() > 0 ==> after_next(w, false) == (WalkView {
            queue: w.queue.subrange(1, w.queue.len() as int),
            ..w
        }),
{
}

} // verus!
