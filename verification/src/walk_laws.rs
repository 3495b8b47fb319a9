//! What a whole walk finds in a directory tree.

use crate::duplicates::{no_stats, pruned, CandidateView};
use crate::order::is_stable_sort;
use crate::path::{components, relative_to};
use crate::platform::Platform;
use crate::scan::lemma_map_multiset;
use crate::walk::{
    after_entry, after_next, after_visit, at_limit, candidate_of, name_key, node_paths, nodes_view,
    opens_directory, put_in_line, DirEntryView, DirNode, EntryKind, WalkView,
    DUPLICATE_NODE_VISIT_LIMIT,
};
use vstd::prelude::*;

verus! {

/// What is in a directory: nothing is known of one that cannot be read, nor of an
/// entry that cannot.
pub type Listing = Option<Seq<Option<DirEntryView>>>;

/// Directories by their paths.
pub type Tree = spec_fn(Seq<u8>) -> Listing;

/// A walk that came across entries one after the other.
pub open spec fn after_visits(w: WalkView, entries: Seq<Option<DirEntryView>>) -> WalkView
    decreases entries.len(),
{
    if entries.len() == 0 {
        w
    } else {
        after_visit(after_visits(w, entries.drop_last()), false, entries.last())
    }
}

/// Whether a walk has gone through the next directory. One that cannot be read is
/// passed over, unless the walk began there.
pub open spec fn walked(tree: Tree, before: WalkView, after: WalkView) -> bool {
    &&& opens_directory(before, false)
    &&& match tree(before.queue[0]) {
        Some(entries) => put_in_line(after_visits(after_next(before, false), entries), after),
        None => components(before.queue[0]) != components(before.cwd) && after == after_next(
            before,
            false,
        ),
    }
}

/// What a walk goes by: whether hidden entries are shown, and whose names it meets.
pub ghost struct WalkRule {
    pub show_hidden: bool,
    pub platform: Platform,
}

pub open spec fn rule_of(w: WalkView) -> WalkRule {
    WalkRule { show_hidden: w.show_hidden, platform: w.platform }
}

/// A walk at its beginning.
pub open spec fn first_view(cwd: Seq<u8>, rule: WalkRule) -> WalkView {
    WalkView {
        cwd,
        platform: rule.platform,
        show_hidden: rule.show_hidden,
        queue: seq![cwd],
        nodes: Seq::empty(),
        found: Seq::empty(),
        stats: no_stats(),
    }
}

/// Whether a walk was these views one after the other, one directory at a time,
/// and was not canceled.
pub open spec fn is_walk(tree: Tree, cwd: Seq<u8>, rule: WalkRule, views: Seq<WalkView>) -> bool {
    &&& views.len() > 0
    &&& views[0] == first_view(cwd, rule)
    &&& forall|i: int|
        0 <= i < views.len() - 1 ==> walked(tree, #[trigger] views[i], views[i + 1])
}

/// Whether a walk is at its end.
pub open spec fn is_over(w: WalkView) -> bool {
    !opens_directory(w, false)
}

/// Whether an entry is shown.
pub open spec fn is_visible(entry: DirEntryView, rule: WalkRule) -> bool {
    !entry.hidden || rule.show_hidden
}

/// Whether an entry is a directory that is not left out.
pub open spec fn leads_to(
    entry: Option<DirEntryView>,
    rule: WalkRule,
    path: Seq<u8>,
) -> bool {
    &&& entry is Some
    &&& is_visible(entry->0, rule)
    &&& entry->0.kind == Some(EntryKind::Directory)
    &&& !pruned(name_key(entry->0.name, rule.platform))
    &&& entry->0.path == path
}

/// Whether an entry is a file that is not empty and lies below a directory, and as
/// which candidate.
pub open spec fn yields(
    entry: Option<DirEntryView>,
    cwd: Seq<u8>,
    rule: WalkRule,
    c: CandidateView,
) -> bool {
    &&& entry is Some
    &&& is_visible(entry->0, rule)
    &&& entry->0.kind == Some(EntryKind::File)
    &&& entry->0.facts is Some
    &&& entry->0.facts->0.size > 0
    &&& relative_to(entry->0.path, cwd) is Some
    &&& c == candidate_of(
        entry->0.path,
        entry->0.name,
        relative_to(entry->0.path, cwd)->0,
        entry->0.facts->0,
        rule.platform,
    )
}

/// Whether a directory lists one that is not left out.
pub open spec fn is_child(tree: Tree, rule: WalkRule, parent: Seq<u8>, dir: Seq<u8>) -> bool {
    &&& tree(parent) is Some
    &&& exists|i: int|
        0 <= i < tree(parent)->0.len() && leads_to(#[trigger] tree(parent)->0[i], rule, dir)
}

/// Whether directories lead from one to the next, beginning with the one where the
/// walk began, with none on the way that is left out.
pub open spec fn is_way(tree: Tree, cwd: Seq<u8>, rule: WalkRule, way: Seq<Seq<u8>>) -> bool {
    &&& way.len() > 0
    &&& way[0] == cwd
    &&& forall|i: int|
        0 <= i < way.len() - 1 ==> is_child(tree, rule, #[trigger] way[i], way[i + 1])
}

/// Whether a walk should come to a directory.
pub open spec fn is_reached(tree: Tree, cwd: Seq<u8>, rule: WalkRule, dir: Seq<u8>) -> bool {
    exists|way: Seq<Seq<u8>>| #[trigger]
        is_way(tree, cwd, rule, way) && way.last() == dir
}

/// Whether a directory lists a file as this candidate.
pub open spec fn is_listed(
    tree: Tree,
    cwd: Seq<u8>,
    rule: WalkRule,
    dir: Seq<u8>,
    c: CandidateView,
) -> bool {
    &&& tree(dir) is Some
    &&& exists|i: int|
        0 <= i < tree(dir)->0.len() && yields(#[trigger] tree(dir)->0[i], cwd, rule, c)
}

/// Whether a file is in the tree: not empty, visible, and in no directory that is
/// left out.
pub open spec fn is_in_tree(
    tree: Tree,
    cwd: Seq<u8>,
    rule: WalkRule,
    c: CandidateView,
) -> bool {
    exists|dir: Seq<u8>| #[trigger]
        is_reached(tree, cwd, rule, dir) && is_listed(tree, cwd, rule, dir, c)
}

/// Whether a directory is among those that a walk came across.
spec fn has_node(nodes: Seq<(Seq<char>, Seq<u8>)>, path: Seq<u8>) -> bool {
    exists|i: int| 0 <= i < nodes.len() && (#[trigger] nodes[i]).1 == path
}

proof fn lemma_has_node_push(
    nodes: Seq<(Seq<char>, Seq<u8>)>,
    node: (Seq<char>, Seq<u8>),
    path: Seq<u8>,
)
    ensures
        has_node(nodes.push(node), path) <==> has_node(nodes, path) || node.1 == path,
{
    let more = nodes.push(node);
    if has_node(more, path) && node.1 != path {
        let i = choose|i: int| 0 <= i < more.len() && (#[trigger] more[i]).1 == path;
        assert(nodes[i].1 == path);
    }
    if has_node(nodes, path) {
        let i = choose|i: int| 0 <= i < nodes.len() && (#[trigger] nodes[i]).1 == path;
        assert(more[i].1 == path);
    }
    if node.1 == path {
        assert(more[nodes.len() as int].1 == path);
    }
}

/// One entry adds what it yields and leads to, as long as the limit is not
/// reached.
proof fn lemma_visit(w: WalkView, entry: Option<DirEntryView>, c: CandidateView, path: Seq<u8>)
    ensures
        ({
            let r = after_visit(w, false, entry);
            let told = !at_limit(w);
            &&& r.queue == w.queue
            &&& r.cwd == w.cwd
            &&& rule_of(r) == rule_of(w)
            &&& r.stats.node_limit_reached <==> w.stats.node_limit_reached || at_limit(w)
            &&& r.found.contains(c) <==> w.found.contains(c) || (told && yields(
                entry,
                w.cwd,
                rule_of(w),
                c,
            ))
            &&& has_node(r.nodes, path) <==> has_node(w.nodes, path) || (told && leads_to(
                entry,
                rule_of(w),
                path,
            ))
            &&& r.nodes.len() - w.nodes.len() <= r.stats.visited_nodes - w.stats.visited_nodes
        }),
{
    let r = after_visit(w, false, entry);
    if !at_limit(w) && entry is Some {
        let e = entry->0;
        assert(w.stats.visited_nodes + 1 <= DUPLICATE_NODE_VISIT_LIMIT);
        if r.nodes != w.nodes {
            let node = (name_key(e.name, w.platform), e.path);
            assert(r.nodes == w.nodes.push(node));
            lemma_has_node_push(w.nodes, node, path);
        }
        if r.found != w.found {
            let new = candidate_of(
                e.path,
                e.name,
                relative_to(e.path, w.cwd)->0,
                e.facts->0,
                w.platform,
            );
            assert(r.found == w.found.push(new));
            lemma_push_contains(w.found, new, c);
        } else if yields(entry, w.cwd, rule_of(w), c) {
            assert(after_entry(w, e).found == w.found.push(c));
            assert(w.found.push(c).len() == w.found.len() + 1);
        }
        if leads_to(entry, rule_of(w), path) {
            assert(r.nodes == w.nodes.push((name_key(e.name, w.platform), e.path)));
            assert(r.nodes.len() == w.nodes.len() + 1);
        }
    }
}

proof fn lemma_push_contains<T>(list: Seq<T>, new: T, x: T)
    ensures
        list.push(new).contains(x) <==> list.contains(x) || new == x,
{
    let more = list.push(new);
    if list.contains(x) {
        let i = choose|i: int| 0 <= i < list.len() && list[i] == x;
        assert(more[i] == x);
    }
    if new == x {
        assert(more[list.len() as int] == x);
    }
    if more.contains(x) && new != x {
        let i = choose|i: int| 0 <= i < more.len() && more[i] == x;
        assert(list[i] == x);
    }
}

/// Whether one of several entries yields a candidate.
spec fn some_yields(
    entries: Seq<Option<DirEntryView>>,
    cwd: Seq<u8>,
    rule: WalkRule,
    c: CandidateView,
) -> bool {
    exists|i: int| 0 <= i < entries.len() && yields(#[trigger] entries[i], cwd, rule, c)
}

/// Whether one of several entries leads to a directory.
spec fn some_leads_to(
    entries: Seq<Option<DirEntryView>>,
    rule: WalkRule,
    path: Seq<u8>,
) -> bool {
    exists|i: int| 0 <= i < entries.len() && leads_to(#[trigger] entries[i], rule, path)
}

proof fn lemma_some_of_more(
    entries: Seq<Option<DirEntryView>>,
    cwd: Seq<u8>,
    rule: WalkRule,
    c: CandidateView,
    path: Seq<u8>,
)
    requires
        entries.len() > 0,
    ensures
        some_yields(entries, cwd, rule, c) <==> some_yields(
            entries.drop_last(),
            cwd,
            rule,
            c,
        ) || yields(entries.last(), cwd, rule, c),
        some_leads_to(entries, rule, path) <==> some_leads_to(
            entries.drop_last(),
            rule,
            path,
        ) || leads_to(entries.last(), rule, path),
{
    let fewer = entries.drop_last();
    let last = entries.len() - 1;
    if some_yields(entries, cwd, rule, c) {
        let i = choose|i: int|
            0 <= i < entries.len() && yields(#[trigger] entries[i], cwd, rule, c);
        if i < last {
            assert(yields(fewer[i], cwd, rule, c));
        }
    }
    if some_yields(fewer, cwd, rule, c) {
        let i = choose|i: int|
            0 <= i < fewer.len() && yields(#[trigger] fewer[i], cwd, rule, c);
        assert(yields(entries[i], cwd, rule, c));
    }
    if yields(entries.last(), cwd, rule, c) {
        assert(yields(entries[last], cwd, rule, c));
    }
    if some_leads_to(entries, rule, path) {
        let i = choose|i: int|
            0 <= i < entries.len() && leads_to(#[trigger] entries[i], rule, path);
        if i < last {
            assert(leads_to(fewer[i], rule, path));
        }
    }
    if some_leads_to(fewer, rule, path) {
        let i = choose|i: int|
            0 <= i < fewer.len() && leads_to(#[trigger] fewer[i], rule, path);
        assert(leads_to(entries[i], rule, path));
    }
    if leads_to(entries.last(), rule, path) {
        assert(leads_to(entries[last], rule, path));
    }
}

proof fn lemma_visits(
    w: WalkView,
    entries: Seq<Option<DirEntryView>>,
    c: CandidateView,
    path: Seq<u8>,
)
    ensures
        ({
            let r = after_visits(w, entries);
            let all = !r.stats.node_limit_reached;
            &&& r.queue == w.queue
            &&& r.cwd == w.cwd
            &&& rule_of(r) == rule_of(w)
            &&& w.stats.node_limit_reached ==> r.stats.node_limit_reached
            &&& w.found.contains(c) ==> r.found.contains(c)
            &&& r.found.contains(c) ==> w.found.contains(c) || some_yields(
                entries,
                w.cwd,
                rule_of(w),
                c,
            )
            &&& all && some_yields(entries, w.cwd, rule_of(w), c) ==> r.found.contains(c)
            &&& has_node(r.nodes, path) ==> has_node(w.nodes, path) || some_leads_to(
                entries,
                rule_of(w),
                path,
            )
            &&& all && some_leads_to(entries, rule_of(w), path) ==> has_node(r.nodes, path)
            &&& r.nodes.len() - w.nodes.len() <= r.stats.visited_nodes - w.stats.visited_nodes
        }),
    decreases entries.len(),
{
    if entries.len() > 0 {
        let fewer = entries.drop_last();
        lemma_visits(w, fewer, c, path);
        lemma_visit(after_visits(w, fewer), entries.last(), c, path);
        lemma_some_of_more(entries, w.cwd, rule_of(w), c, path);
    }
}

proof fn lemma_put_in_line(before: WalkView, after: WalkView, path: Seq<u8>)
    requires
        put_in_line(before, after),
    ensures
        after.queue.contains(path) <==> before.queue.contains(path) || has_node(before.nodes, path),
        after.queue.len() == before.queue.len() + before.nodes.len(),
        after.queue.to_multiset() == before.queue.to_multiset().add(
            before.nodes.map_values(|n: (Seq<char>, Seq<u8>)| n.1).to_multiset(),
        ),
{
    broadcast use vstd::seq_lib::group_to_multiset_ensures;

    let (nodes, sorted) = choose|nodes: Seq<DirNode>, sorted: Seq<DirNode>| #[trigger]
        is_stable_sort(nodes, sorted) && nodes_view(nodes) == before.nodes && after == (WalkView {
            queue: before.queue + node_paths(sorted),
            nodes: Seq::empty(),
            ..before
        });
    let paths = before.nodes.map_values(|n: (Seq<char>, Seq<u8>)| n.1);
    lemma_map_multiset(sorted, nodes, |n: DirNode| n.path@);
    assert(paths =~= node_paths(nodes)) by {
        assert forall|i: int| 0 <= i < nodes.len() implies paths[i] == node_paths(nodes)[i] by {
            assert(before.nodes[i] == nodes_view(nodes)[i]);
        }
    }
    let more = node_paths(sorted);
    assert(more.to_multiset() == paths.to_multiset());
    assert(more.to_multiset().len() == more.len());
    assert(paths.to_multiset().len() == paths.len());
    vstd::seq_lib::lemma_multiset_commutative(before.queue, more);
    assert(more.contains(path) <==> paths.contains(path)) by {
        assert(more.contains(path) <==> more.to_multiset().count(path) > 0);
        assert(paths.contains(path) <==> paths.to_multiset().count(path) > 0);
    }
    if paths.contains(path) {
        let i = choose|i: int| 0 <= i < paths.len() && paths[i] == path;
        assert(before.nodes[i].1 == path);
    }
    if has_node(before.nodes, path) {
        let i = choose|i: int| 0 <= i < before.nodes.len() && (#[trigger] before.nodes[i]).1 == path;
        assert(paths[i] == path);
    }
    let queue = before.queue;
    if after.queue.contains(path) {
        let i = choose|i: int| 0 <= i < after.queue.len() && after.queue[i] == path;
        if i < queue.len() {
            assert(queue[i] == path);
        } else {
            assert(more[i - queue.len()] == path);
        }
    }
    if queue.contains(path) {
        let i = choose|i: int| 0 <= i < queue.len() && queue[i] == path;
        assert(after.queue[i] == path);
    }
    if more.contains(path) {
        let i = choose|i: int| 0 <= i < more.len() && more[i] == path;
        assert(after.queue[queue.len() + i] == path);
    }
}

/// The directories that a walk has gone through.
pub open spec fn gone_through(views: Seq<WalkView>) -> Seq<Seq<u8>> {
    Seq::new((views.len() - 1) as nat, |i: int| views[i].queue[0])
}

/// Whether a walk waits for a directory or has gone through it.
spec fn knows(views: Seq<WalkView>, dir: Seq<u8>) -> bool {
    gone_through(views).contains(dir) || views.last().queue.contains(dir)
}

/// What holds of a walk all along.
spec fn keeps_track(tree: Tree, cwd: Seq<u8>, rule: WalkRule, views: Seq<WalkView>) -> bool {
    let w = views.last();
    let done = gone_through(views);
    &&& w.cwd == cwd
    &&& rule_of(w) == rule
    &&& w.nodes.len() == 0
    &&& done.len() + w.queue.len() <= w.stats.visited_nodes + 1
    &&& forall|dir: Seq<u8>| #[trigger]
        knows(views, dir) ==> is_reached(tree, cwd, rule, dir)
    &&& forall|c: CandidateView| #[trigger]
        w.found.contains(c) ==> is_in_tree(tree, cwd, rule, c)
    &&& !w.stats.node_limit_reached ==> {
        &&& knows(views, cwd)
        &&& forall|dir: Seq<u8>, child: Seq<u8>|
            #![trigger done.contains(dir), is_child(tree, rule, dir, child)]
            done.contains(dir) && is_child(tree, rule, dir, child) ==> knows(views, child)
        &&& forall|dir: Seq<u8>, c: CandidateView|
            #![trigger done.contains(dir), is_listed(tree, cwd, rule, dir, c)]
            done.contains(dir) && is_listed(tree, cwd, rule, dir, c) ==> w.found.contains(c)
    }
}

proof fn lemma_begins_on_track(tree: Tree, cwd: Seq<u8>, rule: WalkRule, views: Seq<WalkView>)
    requires
        views == seq![first_view(cwd, rule)],
    ensures
        keeps_track(tree, cwd, rule, views),
{
    let w = views.last();
    assert(w.queue[0] == cwd);
    let way = seq![cwd];
    assert(is_way(tree, cwd, rule, way) && way.last() == cwd);
    assert(gone_through(views) =~= Seq::empty());
}

/// Going through a directory makes known what it lists, and nothing else.
proof fn lemma_step_known(tree: Tree, views: Seq<WalkView>, after: WalkView, dir: Seq<u8>)
    requires
        views.len() > 0,
        walked(tree, views.last(), after),
        views.last().nodes.len() == 0,
    ensures
        ({
            let more = views.push(after);
            let w = views.last();
            &&& gone_through(more) == gone_through(views).push(w.queue[0])
            &&& knows(views, dir) ==> knows(more, dir)
            &&& knows(more, dir) ==> knows(views, dir) || is_child(
                tree,
                rule_of(w),
                w.queue[0],
                dir,
            )
            &&& !after.stats.node_limit_reached && is_child(tree, rule_of(w), w.queue[0], dir)
                ==> knows(more, dir)
            &&& after.nodes.len() == 0
            &&& after.queue.len() - w.queue.len() <= after.stats.visited_nodes
                - w.stats.visited_nodes - 1
            &&& after.cwd == w.cwd && rule_of(after) == rule_of(w)
            &&& w.stats.node_limit_reached ==> after.stats.node_limit_reached
        }),
{
    let more = views.push(after);
    let w = views.last();
    let first = w.queue[0];
    let open = after_next(w, false);
    let any = arbitrary::<CandidateView>();
    assert(gone_through(more) =~= gone_through(views).push(first));
    lemma_push_contains(gone_through(views), first, dir);
    assert(w.queue =~= seq![first] + open.queue);
    if w.queue.contains(dir) {
        let i = choose|i: int| 0 <= i < w.queue.len() && w.queue[i] == dir;
        if i > 0 {
            assert(open.queue[i - 1] == dir);
        }
    }
    if open.queue.contains(dir) {
        let i = choose|i: int| 0 <= i < open.queue.len() && open.queue[i] == dir;
        assert(w.queue[i + 1] == dir);
    }
    assert(w.queue.contains(first));
    match tree(first) {
        Some(entries) => {
            let read = after_visits(open, entries);
            lemma_visits(open, entries, any, dir);
            lemma_put_in_line(read, after, dir);
            assert(is_child(tree, rule_of(w), first, dir) <==> some_leads_to(
                entries,
                rule_of(w),
                dir,
            ));
            assert(!has_node(open.nodes, dir));
        },
        None => {},
    }
}

proof fn lemma_step_found(tree: Tree, before: WalkView, after: WalkView, c: CandidateView)
    requires
        walked(tree, before, after),
    ensures
        before.found.contains(c) ==> after.found.contains(c),
        after.found.contains(c) ==> before.found.contains(c) || is_listed(
            tree,
            before.cwd,
            rule_of(before),
            before.queue[0],
            c,
        ),
        !after.stats.node_limit_reached && is_listed(
            tree,
            before.cwd,
            rule_of(before),
            before.queue[0],
            c,
        ) ==> after.found.contains(c),
{
    let first = before.queue[0];
    let open = after_next(before, false);
    if let Some(entries) = tree(first) {
        lemma_visits(open, entries, c, first);
        assert(is_listed(tree, before.cwd, rule_of(before), first, c) <==> some_yields(
            entries,
            before.cwd,
            rule_of(before),
            c,
        ));
    }
}

proof fn lemma_child_is_reached(
    tree: Tree,
    cwd: Seq<u8>,
    rule: WalkRule,
    parent: Seq<u8>,
    dir: Seq<u8>,
)
    requires
        is_reached(tree, cwd, rule, parent),
        is_child(tree, rule, parent, dir),
    ensures
        is_reached(tree, cwd, rule, dir),
{
    let way = choose|way: Seq<Seq<u8>>| #[trigger]
        is_way(tree, cwd, rule, way) && way.last() == parent;
    let on = way.push(dir);
    assert(is_way(tree, cwd, rule, on)) by {
        assert forall|i: int| 0 <= i < on.len() - 1 implies is_child(
            tree,
            rule,
            #[trigger] on[i],
            on[i + 1],
        ) by {
            assert(on[i] == way[i]);
            if i < way.len() - 1 {
                assert(on[i + 1] == way[i + 1]);
            }
        }
    }
    assert(on.last() == dir);
}

proof fn lemma_stays_on_track(
    tree: Tree,
    cwd: Seq<u8>,
    rule: WalkRule,
    views: Seq<WalkView>,
    after: WalkView,
)
    requires
        views.len() > 0,
        keeps_track(tree, cwd, rule, views),
        walked(tree, views.last(), after),
    ensures
        keeps_track(tree, cwd, rule, views.push(after)),
{
    let w = views.last();
    let more = views.push(after);
    let first = w.queue[0];
    let done = gone_through(views);
    let now = gone_through(more);
    lemma_step_known(tree, views, after, cwd);
    assert(w.queue.contains(first));
    assert(knows(views, first));
    assert forall|dir: Seq<u8>| #[trigger] knows(more, dir) implies is_reached(
        tree,
        cwd,
        rule,
        dir,
    ) by {
        lemma_step_known(tree, views, after, dir);
        if !knows(views, dir) {
            lemma_child_is_reached(tree, cwd, rule, first, dir);
        }
    }
    assert forall|c: CandidateView| #[trigger] after.found.contains(c) implies is_in_tree(
        tree,
        cwd,
        rule,
        c,
    ) by {
        lemma_step_found(tree, w, after, c);
        if !w.found.contains(c) {
            assert(is_reached(tree, cwd, rule, first));
        }
    }
    if !after.stats.node_limit_reached {
        assert forall|dir: Seq<u8>, child: Seq<u8>|
            #![trigger now.contains(dir), is_child(tree, rule, dir, child)]
            now.contains(dir) && is_child(tree, rule, dir, child) implies knows(
            more,
            child,
        ) by {
            lemma_step_known(tree, views, after, child);
            lemma_push_contains(done, first, dir);
            if dir != first {
                assert(done.contains(dir));
            }
        }
        assert forall|dir: Seq<u8>, c: CandidateView|
            #![trigger now.contains(dir), is_listed(tree, cwd, rule, dir, c)]
            now.contains(dir) && is_listed(
                tree,
                cwd,
                rule,
                dir,
                c,
            ) implies after.found.contains(c) by {
            lemma_step_found(tree, w, after, c);
            lemma_push_contains(done, first, dir);
            if dir != first {
                assert(done.contains(dir));
            }
        }
    }
}

proof fn lemma_walk_prefix(tree: Tree, cwd: Seq<u8>, rule: WalkRule, views: Seq<WalkView>)
    requires
        is_walk(tree, cwd, rule, views),
        views.len() > 1,
    ensures
        is_walk(tree, cwd, rule, views.drop_last()),
        walked(tree, views.drop_last().last(), views.last()),
        views.drop_last().push(views.last()) == views,
{
    let fewer = views.drop_last();
    assert forall|i: int| 0 <= i < fewer.len() - 1 implies walked(
        tree,
        #[trigger] fewer[i],
        fewer[i + 1],
    ) by {
        assert(walked(tree, views[i], views[i + 1]));
    }
    let n = views.len() - 2;
    assert(walked(tree, views[n], views[n + 1]));
    assert(fewer.push(views.last()) =~= views);
}

proof fn lemma_walk_on_track(tree: Tree, cwd: Seq<u8>, rule: WalkRule, views: Seq<WalkView>)
    requires
        is_walk(tree, cwd, rule, views),
    ensures
        keeps_track(tree, cwd, rule, views),
    decreases views.len(),
{
    if views.len() == 1 {
        assert(views =~= seq![first_view(cwd, rule)]);
        lemma_begins_on_track(tree, cwd, rule, views);
    } else {
        let fewer = views.drop_last();
        lemma_walk_prefix(tree, cwd, rule, views);
        lemma_walk_on_track(tree, cwd, rule, fewer);
        lemma_stays_on_track(tree, cwd, rule, fewer, views.last());
    }
}

proof fn lemma_reached_is_gone_through(
    tree: Tree,
    cwd: Seq<u8>,
    rule: WalkRule,
    views: Seq<WalkView>,
    way: Seq<Seq<u8>>,
    i: int,
)
    requires
        keeps_track(tree, cwd, rule, views),
        !views.last().stats.node_limit_reached,
        views.last().queue.len() == 0,
        is_way(tree, cwd, rule, way),
        0 <= i < way.len(),
    ensures
        gone_through(views).contains(way[i]),
    decreases i,
{
    if i == 0 {
        assert(knows(views, cwd));
    } else {
        lemma_reached_is_gone_through(tree, cwd, rule, views, way, i - 1);
        assert(is_child(tree, rule, way[i - 1], way[i - 1 + 1]));
        assert(gone_through(views).contains(way[i - 1]));
        assert(knows(views, way[i]));
    }
}

/// A walk that is not canceled and stays below the limit finds exactly the files
/// of the tree: those that are regular, visible and not empty, and lie in no
/// directory that is hidden or left out by name.
pub proof fn lemma_walk_finds_the_tree(
    tree: Tree,
    cwd: Seq<u8>,
    rule: WalkRule,
    views: Seq<WalkView>,
    c: CandidateView,
)
    requires
        is_walk(tree, cwd, rule, views),
        is_over(views.last()),
        !after_next(views.last(), false).stats.node_limit_reached,
    ensures
        views.last().found.contains(c) <==> is_in_tree(tree, cwd, rule, c),
{
    let w = views.last();
    lemma_walk_on_track(tree, cwd, rule, views);
    assert(w.queue.len() == 0);
    if is_in_tree(tree, cwd, rule, c) {
        let dir = choose|dir: Seq<u8>| #[trigger]
            is_reached(tree, cwd, rule, dir) && is_listed(tree, cwd, rule, dir, c);
        let way = choose|way: Seq<Seq<u8>>| #[trigger]
            is_way(tree, cwd, rule, way) && way.last() == dir;
        lemma_reached_is_gone_through(tree, cwd, rule, views, way, way.len() - 1);
        assert(gone_through(views).contains(dir));
    }
}

/// Whatever was reached of the limit, a walk that is not canceled finds no file
/// that is not in the tree.
pub proof fn lemma_walk_finds_nothing_else(
    tree: Tree,
    cwd: Seq<u8>,
    rule: WalkRule,
    views: Seq<WalkView>,
    c: CandidateView,
)
    requires
        is_walk(tree, cwd, rule, views),
        views.last().found.contains(c),
    ensures
        is_in_tree(tree, cwd, rule, c),
{
    lemma_walk_on_track(tree, cwd, rule, views);
}

/// A walk comes to its end: it goes through no more directories than it may count
/// entries, besides the one where it began.
pub proof fn lemma_walk_ends(
    tree: Tree,
    cwd: Seq<u8>,
    rule: WalkRule,
    views: Seq<WalkView>,
)
    requires
        is_walk(tree, cwd, rule, views),
    ensures
        gone_through(views).len() <= DUPLICATE_NODE_VISIT_LIMIT + 1,
{
    lemma_walk_on_track(tree, cwd, rule, views);
    lemma_stays_below_limit(tree, cwd, rule, views);
}

proof fn lemma_visits_below_limit(w: WalkView, entries: Seq<Option<DirEntryView>>)
    requires
        w.stats.visited_nodes <= DUPLICATE_NODE_VISIT_LIMIT,
    ensures
        after_visits(w, entries).stats.visited_nodes <= DUPLICATE_NODE_VISIT_LIMIT,
    decreases entries.len(),
{
    if entries.len() > 0 {
        lemma_visits_below_limit(w, entries.drop_last());
    }
}

proof fn lemma_stays_below_limit(tree: Tree, cwd: Seq<u8>, rule: WalkRule, views: Seq<WalkView>)
    requires
        is_walk(tree, cwd, rule, views),
    ensures
        views.last().stats.visited_nodes <= DUPLICATE_NODE_VISIT_LIMIT,
    decreases views.len(),
{
    if views.len() > 1 {
        let fewer = views.drop_last();
        lemma_walk_prefix(tree, cwd, rule, views);
        lemma_stays_below_limit(tree, cwd, rule, fewer);
        let open = after_next(fewer.last(), false);
        if let Some(entries) = tree(fewer.last().queue[0]) {
            lemma_visits_below_limit(open, entries);
        }
    }
}

/// Whether a directory lists an entry that can be read at a place.
pub open spec fn has_entry(tree: Tree, dir: Seq<u8>, i: int) -> bool {
    tree(dir) is Some && 0 <= i < tree(dir)->0.len() && tree(dir)->0[i] is Some
}

/// The path of such an entry.
pub open spec fn entry_path(tree: Tree, dir: Seq<u8>, i: int) -> Seq<Seq<u8>> {
    components(tree(dir)->0[i]->0.path)
}

/// Whether no path is listed twice, nor the one where the walk began.
pub open spec fn lists_once(tree: Tree, cwd: Seq<u8>) -> bool {
    &&& forall|a: Seq<u8>, i: int, b: Seq<u8>, j: int|
        #![trigger has_entry(tree, a, i), has_entry(tree, b, j)]
        has_entry(tree, a, i) && has_entry(tree, b, j) && entry_path(tree, a, i) == entry_path(
            tree,
            b,
            j,
        ) ==> components(a) == components(b) && i == j
    &&& forall|a: Seq<u8>, i: int| #[trigger]
        has_entry(tree, a, i) ==> entry_path(tree, a, i) != components(cwd)
}

/// How often a path is in a list.
spec fn times(paths: Seq<Seq<u8>>, x: Seq<Seq<u8>>) -> nat {
    paths.map_values(|p: Seq<u8>| components(p)).to_multiset().count(x)
}

/// How often a path was found.
spec fn times_found(found: Seq<CandidateView>, x: Seq<Seq<u8>>) -> nat {
    times(found.map_values(|c: CandidateView| c.file.path), x)
}

/// How often a path is among the subdirectories that were come across.
spec fn times_met(nodes: Seq<(Seq<char>, Seq<u8>)>, x: Seq<Seq<u8>>) -> nat {
    times(nodes.map_values(|n: (Seq<char>, Seq<u8>)| n.1), x)
}

/// How often entries have a path.
spec fn times_listed(entries: Seq<Option<DirEntryView>>, x: Seq<Seq<u8>>) -> nat
    decreases entries.len(),
{
    if entries.len() == 0 {
        0
    } else {
        times_listed(entries.drop_last(), x) + if entries.last() is Some && components(
            entries.last()->0.path,
        ) == x {
            1nat
        } else {
            0
        }
    }
}

/// How often directories together list a path.
spec fn times_in(tree: Tree, dirs: Seq<Seq<u8>>, x: Seq<Seq<u8>>) -> nat
    decreases dirs.len(),
{
    if dirs.len() == 0 {
        0
    } else {
        times_in(tree, dirs.drop_last(), x) + match tree(dirs.last()) {
            Some(entries) => times_listed(entries, x),
            None => 0,
        }
    }
}

proof fn lemma_times_push(paths: Seq<Seq<u8>>, path: Seq<u8>, x: Seq<Seq<u8>>)
    ensures
        times(paths.push(path), x) == times(paths, x) + if components(path) == x {
            1nat
        } else {
            0
        },
{
    broadcast use vstd::seq_lib::group_to_multiset_ensures;

    let all = paths.push(path).map_values(|p: Seq<u8>| components(p));
    let fewer = paths.map_values(|p: Seq<u8>| components(p));
    assert(all =~= fewer.push(components(path)));
}

proof fn lemma_times_concat(a: Seq<Seq<u8>>, b: Seq<Seq<u8>>, x: Seq<Seq<u8>>)
    ensures
        times(a + b, x) == times(a, x) + times(b, x),
{
    let left = a.map_values(|p: Seq<u8>| components(p));
    let right = b.map_values(|p: Seq<u8>| components(p));
    assert((a + b).map_values(|p: Seq<u8>| components(p)) =~= left + right);
    vstd::seq_lib::lemma_multiset_commutative(left, right);
}

proof fn lemma_times_there(paths: Seq<Seq<u8>>, i: int)
    requires
        0 <= i < paths.len(),
    ensures
        times(paths, components(paths[i])) > 0,
{
    broadcast use vstd::seq_lib::group_to_multiset_ensures;

    let all = paths.map_values(|p: Seq<u8>| components(p));
    assert(all[i] == components(paths[i]));
    assert(all.contains(components(paths[i])));
}

proof fn lemma_times_twice(paths: Seq<Seq<u8>>, i: int, j: int)
    requires
        0 <= i < j < paths.len(),
        components(paths[i]) == components(paths[j]),
    ensures
        times(paths, components(paths[i])) >= 2,
{
    let x = components(paths[i]);
    lemma_times_concat(paths.take(j), paths.skip(j), x);
    assert(paths.take(j) + paths.skip(j) =~= paths);
    lemma_times_there(paths.take(j), i);
    lemma_times_there(paths.skip(j), 0);
}

proof fn lemma_visit_times(w: WalkView, entry: Option<DirEntryView>, x: Seq<Seq<u8>>)
    ensures
        ({
            let r = after_visit(w, false, entry);
            times_found(r.found, x) + times_met(r.nodes, x) <= times_found(w.found, x) + times_met(
                w.nodes,
                x,
            ) + if entry is Some && components(entry->0.path) == x {
                1nat
            } else {
                0
            }
        }),
{
    let r = after_visit(w, false, entry);
    if !at_limit(w) && entry is Some {
        let e = entry->0;
        if r.nodes != w.nodes {
            let node = (name_key(e.name, w.platform), e.path);
            assert(r.nodes == w.nodes.push(node));
            let paths = w.nodes.map_values(|n: (Seq<char>, Seq<u8>)| n.1);
            assert(r.nodes.map_values(|n: (Seq<char>, Seq<u8>)| n.1) =~= paths.push(e.path));
            lemma_times_push(paths, e.path, x);
        }
        if r.found != w.found {
            let new = candidate_of(
                e.path,
                e.name,
                relative_to(e.path, w.cwd)->0,
                e.facts->0,
                w.platform,
            );
            assert(r.found == w.found.push(new));
            let paths = w.found.map_values(|c: CandidateView| c.file.path);
            assert(r.found.map_values(|c: CandidateView| c.file.path) =~= paths.push(e.path));
            lemma_times_push(paths, e.path, x);
        }
    }
}

proof fn lemma_visits_times(w: WalkView, entries: Seq<Option<DirEntryView>>, x: Seq<Seq<u8>>)
    ensures
        ({
            let r = after_visits(w, entries);
            times_found(r.found, x) + times_met(r.nodes, x) <= times_found(w.found, x) + times_met(
                w.nodes,
                x,
            ) + times_listed(entries, x)
        }),
    decreases entries.len(),
{
    if entries.len() > 0 {
        lemma_visits_times(w, entries.drop_last(), x);
        lemma_visit_times(after_visits(w, entries.drop_last()), entries.last(), x);
    }
}

proof fn lemma_line_times(before: WalkView, after: WalkView, x: Seq<Seq<u8>>)
    requires
        put_in_line(before, after),
    ensures
        times(after.queue, x) == times(before.queue, x) + times_met(before.nodes, x),
{
    let paths = before.nodes.map_values(|n: (Seq<char>, Seq<u8>)| n.1);
    lemma_put_in_line(before, after, before.cwd);
    vstd::seq_lib::lemma_multiset_commutative(before.queue, paths);
    lemma_map_multiset(after.queue, before.queue + paths, |p: Seq<u8>| components(p));
    lemma_times_concat(before.queue, paths, x);
}

/// Whether a walk has no path more often than it was listed, and went through no
/// directory twice.
spec fn has_once(tree: Tree, cwd: Seq<u8>, views: Seq<WalkView>) -> bool {
    let w = views.last();
    let done = gone_through(views);
    &&& w.nodes.len() == 0
    &&& forall|x: Seq<Seq<u8>>| #[trigger]
        times_found(w.found, x) + times(done, x) + times(w.queue, x) <= times_in(tree, done, x)
            + if components(cwd) == x {
            1nat
        } else {
            0
        }
    &&& forall|i: int, j: int|
        0 <= i < j < done.len() ==> components(#[trigger] done[i]) != components(
            #[trigger] done[j],
        )
}

proof fn lemma_listed_somewhere(entries: Seq<Option<DirEntryView>>, x: Seq<Seq<u8>>) -> (i: int)
    requires
        times_listed(entries, x) > 0,
    ensures
        0 <= i < entries.len(),
        entries[i] is Some,
        components(entries[i]->0.path) == x,
    decreases entries.len(),
{
    if entries.last() is Some && components(entries.last()->0.path) == x {
        entries.len() - 1
    } else {
        lemma_listed_somewhere(entries.drop_last(), x)
    }
}

proof fn lemma_listed_in(tree: Tree, dirs: Seq<Seq<u8>>, x: Seq<Seq<u8>>) -> (at: (int, int))
    requires
        times_in(tree, dirs, x) > 0,
    ensures
        0 <= at.0 < dirs.len(),
        has_entry(tree, dirs[at.0], at.1),
        entry_path(tree, dirs[at.0], at.1) == x,
    decreases dirs.len(),
{
    if times_in(tree, dirs.drop_last(), x) > 0 {
        lemma_listed_in(tree, dirs.drop_last(), x)
    } else {
        let i = lemma_listed_somewhere(tree(dirs.last())->0, x);
        (dirs.len() - 1, i)
    }
}

proof fn lemma_lists_one(tree: Tree, cwd: Seq<u8>, dir: Seq<u8>, n: int, x: Seq<Seq<u8>>)
    requires
        lists_once(tree, cwd),
        tree(dir) is Some,
        0 <= n <= tree(dir)->0.len(),
    ensures
        times_listed(tree(dir)->0.take(n), x) <= 1,
    decreases n,
{
    if n > 0 {
        let entries = tree(dir)->0;
        let some = entries.take(n);
        assert(some.drop_last() =~= entries.take(n - 1));
        lemma_lists_one(tree, cwd, dir, n - 1, x);
        if some.last() is Some && components(some.last()->0.path) == x && times_listed(
            some.drop_last(),
            x,
        ) > 0 {
            let i = lemma_listed_somewhere(some.drop_last(), x);
            assert(has_entry(tree, dir, i) && has_entry(tree, dir, n - 1));
        }
    }
}

proof fn lemma_listed_once(tree: Tree, cwd: Seq<u8>, dirs: Seq<Seq<u8>>, x: Seq<Seq<u8>>)
    requires
        lists_once(tree, cwd),
        forall|i: int, j: int|
            0 <= i < j < dirs.len() ==> components(#[trigger] dirs[i]) != components(
                #[trigger] dirs[j],
            ),
    ensures
        times_in(tree, dirs, x) <= 1,
        components(cwd) == x ==> times_in(tree, dirs, x) == 0,
    decreases dirs.len(),
{
    if dirs.len() > 0 {
        let fewer = dirs.drop_last();
        let last = dirs.len() - 1;
        assert forall|i: int, j: int| 0 <= i < j < fewer.len() implies components(
            #[trigger] fewer[i],
        ) != components(#[trigger] fewer[j]) by {
            assert(components(dirs[i]) != components(dirs[j]));
        }
        lemma_listed_once(tree, cwd, fewer, x);
        if let Some(entries) = tree(dirs[last]) {
            assert(entries.take(entries.len() as int) =~= entries);
            lemma_lists_one(tree, cwd, dirs[last], entries.len() as int, x);
            if times_listed(entries, x) > 0 {
                let i = lemma_listed_somewhere(entries, x);
                assert(has_entry(tree, dirs[last], i));
                if times_in(tree, fewer, x) > 0 {
                    let at = lemma_listed_in(tree, fewer, x);
                    assert(components(dirs[at.0]) != components(dirs[last]));
                }
            }
        }
    }
}

proof fn lemma_step_has_once(tree: Tree, cwd: Seq<u8>, views: Seq<WalkView>, after: WalkView)
    requires
        views.len() > 0,
        lists_once(tree, cwd),
        has_once(tree, cwd, views),
        walked(tree, views.last(), after),
    ensures
        has_once(tree, cwd, views.push(after)),
{
    broadcast use vstd::seq_lib::group_to_multiset_ensures;

    let w = views.last();
    let more = views.push(after);
    let first = w.queue[0];
    let done = gone_through(views);
    let now = gone_through(more);
    let open = after_next(w, false);
    lemma_step_known(tree, views, after, first);
    assert(w.queue =~= seq![first] + open.queue);
    assert forall|x: Seq<Seq<u8>>| #[trigger]
        times_found(after.found, x) + times(now, x) + times(after.queue, x) <= times_in(
            tree,
            now,
            x,
        ) + if components(cwd) == x {
            1nat
        } else {
            0
        } by {
        assert(times_found(w.found, x) + times(done, x) + times(w.queue, x) <= times_in(
            tree,
            done,
            x,
        ) + if components(cwd) == x {
            1nat
        } else {
            0
        });
        lemma_times_push(done, first, x);
        lemma_times_concat(seq![first], open.queue, x);
        assert(Seq::<Seq<u8>>::empty().push(first) =~= seq![first]);
        lemma_times_push(Seq::empty(), first, x);
        lemma_nothing_there(x);
        assert(now.drop_last() =~= done);
        if let Some(entries) = tree(first) {
            let read = after_visits(open, entries);
            lemma_visits_times(open, entries, x);
            lemma_visits(open, entries, arbitrary::<CandidateView>(), first);
            lemma_line_times(read, after, x);
            assert(open.nodes.map_values(|n: (Seq<char>, Seq<u8>)| n.1) =~= Seq::empty());
        }
    }
    assert forall|i: int, j: int| 0 <= i < j < now.len() implies components(#[trigger] now[i])
        != components(#[trigger] now[j]) by {
        if j < done.len() {
            assert(components(done[i]) != components(done[j]));
        } else {
            let x = components(first);
            lemma_listed_once(tree, cwd, done, x);
            assert(times_found(w.found, x) + times(done, x) + times(w.queue, x) <= 1);
            lemma_times_there(w.queue, 0);
            lemma_times_there(done, i);
        }
    }
}

proof fn lemma_nothing_there(x: Seq<Seq<u8>>)
    ensures
        times(Seq::empty(), x) == 0,
{
    broadcast use vstd::seq_lib::group_to_multiset_ensures;

    let none = Seq::<Seq<u8>>::empty().map_values(|p: Seq<u8>| components(p));
    if none.to_multiset().count(x) > 0 {
        assert(none.contains(x));
    }
}

proof fn lemma_walk_has_once(tree: Tree, cwd: Seq<u8>, rule: WalkRule, views: Seq<WalkView>)
    requires
        is_walk(tree, cwd, rule, views),
        lists_once(tree, cwd),
    ensures
        has_once(tree, cwd, views),
    decreases views.len(),
{
    if views.len() == 1 {
        let w = views.last();
        assert forall|x: Seq<Seq<u8>>| #[trigger]
            times_found(w.found, x) + times(gone_through(views), x) + times(w.queue, x)
                <= times_in(tree, gone_through(views), x) + if components(cwd) == x {
                1nat
            } else {
                0
            } by {
            assert(gone_through(views) =~= Seq::empty());
            assert(w.found.map_values(|c: CandidateView| c.file.path) =~= Seq::empty());
            assert(w.queue =~= Seq::<Seq<u8>>::empty().push(cwd));
            lemma_times_push(Seq::empty(), cwd, x);
            lemma_nothing_there(x);
        }
    } else {
        lemma_walk_prefix(tree, cwd, rule, views);
        lemma_walk_has_once(tree, cwd, rule, views.drop_last());
        lemma_step_has_once(tree, cwd, views.drop_last(), views.last());
    }
}

/// In a tree where no path is listed twice, a walk finds no path twice.
pub proof fn lemma_walk_finds_no_path_twice(
    tree: Tree,
    cwd: Seq<u8>,
    rule: WalkRule,
    views: Seq<WalkView>,
    i: int,
    j: int,
)
    requires
        is_walk(tree, cwd, rule, views),
        lists_once(tree, cwd),
        0 <= i < j < views.last().found.len(),
    ensures
        components(views.last().found[i].file.path) != components(
            views.last().found[j].file.path,
        ),
{
    let w = views.last();
    let done = gone_through(views);
    let paths = w.found.map_values(|c: CandidateView| c.file.path);
    let x = components(paths[i]);
    lemma_walk_has_once(tree, cwd, rule, views);
    lemma_listed_once(tree, cwd, done, x);
    assert(times_found(w.found, x) + times(done, x) + times(w.queue, x) <= 1);
    if components(paths[i]) == components(paths[j]) {
        lemma_times_twice(paths, i, j);
    }
}

} // verus!
