//! What a walk and the search behind it come to together.

use crate::duplicates::{files_view, CandidateView, DuplicateFileView, DuplicateGroup};
use crate::path::components;
use crate::result_laws::{
    candidate_files, grouped_files, lemma_groups_repeat_nothing, lemma_no_path_is_grouped_twice,
    lemma_part_of_together, list_files,
};
use crate::scan::{DuplicateScan, ScanStage};
use crate::scan_laws::{
    all_true, all_undisturbed, begins_with, has_pair, is_course, is_fresh, is_grouped,
    lemma_equal_files_are_found, ScanEvent,
};
use crate::walk::{after_next, WalkView};
use crate::walk_laws::{
    is_in_tree, is_over, is_walk, lemma_walk_finds_no_path_twice, lemma_walk_finds_nothing_else,
    lemma_walk_finds_the_tree, lists_once, Tree, WalkRule,
};
use vstd::prelude::*;

verus! {

/// Whether a search began with what a walk found.
pub open spec fn follows(views: Seq<WalkView>, states: Seq<DuplicateScan>) -> bool {
    begins_with(states[0], views.last().found)
}

/// Any two files of a tree with the same size and content are put into one group,
/// where the walk stays below its limit, nothing is canceled, refused or
/// unreadable, and every answer is true.
pub proof fn lemma_equal_files_of_a_tree_are_grouped(
    tree: Tree,
    cwd: Seq<u8>,
    rule: WalkRule,
    views: Seq<WalkView>,
    states: Seq<DuplicateScan>,
    events: Seq<ScanEvent>,
    content: spec_fn(Seq<u8>) -> Seq<u8>,
    c: CandidateView,
    d: CandidateView,
)
    requires
        is_walk(tree, cwd, rule, views),
        is_over(views.last()),
        !after_next(views.last(), false).stats.node_limit_reached,
        follows(views, states),
        is_course(states, events),
        is_fresh(states[0]),
        all_true(states, events, content),
        all_undisturbed(events),
        states.last().stage == ScanStage::Finished,
        is_in_tree(tree, cwd, rule, c),
        is_in_tree(tree, cwd, rule, d),
        c != d,
        c.file.size == d.file.size,
        content(c.file.path) == content(d.file.path),
    ensures
        is_grouped(states.last().groups@, c.file, d.file),
{
    let found = views.last().found;
    lemma_walk_finds_the_tree(tree, cwd, rule, views, c);
    lemma_walk_finds_the_tree(tree, cwd, rule, views, d);
    let i = choose|i: int| 0 <= i < found.len() && found[i] == c;
    let j = choose|j: int| 0 <= j < found.len() && found[j] == d;
    if i < j {
        lemma_equal_files_are_found(states, events, found, content, i, j);
    } else {
        lemma_equal_files_are_found(states, events, found, content, j, i);
        let groups = states.last().groups@;
        let g = choose|g: int|
            0 <= g < groups.len() && has_pair(
                files_view((#[trigger] groups[g]).files@),
                d.file,
                c.file,
            );
        let files = files_view(groups[g].files@);
        let (x, y) = choose|x: int, y: int|
            0 <= x < files.len() && 0 <= y < files.len() && x != y && #[trigger] files[x] == d.file
                && #[trigger] files[y] == c.file;
        assert(files[y] == c.file && files[x] == d.file);
        assert(has_pair(files, c.file, d.file));
    }
}

/// Every file in a group is a file of the tree, whatever happened on the way.
pub proof fn lemma_grouped_files_are_in_the_tree(
    tree: Tree,
    cwd: Seq<u8>,
    rule: WalkRule,
    views: Seq<WalkView>,
    states: Seq<DuplicateScan>,
    events: Seq<ScanEvent>,
    g: int,
    a: int,
)
    requires
        is_walk(tree, cwd, rule, views),
        follows(views, states),
        is_course(states, events),
        is_fresh(states[0]),
        0 <= g < states.last().groups@.len(),
        0 <= a < states.last().groups@[g].files@.len(),
    ensures
        exists|c: CandidateView| #[trigger]
            is_in_tree(tree, cwd, rule, c) && c.file
                == states.last().groups@[g].files@[a]@,
{
    broadcast use vstd::seq_lib::group_to_multiset_ensures;

    let found = views.last().found;
    let groups = states.last().groups@;
    let x: DuplicateFileView = groups[g].files@[a]@;
    lemma_groups_repeat_nothing(states, events, found);
    let parts = groups.map_values(|g: DuplicateGroup| list_files(g.files@));
    let files = files_view(groups[g].files@);
    assert(files[a] == x);
    assert(files.contains(x));
    assert(parts[g].count(x) > 0);
    lemma_part_of_together(parts, g, x);
    assert(grouped_files(groups).count(x) <= candidate_files(found).count(x));
    let all = found.map_values(|c: CandidateView| c.file);
    assert(all.contains(x));
    let i = choose|i: int| 0 <= i < all.len() && all[i] == x;
    assert(found.contains(found[i]));
    lemma_walk_finds_nothing_else(tree, cwd, rule, views, found[i]);
}

/// In a tree where no path is listed twice, no path is in two groups or twice in
/// one, whatever happened on the way.
pub proof fn lemma_no_path_of_a_tree_is_grouped_twice(
    tree: Tree,
    cwd: Seq<u8>,
    rule: WalkRule,
    views: Seq<WalkView>,
    states: Seq<DuplicateScan>,
    events: Seq<ScanEvent>,
    g: int,
    a: int,
    h: int,
    b: int,
)
    requires
        is_walk(tree, cwd, rule, views),
        lists_once(tree, cwd),
        follows(views, states),
        is_course(states, events),
        is_fresh(states[0]),
        ({
            let groups = states.last().groups@;
            &&& 0 <= g < groups.len() && 0 <= a < groups[g].files@.len()
            &&& 0 <= h < groups.len() && 0 <= b < groups[h].files@.len()
            &&& components(groups[g].files@[a].path@) == components(groups[h].files@[b].path@)
        }),
    ensures
        g == h && a == b,
{
    let found = views.last().found;
    assert forall|i: int, j: int| 0 <= i < j < found.len() implies components(
        (#[trigger] found[i]).file.path,
    ) != components((#[trigger] found[j]).file.path) by {
        lemma_walk_finds_no_path_twice(tree, cwd, rule, views, i, j);
    }
    lemma_no_path_is_grouped_twice(states, events, found, g, a, h, b);
}

} // verus!
