//! What the duplicate finder lists, and where.

use crate::browsing_laws::focus_moved;
use crate::duplicate_pool::{submitted, PoolView};
use crate::duplicates::{no_stats, DuplicateFileView, DuplicateGroupView, DuplicateScanStats};
use crate::finder::{
    entry_of, lemma_flat_add, opened, scan_request, synced, synced_finder, with_batch, with_focus,
    with_focus_moved, with_result, AppView, EffectView, EntryView,
};
use crate::finder_actions::flat_pairs;
use crate::finder_model::{
    flat_files, flat_rows, parent_label, relative_label, shown_name, FinderView,
};
use crate::path::{components, file_name_of, parent_of, relative_to, shown_text};
use crate::platform::Platform;
use crate::text::{forward_slashes, lowercase_text};
use crate::walk::EntryKind;
use vstd::prelude::*;
use vstd::utf8::{decode_utf8, valid_utf8};

verus! {

/// Where the first file of a group stands: behind all files of the groups before it.
pub open spec fn place_of(groups: Seq<DuplicateGroupView>, g: int) -> int
    decreases g,
{
    if g <= 0 {
        0
    } else {
        place_of(groups, g - 1) + groups[g - 1].files.len()
    }
}

proof fn lemma_place_of_fewer(groups: Seq<DuplicateGroupView>, g: int)
    requires
        0 <= g < groups.len(),
    ensures
        place_of(groups.drop_last(), g) == place_of(groups, g),
    decreases g,
{
    if g > 0 {
        lemma_place_of_fewer(groups, g - 1);
        assert(groups.drop_last()[g - 1] == groups[g - 1]);
    }
}

/// The files stand in the order of the groups and, within a group, in its order; each
/// line knows its group, counted from one, and whether it is the first of it. There are
/// as many lines as files in all groups.
pub proof fn lemma_files_stand_in_order(groups: Seq<DuplicateGroupView>, g: int, k: int)
    requires
        0 <= g < groups.len(),
        0 <= k < groups[g].files.len(),
    ensures
        0 <= place_of(groups, g) + k < flat_files(groups).len(),
        flat_files(groups)[place_of(groups, g) + k] == groups[g].files[k],
        flat_pairs(groups)[place_of(groups, g) + k] == (groups[g].id, groups[g].files[k]),
        flat_rows(groups)[place_of(groups, g) + k].rank == g + 1,
        flat_rows(groups)[place_of(groups, g) + k].first <==> k == 0,
        flat_rows(groups)[place_of(groups, g) + k].file == groups[g].files[k],
    decreases groups.len(),
{
    let fewer = groups.drop_last();
    lemma_lines_are_counted(fewer);
    lemma_lines_are_counted(groups);
    if g < groups.len() - 1 {
        assert(fewer[g] == groups[g]);
        lemma_files_stand_in_order(fewer, g, k);
        lemma_place_of_fewer(groups, g);
    } else {
        lemma_place_of_fewer(groups, g);
    }
}

/// There are as many lines as all groups have files.
pub proof fn lemma_lines_are_counted(groups: Seq<DuplicateGroupView>)
    ensures
        flat_files(groups).len() == place_of(groups, groups.len() as int),
        flat_pairs(groups).len() == place_of(groups, groups.len() as int),
        flat_rows(groups).len() == place_of(groups, groups.len() as int),
    decreases groups.len(),
{
    if groups.len() > 0 {
        let n = groups.len() - 1;
        lemma_lines_are_counted(groups.drop_last());
        lemma_place_of_fewer(groups, n);
        assert(groups[n] == groups.last());
    }
}

/// The lines on the screen are the files from the first that is shown on, as many as fit
/// and as there are. Each shows its file, where it lies, the group it belongs to, whether
/// it is chosen and whether it has the focus.
pub proof fn lemma_lines_show_the_files(finder: FinderView, max_rows: int, k: int)
    requires
        finder.scroll >= 0,
        max_rows >= 0,
        0 <= k < max_rows,
        finder.scroll + k < finder.files().len(),
    ensures
        ({
            let rows = finder.rows(max_rows);
            let file = finder.files()[finder.scroll + k];
            &&& k < rows.len()
            &&& rows[k].index == finder.scroll + k
            &&& rows[k].path == file.path
            &&& rows[k].name == file.name
            &&& rows[k].size == file.size
            &&& rows[k].parent == parent_label(file.path, finder.cwd, finder.platform)
            &&& rows[k].selected <==> finder.selected_paths.contains_key(components(file.path))
            &&& rows[k].focused <==> finder.selected == finder.scroll + k
            &&& rows[k].group_rank == flat_rows(finder.groups)[finder.scroll + k].rank
            &&& rows[k].group_first == flat_rows(finder.groups)[finder.scroll + k].first
        }),
{
    lemma_rows_are_files(finder.groups);
}

/// No more lines are shown than fit, nor than there are files left.
pub proof fn lemma_lines_end_with_the_files(finder: FinderView, max_rows: int)
    requires
        finder.scroll >= 0,
        max_rows >= 0,
    ensures
        finder.rows(max_rows).len() <= max_rows,
        finder.rows(max_rows).len() > 0 ==> finder.scroll + finder.rows(max_rows).len()
            <= finder.files().len(),
{
}

proof fn lemma_rows_are_files(groups: Seq<DuplicateGroupView>)
    ensures
        flat_rows(groups).len() == flat_files(groups).len(),
        forall|i: int|
            0 <= i < flat_files(groups).len() ==> (#[trigger] flat_rows(groups)[i]).file
                == flat_files(groups)[i],
    decreases groups.len(),
{
    if groups.len() > 0 {
        lemma_rows_are_files(groups.drop_last());
    }
}

/// The lines in sight move only as far as the focus needs it: not at all where it is in
/// sight, else so that it becomes the first or the last line. They never run past the
/// last file.
pub proof fn lemma_lines_move_as_little_as_can_be(finder: FinderView, rows_visible: int)
    requires
        0 <= finder.selected,
        0 <= finder.scroll,
        finder.files().len() > 0,
    ensures
        ({
            let count = finder.files().len() as int;
            let visible = if rows_visible < 1 {
                1
            } else {
                rows_visible
            };
            let after = synced_finder(finder, rows_visible);
            let i = after.selected;
            let room = finder.scroll == 0 || finder.scroll + visible <= count;
            &&& finder.selected < count ==> i == finder.selected
            &&& finder.selected >= count ==> i == count - 1
            &&& room && finder.scroll <= i < finder.scroll + visible ==> after.scroll
                == finder.scroll
            &&& i < finder.scroll && i + visible <= count ==> after.scroll == i
            &&& i >= finder.scroll + visible ==> after.scroll + visible == i + 1
            &&& after.scroll <= i < after.scroll + visible
            &&& after.scroll == 0 || after.scroll + visible <= count
            &&& after == (FinderView { selected: i, scroll: after.scroll, ..finder })
        }),
{
}

/// Without files, the focus and the first line are at the top.
pub proof fn lemma_empty_list_is_at_its_top(finder: FinderView, rows_visible: int)
    requires
        finder.files().len() == 0,
    ensures
        synced_finder(finder, rows_visible) == (FinderView { selected: 0, scroll: 0, ..finder }),
{
}

/// The focus goes to the file that is asked for, or to the last where there are fewer;
/// moved by a number of files, it goes as far as there are files.
pub proof fn lemma_focus_goes_where_it_is_sent(v: AppView, index: int, delta: int)
    requires
        v.finder is Some,
        0 <= v.finder->0.selected < v.finder->0.files().len(),
        0 <= index,
    ensures
        ({
            let last = v.finder->0.files().len() - 1;
            let aim = v.finder->0.selected + delta;
            &&& index <= last ==> focus_moved(v, with_focus(v, index), index)
            &&& index > last ==> focus_moved(v, with_focus(v, index), last)
            &&& 0 <= aim <= last ==> focus_moved(v, with_focus_moved(v, delta), aim)
            &&& aim < 0 ==> focus_moved(v, with_focus_moved(v, delta), 0)
            &&& aim > last ==> focus_moved(v, with_focus_moved(v, delta), last)
        }),
{
}

/// Opening the finder shows an empty list for the directory of the browser, with the
/// preview on, and closes help and search. Nothing stays chosen in the browser.
pub proof fn lemma_finder_opens_empty(v: AppView, refused: bool)
    ensures
        ({
            let after = opened(v, refused);
            &&& after.finder == Some(
                FinderView {
                    cwd: v.cwd,
                    platform: v.platform,
                    groups: Seq::empty(),
                    stats: no_stats(),
                    selected: 0,
                    scroll: 0,
                    selected_paths: Map::empty(),
                    loading: !refused,
                    error: if refused {
                        Some("Duplicate worker unavailable"@)
                    } else {
                        None
                    },
                    preview_visible: true,
                    preview_path: None,
                },
            )
            &&& after == (AppView {
                finder: after.finder,
                help: false,
                search: false,
                browser_selection: Map::empty(),
                token: after.token,
                effects: v.effects + seq![
                    EffectView::ClearImageGeometry,
                    EffectView::ClearWheelScroll,
                ],
                ..v
            })
            &&& v.token < u64::MAX ==> after.token == v.token + 1
            &&& v.token == u64::MAX ==> after.token == 0
        }),
{
    assert(opened(v, refused).effects =~= v.effects + seq![
        EffectView::ClearImageGeometry,
        EffectView::ClearWheelScroll,
    ]);
}

/// The search that is asked for is one of the browser's directory, as it looks now and
/// with what it shows, under the token of the finder that was opened.
pub proof fn lemma_search_is_of_the_directory(v: AppView, pool: PoolView)
    requires
        !pool.closed,
    ensures
        ({
            let request = submitted(pool, scan_request(v)).pending->0;
            &&& submitted(pool, scan_request(v)).pending is Some
            &&& request.cwd == v.cwd
            &&& request.show_hidden == v.show_hidden
            &&& request.fingerprint == v.fingerprint
            &&& request.token == opened(v, false).token
        }),
{
}

/// Groups that come in are listed behind the others, with the numbers of the search so
/// far; an error is gone. The search goes on as it did.
pub proof fn lemma_batch_is_added(
    v: AppView,
    groups: Seq<DuplicateGroupView>,
    stats: DuplicateScanStats,
)
    requires
        v.finder is Some,
    ensures
        ({
            let after = with_batch(v, groups, stats);
            let finder = after.finder->0;
            &&& after == (AppView { finder: after.finder, effects: after.effects, ..v })
            &&& after.finder is Some
            &&& finder == (FinderView {
                groups: v.finder->0.groups + groups,
                stats,
                error: None,
                selected: finder.selected,
                scroll: finder.scroll,
                preview_path: finder.preview_path,
                ..v.finder->0
            })
        }),
{
}

/// The first groups that come in bring up the images and, where the preview is shown,
/// that of the first file.
pub proof fn lemma_first_batch_is_previewed(
    v: AppView,
    groups: Seq<DuplicateGroupView>,
    stats: DuplicateScanStats,
)
    requires
        v.finder is Some,
        v.finder->0.files().len() == 0,
        v.finder->0.selected == 0,
        flat_files(groups).len() > 0,
    ensures
        ({
            let after = with_batch(v, groups, stats);
            let path = flat_files(groups)[0].path;
            let was = v.finder->0.preview_path;
            let known = was is Some && components(was->0) == components(path);
            let cleared = v.effects.push(EffectView::ClearImageGeometry);
            &&& after.finder->0.selected == 0
            &&& v.finder->0.preview_visible && !known ==> after.finder->0.preview_path == Some(path)
                && after.effects == cleared.push(EffectView::RefreshPreview)
            &&& !v.finder->0.preview_visible || known ==> after.finder->0.preview_path == was
                && after.effects == cleared
        }),
{
    lemma_flat_add(v.finder->0.groups, groups);
    let all = flat_files(v.finder->0.groups + groups);
    assert(all =~= flat_files(groups));
}

/// At the end of a search the finder lists what it found, with its numbers, from the top;
/// nothing is loading any more, and what was chosen stays chosen.
pub proof fn lemma_result_is_listed(
    v: AppView,
    groups: Seq<DuplicateGroupView>,
    stats: DuplicateScanStats,
)
    requires
        v.finder is Some,
    ensures
        ({
            let after = with_result(v, Ok((groups, stats)));
            &&& after.finder is Some
            &&& after == (AppView { finder: after.finder, effects: after.effects, ..v })
            &&& after.finder->0 == (FinderView {
                groups,
                stats,
                error: None,
                loading: false,
                selected: 0,
                scroll: 0,
                preview_path: after.finder->0.preview_path,
                ..v.finder->0
            })
        }),
{
}

/// A search that failed leaves an empty list with the error and no numbers; what was
/// chosen stays chosen.
pub proof fn lemma_failure_is_shown(v: AppView, error: Seq<char>)
    requires
        v.finder is Some,
    ensures
        ({
            let after = with_result(v, Err(error));
            &&& after.finder == Some(
                FinderView {
                    groups: Seq::empty(),
                    stats: no_stats(),
                    error: Some(error),
                    loading: false,
                    selected: 0,
                    scroll: 0,
                    ..v.finder->0
                },
            )
            &&& after == (AppView { finder: after.finder, effects: after.effects, ..v })
            &&& after.effects == if v.finder->0.files().len() > 0 {
                v.effects.push(EffectView::ClearImageGeometry)
            } else {
                v.effects
            }
        }),
{
}

/// The images are forgotten at the end of a search exactly where files appear that were
/// not there or vanish that were; the preview of the first file is asked for where it is
/// shown and is not that already.
pub proof fn lemma_result_is_previewed(
    v: AppView,
    groups: Seq<DuplicateGroupView>,
    stats: DuplicateScanStats,
)
    requires
        v.finder is Some,
        flat_files(groups).len() > 0,
    ensures
        ({
            let after = with_result(v, Ok((groups, stats)));
            let path = flat_files(groups)[0].path;
            let was = v.finder->0.preview_path;
            let known = was is Some && components(was->0) == components(path);
            let cleared = if v.finder->0.files().len() == 0 {
                v.effects.push(EffectView::ClearImageGeometry)
            } else {
                v.effects
            };
            &&& v.finder->0.preview_visible && !known ==> after.finder->0.preview_path == Some(path)
                && after.effects == cleared.push(EffectView::RefreshPreview)
            &&& !v.finder->0.preview_visible || known ==> after.finder->0.preview_path == was
                && after.effects == cleared
        }),
{
}

/// Without a finder, nothing that a search sends changes anything.
pub proof fn lemma_nothing_is_listed_without_a_finder(
    v: AppView,
    groups: Seq<DuplicateGroupView>,
    stats: DuplicateScanStats,
    error: Seq<char>,
)
    requires
        v.finder is None,
    ensures
        with_batch(v, groups, stats) == v,
        with_result(v, Ok((groups, stats))) == v,
        with_result(v, Err(error)) == v,
        synced(v) == v,
{
}

/// A file that lies in the directory that was searched is shown in `.`; one further below
/// in its directory there, with forward slashes; one elsewhere in its directory in full.
pub proof fn lemma_place_is_shown(path: Seq<u8>, cwd: Seq<u8>, platform: Platform)
    ensures
        parent_of(path) is None ==> parent_label(path, cwd, platform).len() == 0,
        parent_of(path) is Some ==> ({
            let parent = parent_of(path)->0;
            let label = parent_label(path, cwd, platform);
            &&& relative_to(parent, cwd) is None ==> label == shown_text(parent, platform)
            &&& relative_to(parent, cwd) is Some ==> ({
                let below = forward_slashes(shown_text(relative_to(parent, cwd)->0, platform));
                &&& below.len() == 0 ==> label == "."@
                &&& below.len() > 0 ==> label == below
            })
        }),
{
}

/// A file is shown under its own name where that is text, else under its whole path; and
/// by its way from the directory that was searched, or in full where it lies elsewhere.
pub proof fn lemma_name_is_shown(path: Seq<u8>, cwd: Seq<u8>, platform: Platform)
    ensures
        file_name_of(path) is Some && valid_utf8(file_name_of(path)->0) ==> shown_name(
            path,
            platform,
        ) == decode_utf8(file_name_of(path)->0),
        file_name_of(path) is None || !valid_utf8(file_name_of(path)->0) ==> shown_name(
            path,
            platform,
        ) == shown_text(path, platform),
        relative_to(path, cwd) is Some ==> relative_label(path, cwd, platform) == forward_slashes(
            shown_text(relative_to(path, cwd)->0, platform),
        ),
        relative_to(path, cwd) is None ==> relative_label(path, cwd, platform) == forward_slashes(
            shown_text(path, platform),
        ),
{
}

/// A listed file stands for an ordinary file that can be written, under its name, size
/// and time.
pub proof fn lemma_file_becomes_an_entry(file: DuplicateFileView)
    ensures
        entry_of(file) == (EntryView {
            path: file.path,
            name: file.name,
            name_key: lowercase_text(file.name),
            kind: EntryKind::File,
            symlink: None,
            size: file.size,
            modified: file.modified,
            readonly: false,
        }),
{
}

/// The finder lists the files of its groups, and the focus is on the one at its place.
pub proof fn lemma_finder_lists_its_groups(finder: FinderView, g: int, k: int)
    requires
        0 <= g < finder.groups.len(),
        0 <= k < finder.groups[g].files.len(),
    ensures
        finder.count() == finder.files().len(),
        finder.files().len() == place_of(finder.groups, finder.groups.len() as int),
        finder.files()[place_of(finder.groups, g) + k] == finder.groups[g].files[k],
        finder.focus() is Some <==> 0 <= finder.selected < finder.files().len(),
        finder.focus() is Some ==> finder.focus()->0 == finder.files()[finder.selected],
        finder.selected == place_of(finder.groups, g) + k ==> finder.focus() == Some(
            finder.groups[g].files[k],
        ),
{
    lemma_files_stand_in_order(finder.groups, g, k);
    lemma_lines_are_counted(finder.groups);
    lemma_place_is_not_negative(finder.groups, g);
}

proof fn lemma_place_is_not_negative(groups: Seq<DuplicateGroupView>, g: int)
    ensures
        place_of(groups, g) >= 0,
    decreases g,
{
    if g > 0 {
        lemma_place_is_not_negative(groups, g - 1);
    }
}

} // verus!
