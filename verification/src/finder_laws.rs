//! What can be relied on in the duplicate finder.

use crate::duplicate_pool::{all_canceled, hands_out, submitted, PoolView};
use crate::duplicates::{DuplicateFileView, DuplicateGroupView, DuplicateScanStats};
use crate::finder::{
    closed, file_count, focused_path, lemma_flat_add, larger, opened, previewed, scan_request,
    synced, synced_finder, with_batch, with_effect, with_finder, with_focus, with_focus_moved,
    with_result, Action, AppView, EffectView,
};
use crate::finder_actions::{
    all_renamed, has_choice, lemma_renamed_count, rename_done, renamed_finder, unchosen_or_closed,
    with_all_chosen, with_choice_toggled, with_files, with_renames, RenameOutcome,
};
use crate::finder_input::{
    after_action, after_key, after_mouse, hit_under, KeyEvent, MouseEvent,
};
use crate::finder_model::{flat_files, FinderView};
use crate::path::components;
use vstd::prelude::*;

verus! {

/// Wherever the focus and the first line were, they end up among the files, the
/// focus in sight and no line empty that could show a file.
pub proof fn lemma_focus_in_sight(finder: FinderView, rows_visible: int)
    requires
        finder.selected >= 0,
        finder.scroll >= 0,
    ensures
        ({
            let after = synced_finder(finder, rows_visible);
            let visible = larger(rows_visible, 1);
            if finder.count() == 0 {
                after.selected == 0 && after.scroll == 0
            } else {
                &&& 0 <= after.selected < after.count()
                &&& 0 <= after.scroll <= after.selected < after.scroll + visible
                &&& after.scroll == 0 || after.scroll + visible <= after.count()
            }
        }),
{
}

/// Bringing the focus in sight twice is bringing it in sight once.
pub proof fn lemma_sync_settles(finder: FinderView, rows_visible: int)
    requires
        finder.selected >= 0,
        finder.scroll >= 0,
    ensures
        synced_finder(synced_finder(finder, rows_visible), rows_visible) == synced_finder(
            finder,
            rows_visible,
        ),
{
    lemma_focus_in_sight(finder, rows_visible);
}

/// Groups that come in while a search goes on do not take the focus away from a
/// file, change what is chosen, or touch the preview.
pub proof fn lemma_batch_keeps_focus(
    v: AppView,
    groups: Seq<DuplicateGroupView>,
    stats: DuplicateScanStats,
)
    requires
        v.finder is Some,
        0 <= v.finder->0.selected < v.finder->0.count(),
    ensures
        ({
            let after = with_batch(v, groups, stats);
            &&& after.finder is Some
            &&& focused_path(after) == focused_path(v)
            &&& after.finder->0.selected == v.finder->0.selected
            &&& after.finder->0.selected_paths == v.finder->0.selected_paths
            &&& after.finder->0.preview_path == v.finder->0.preview_path
            &&& after.effects == v.effects
            &&& after.finder->0.files() == v.finder->0.files() + flat_files(groups)
        }),
{
    lemma_flat_add(v.finder->0.groups, groups);
    let finder = v.finder->0;
    let all = flat_files(finder.groups + groups);
    assert(all[finder.selected] == finder.files()[finder.selected]);
}

/// The end of a search brings the focus to the first file and the list to its
/// top, and keeps what is chosen.
pub proof fn lemma_result_resets_focus(
    v: AppView,
    groups: Seq<DuplicateGroupView>,
    stats: DuplicateScanStats,
)
    requires
        v.finder is Some,
        flat_files(groups).len() > 0,
    ensures
        ({
            let after = with_result(v, Ok((groups, stats)));
            &&& after.finder is Some
            &&& after.finder->0.selected == 0
            &&& after.finder->0.scroll == 0
            &&& focused_path(after) == Some(flat_files(groups)[0].path)
            &&& after.finder->0.selected_paths == v.finder->0.selected_paths
            &&& !after.finder->0.loading
            &&& after.finder->0.preview_visible ==> after.finder->0.preview_path is Some
                && components(after.finder->0.preview_path->0) == components(
                flat_files(groups)[0].path,
            )
        }),
{
}

/// A search that failed leaves no files behind, and says why.
pub proof fn lemma_failed_search_shows_nothing(v: AppView, error: Seq<char>)
    requires
        v.finder is Some,
    ensures
        ({
            let after = with_result(v, Err(error));
            &&& after.finder is Some
            &&& after.finder->0.count() == 0
            &&& after.finder->0.error == Some(error)
            &&& !after.finder->0.loading
            &&& focused_path(after) is None
        }),
{
}

/// Choosing a file twice leaves chosen what was chosen.
pub proof fn lemma_choosing_twice_undoes(v: AppView)
    requires
        v.finder is Some,
        0 <= v.finder->0.selected < v.finder->0.count(),
    ensures
        ({
            let once = with_choice_toggled(v);
            let twice = with_choice_toggled(with_focus(once, v.finder->0.selected));
            &&& once.finder is Some
            &&& twice.finder is Some
            &&& once.finder->0.selected_paths.dom() != v.finder->0.selected_paths.dom()
            &&& twice.finder->0.selected_paths.dom() == v.finder->0.selected_paths.dom()
        }),
{
    let finder = v.finder->0;
    let c = components(finder.files()[finder.selected].path);
    let once = with_choice_toggled(v);
    assert(once.finder->0.groups == finder.groups);
    let back = with_focus(once, finder.selected);
    assert(back.finder->0.selected == finder.selected);
    assert(back.finder->0.groups == finder.groups);
    assert(back.finder->0.selected_paths == once.finder->0.selected_paths);
    let twice = with_choice_toggled(back);
    if finder.selected_paths.contains_key(c) {
        assert(!once.finder->0.selected_paths.dom().contains(c));
        assert(twice.finder->0.selected_paths.dom() =~= finder.selected_paths.dom());
    } else {
        assert(once.finder->0.selected_paths.dom().contains(c));
        assert(twice.finder->0.selected_paths.dom() =~= finder.selected_paths.dom());
    }
}

proof fn lemma_with_files(
    set: Map<Seq<Seq<u8>>, Seq<u8>>,
    files: Seq<DuplicateFileView>,
)
    ensures
        set.dom().subset_of(with_files(set, files).dom()),
        forall|i: int|
            0 <= i < files.len() ==> with_files(set, files).contains_key(
                components((#[trigger] files[i]).path),
            ),
        forall|c: Seq<Seq<u8>>| #[trigger]
            with_files(set, files).contains_key(c) ==> set.contains_key(c) || exists|i: int|
                0 <= i < files.len() && components((#[trigger] files[i]).path) == c,
    decreases files.len(),
{
    if files.len() > 0 {
        let fewer = files.drop_last();
        let last = files[files.len() - 1];
        lemma_with_files(set, fewer);
        assert forall|i: int| 0 <= i < files.len() implies with_files(set, files).contains_key(
            components((#[trigger] files[i]).path),
        ) by {
            if i < fewer.len() {
                assert(with_files(set, fewer).contains_key(components(fewer[i].path)));
            }
        }
        assert forall|c: Seq<Seq<u8>>| #[trigger]
            with_files(set, files).contains_key(c) implies set.contains_key(c) || exists|i: int|
            0 <= i < files.len() && components((#[trigger] files[i]).path) == c by {
            if with_files(set, fewer).contains_key(c) {
                if !set.contains_key(c) {
                    let i = choose|i: int|
                        0 <= i < fewer.len() && components((#[trigger] fewer[i]).path) == c;
                    assert(components(files[i].path) == c);
                }
            } else {
                assert(components(files[files.len() - 1].path) == c);
            }
        }
    }
}

/// Choosing all files chooses every file that is listed, and besides these only
/// what was chosen before.
pub proof fn lemma_all_are_chosen(v: AppView)
    requires
        v.finder is Some,
    ensures
        ({
            let before = v.finder->0;
            let after = with_all_chosen(v).finder->0;
            &&& with_all_chosen(v).finder is Some
            &&& forall|i: int|
                0 <= i < before.files().len() ==> after.selected_paths.contains_key(
                    components((#[trigger] before.files()[i]).path),
                )
            &&& before.selected_paths.dom().subset_of(after.selected_paths.dom())
            &&& forall|c: Seq<Seq<u8>>| #[trigger]
                after.selected_paths.contains_key(c) ==> before.selected_paths.contains_key(c)
                    || exists|i: int|
                    0 <= i < before.files().len() && components(
                        (#[trigger] before.files()[i]).path,
                    ) == c
            &&& after.files() == before.files()
            &&& after.selected == before.selected
        }),
{
    lemma_with_files(v.finder->0.selected_paths, v.finder->0.files());
}

proof fn lemma_all_renamed_keep(finder: FinderView, pairs: Seq<(Seq<u8>, Seq<u8>)>)
    ensures
        ({
            let after = all_renamed(finder, pairs);
            &&& after.count() == finder.count()
            &&& after.groups.len() == finder.groups.len()
            &&& after.selected == finder.selected
            &&& after.scroll == finder.scroll
            &&& after.loading == finder.loading
            &&& after.stats == finder.stats
            &&& after.error == finder.error
            &&& after.cwd == finder.cwd
            &&& after.preview_visible == finder.preview_visible
        }),
    decreases pairs.len(),
{
    if pairs.len() > 0 {
        lemma_all_renamed_keep(finder, pairs.drop_last());
        let before = all_renamed(finder, pairs.drop_last());
        lemma_renamed_count(before, pairs.last().0, pairs.last().1);
    }
}

/// Renaming files, even while a search goes on, neither restarts the search nor
/// moves anything in the list.
pub proof fn lemma_renaming_keeps_places(v: AppView, pairs: Seq<(Seq<u8>, Seq<u8>)>)
    requires
        v.finder is Some,
    ensures
        ({
            let after = with_renames(v, pairs);
            &&& after.finder is Some
            &&& after.token == v.token
            &&& after.finder->0.loading == v.finder->0.loading
            &&& after.finder->0.count() == v.finder->0.count()
            &&& after.finder->0.groups.len() == v.finder->0.groups.len()
            &&& after.finder->0.selected == v.finder->0.selected
            &&& after.finder->0.scroll == v.finder->0.scroll
        }),
{
    lemma_all_renamed_keep(v.finder->0, pairs);
}

/// A file that was chosen stays chosen under its new name, and no longer under
/// its old one, where the name is another.
pub proof fn lemma_renamed_file_stays_chosen(
    finder: FinderView,
    old_path: Seq<u8>,
    new_path: Seq<u8>,
)
    ensures
        ({
            let after = renamed_finder(finder, old_path, new_path);
            &&& finder.selected_paths.contains_key(components(old_path))
                ==> after.selected_paths.contains_key(components(new_path))
            &&& components(old_path) != components(new_path)
                ==> !after.selected_paths.contains_key(components(old_path))
        }),
{
}

/// Giving up is done in two steps where files are chosen: first they are chosen
/// no more and the finder stays, then it is closed.
pub proof fn lemma_giving_up_twice_closes(v: AppView)
    requires
        v.finder is Some,
    ensures
        has_choice(v) ==> unchosen_or_closed(v).finder is Some && !has_choice(
            unchosen_or_closed(v),
        ) && unchosen_or_closed(v).token == v.token,
        !has_choice(v) ==> unchosen_or_closed(v).finder is None,
        unchosen_or_closed(unchosen_or_closed(v)).finder is None,
{
}

/// Opening or closing the finder makes every earlier search an old one.
pub proof fn lemma_tokens_change(v: AppView, refused: bool)
    ensures
        opened(v, refused).token != v.token,
        closed(v).token != v.token,
        scan_request(v).token == opened(v, refused).token,
{
}

/// A finder that was opened and closed leaves no request behind, and its search,
/// if it runs, is canceled.
pub proof fn lemma_closing_gives_up_search(v: AppView, pool: PoolView)
    ensures
        ({
            let after = all_canceled(submitted(pool, scan_request(v)));
            &&& after.pending is None
            &&& !hands_out(after)
            &&& after.active is Some ==> after.active->0.canceled
            &&& closed(opened(v, pool.closed)).finder is None
        }),
{
}

/// What can happen to an application with a finder.
pub ghost enum FinderEvent {
    Opened { refused: bool },
    Closed,
    Batch { groups: Seq<DuplicateGroupView>, stats: DuplicateScanStats },
    Ended { result: Result<(Seq<DuplicateGroupView>, DuplicateScanStats), Seq<char>> },
    Key { key: KeyEvent, action: Option<Action> },
    Mouse { mouse: MouseEvent },
    Renamed { pairs: Seq<(Seq<u8>, Seq<u8>)> },
    RenameTried {
        original_name: Seq<char>,
        new_name: Seq<char>,
        old_path: Seq<u8>,
        new_path: Seq<u8>,
        outcome: RenameOutcome,
    },
    Synced,
    /// Anything that leaves the finder alone.
    Elsewhere { other: AppView },
}

/// An application after something happened.
pub open spec fn after_event(v: AppView, event: FinderEvent) -> AppView {
    match event {
        FinderEvent::Opened { refused } => opened(v, refused),
        FinderEvent::Closed => closed(v),
        FinderEvent::Batch { groups, stats } => with_batch(v, groups, stats),
        FinderEvent::Ended { result } => with_result(v, result),
        FinderEvent::Key { key, action } => after_key(v, key, action),
        FinderEvent::Mouse { mouse } => after_mouse(v, mouse),
        FinderEvent::Renamed { pairs } => with_renames(v, pairs),
        FinderEvent::RenameTried { original_name, new_name, old_path, new_path, outcome } =>
            rename_done(v, original_name, new_name, old_path, new_path, outcome),
        FinderEvent::Synced => synced(v),
        FinderEvent::Elsewhere { other } => AppView { finder: v.finder, ..other },
    }
}

/// An application after several things happened.
pub open spec fn after_events(v: AppView, events: Seq<FinderEvent>) -> AppView
    decreases events.len(),
{
    if events.len() == 0 {
        v
    } else {
        after_event(after_events(v, events.drop_last()), events.last())
    }
}

/// Whether an error is shown only where nothing is loading and no file is listed.
pub open spec fn shows_error_alone(v: AppView) -> bool {
    v.finder is Some && v.finder->0.error is Some ==> !v.finder->0.loading && v.finder->0.count()
        == 0
}

/// Whether a finder, where there still is one, lists, loads and says the same.
spec fn keeps_list(before: AppView, after: AppView) -> bool {
    after.finder is Some ==> {
        &&& before.finder is Some
        &&& after.finder->0.groups == before.finder->0.groups
        &&& after.finder->0.error == before.finder->0.error
        &&& after.finder->0.loading == before.finder->0.loading
    }
}

proof fn lemma_sync_keeps_list(v: AppView)
    ensures
        keeps_list(v, synced(v)),
        keeps_list(v, previewed(v)),
{
}

proof fn lemma_focus_keeps_list(v: AppView, index: int)
    ensures
        keeps_list(v, with_focus(v, index)),
{
}

proof fn lemma_focus_move_keeps_list(v: AppView, delta: int)
    ensures
        keeps_list(v, with_focus_moved(v, delta)),
{
}

proof fn lemma_action_keeps_list(v: AppView, action: Action)
    ensures
        after_action(v, action) is Some ==> keeps_list(v, after_action(v, action)->0),
{
    match action {
        Action::NavUp => lemma_focus_move_keeps_list(v, -1),
        Action::NavDown => lemma_focus_move_keeps_list(v, 1),
        Action::PageUp => lemma_focus_move_keeps_list(v, -larger(v.rows_visible, 1)),
        Action::PageDown => lemma_focus_move_keeps_list(v, larger(v.rows_visible, 1)),
        Action::JumpFirst => lemma_focus_keeps_list(v, 0),
        Action::JumpLast => lemma_focus_keeps_list(v, larger(file_count(v) - 1, 0)),
        _ => {},
    }
}

proof fn lemma_batch_shows_error_alone(
    v: AppView,
    groups: Seq<DuplicateGroupView>,
    stats: DuplicateScanStats,
)
    ensures
        shows_error_alone(with_batch(v, groups, stats)),
{
    if v.finder is Some {
        let after = FinderView {
            groups: v.finder->0.groups + groups,
            stats,
            error: None,
            ..v.finder->0
        };
        let shown = with_finder(v, after);
        let cleared = with_effect(shown, EffectView::ClearImageGeometry);
        lemma_sync_keeps_list(shown);
        lemma_sync_keeps_list(cleared);
        lemma_sync_keeps_list(synced(cleared));
    }
}

proof fn lemma_event_shows_error_alone(v: AppView, event: FinderEvent)
    requires
        shows_error_alone(v),
    ensures
        shows_error_alone(after_event(v, event)),
{
    match event {
        FinderEvent::Opened { .. } => {},
        FinderEvent::Closed => {},
        FinderEvent::Batch { groups, stats } => lemma_batch_shows_error_alone(v, groups, stats),
        FinderEvent::Ended { result } => {
            if let Err(error) = result {
                if v.finder is Some {
                    lemma_failed_search_shows_nothing(v, error);
                }
            }
        },
        FinderEvent::Key { key, action } => {
            if let Some(action) = action {
                lemma_action_keeps_list(v, action);
            }
            assert(keeps_list(v, after_key(v, key, action)));
        },
        FinderEvent::Mouse { mouse } => {
            if let Some(index) = hit_under(v.hits, mouse) {
                lemma_focus_keeps_list(v, index as int);
            }
            lemma_focus_move_keeps_list(v, 1);
            lemma_focus_move_keeps_list(v, -1);
            assert(keeps_list(v, after_mouse(v, mouse)));
        },
        FinderEvent::Renamed { pairs } => {
            if v.finder is Some {
                lemma_all_renamed_keep(v.finder->0, pairs);
            }
        },
        FinderEvent::RenameTried { old_path, new_path, .. } => {
            if v.finder is Some {
                lemma_all_renamed_keep(v.finder->0, seq![(old_path, new_path)]);
            }
        },
        FinderEvent::Synced => lemma_sync_keeps_list(v),
        FinderEvent::Elsewhere { .. } => {},
    }
}

/// Whatever happens after the application was started, an error is shown only
/// where nothing is loading and no file is listed.
pub proof fn lemma_error_is_shown_alone(v: AppView, events: Seq<FinderEvent>)
    requires
        v.finder is None,
    ensures
        shows_error_alone(after_events(v, events)),
    decreases events.len(),
{
    if events.len() > 0 {
        lemma_error_is_shown_alone(v, events.drop_last());
        lemma_event_shows_error_alone(after_events(v, events.drop_last()), events.last());
    }
}

} // verus!
