//! Which files an action in the duplicate finder is about.

use crate::browsing_laws::{focus_moved, is_ordinary, only_asks};
use crate::duplicates::DuplicateFileView;
use crate::finder::{
    closed, with_focus, with_focus_moved, with_preview_toggled, Action, AppView, BulkItemView,
    EffectView, RenameView, TrashTargetView,
};
use crate::finder_actions::{
    action_paths, bulk_rename_opened, editor_rename_opened, rename_opened, revealed,
    targets_opened, trash_prompted, trash_targets, with_all_chosen, with_choice_toggled,
    with_files,
};
use crate::finder_input::{after_key, KeyEvent};
use crate::finder_model::{shown_name, FinderView};
use crate::order::Order;
use crate::path::{components, components_order, file_name_of, shown_text};
use crate::path_set::{lemma_listing_is_the_set, PathSet};
use crate::platform::Platform;
use crate::text::lowercase_text;
use vstd::prelude::*;

verus! {

/// Whether paths are those of a set, each once and before those that are greater.
pub open spec fn are_all_of(paths: Seq<Seq<u8>>, set: Map<Seq<Seq<u8>>, Seq<u8>>) -> bool {
    &&& forall|i: int|
        0 <= i < paths.len() ==> set.contains_key(components(#[trigger] paths[i]))
            && set[components(paths[i])] == paths[i]
    &&& forall|c: Seq<Seq<u8>>| #[trigger] set.contains_key(c) ==> paths.contains(set[c])
    &&& forall|i: int, j: int|
        0 <= i < j < paths.len() ==> components_order(
            components(#[trigger] paths[i]),
            components(#[trigger] paths[j]),
        ) == Order::Less
}

/// Whether files are chosen, and which.
pub open spec fn has_chosen(v: AppView, chosen: PathSet) -> bool {
    &&& v.finder is Some
    &&& v.finder->0.selected_paths == chosen@
    &&& chosen.wf()
    &&& chosen@ != Map::<Seq<Seq<u8>>, Seq<u8>>::empty()
}

/// Whether no file is chosen and one has the focus.
pub open spec fn has_only_focus(v: AppView) -> bool {
    &&& v.finder is Some
    &&& v.finder->0.selected_paths == Map::<Seq<Seq<u8>>, Seq<u8>>::empty()
    &&& 0 <= v.finder->0.selected < v.finder->0.files().len()
}

/// Opening, copying paths and renaming in an editor are about the chosen files, all of
/// them and no others. What was cut or copied is forgotten where files are opened.
pub proof fn lemma_actions_are_about_the_chosen(v: AppView, key: KeyEvent, chosen: PathSet) ->
    (paths: Seq<Seq<u8>>)
    requires
        has_chosen(v, chosen),
        is_ordinary(key),
    ensures
        paths.len() > 0,
        are_all_of(paths, chosen@),
        only_asks(
            AppView { clipboard: false, ..v },
            after_key(v, key, Some(Action::Open)),
            EffectView::OpenPaths(paths),
        ),
        only_asks(v, after_key(v, key, Some(Action::CopyPath)), EffectView::CopyPaths(paths)),
        only_asks(
            v,
            after_key(v, key, Some(Action::RenameInEditor)),
            EffectView::RenameInEditor(paths),
        ),
{
    lemma_listing_is_the_set(chosen);
    action_paths(v)
}

/// Where no file is chosen, the same actions are about the file with the focus alone.
pub proof fn lemma_actions_are_about_the_focus(v: AppView, key: KeyEvent)
    requires
        has_only_focus(v),
        is_ordinary(key),
    ensures
        ({
            let path = v.finder->0.files()[v.finder->0.selected].path;
            &&& only_asks(
                AppView { clipboard: false, ..v },
                after_key(v, key, Some(Action::Open)),
                EffectView::OpenPaths(seq![path]),
            )
            &&& only_asks(
                v,
                after_key(v, key, Some(Action::CopyPath)),
                EffectView::CopyPaths(seq![path]),
            )
            &&& only_asks(
                v,
                after_key(v, key, Some(Action::RenameInEditor)),
                EffectView::RenameInEditor(seq![path]),
            )
        }),
{
}

/// With nothing chosen and no file, none of the actions asks for anything, but that the
/// clipboard gets no paths.
pub proof fn lemma_actions_need_files(v: AppView, key: KeyEvent)
    requires
        v.finder is Some,
        v.finder->0.selected_paths == Map::<Seq<Seq<u8>>, Seq<u8>>::empty(),
        v.finder->0.files().len() == 0,
        is_ordinary(key),
    ensures
        after_key(v, key, Some(Action::Open)) == v,
        after_key(v, key, Some(Action::Rename)) == v,
        after_key(v, key, Some(Action::RenameInEditor)) == v,
        !v.finder->0.loading ==> after_key(v, key, Some(Action::Trash)) == v,
        only_asks(
            v,
            after_key(v, key, Some(Action::CopyPath)),
            EffectView::CopyPaths(Seq::empty()),
        ),
{
}

/// Whether files to be trashed are those of the paths that have a file name, each under
/// that name and in the order of the paths.
pub open spec fn are_named_of(
    targets: Seq<TrashTargetView>,
    paths: Seq<Seq<u8>>,
    platform: Platform,
) -> bool {
    &&& forall|t: int|
        0 <= t < targets.len() ==> {
            let target = #[trigger] targets[t];
            &&& paths.contains(target.path)
            &&& file_name_of(target.path) is Some
            &&& target.name == shown_text(file_name_of(target.path)->0, platform)
            &&& !target.is_dir
        }
    &&& forall|i: int|
        0 <= i < paths.len() && file_name_of(#[trigger] paths[i]) is Some ==> exists|t: int|
            0 <= t < targets.len() && (#[trigger] targets[t]).path == paths[i]
}

proof fn lemma_named_paths_are_targets(paths: Seq<Seq<u8>>, platform: Platform)
    ensures
        are_named_of(trash_targets(paths, platform), paths, platform),
        (forall|i: int, j: int|
            0 <= i < j < paths.len() ==> components_order(
                components(#[trigger] paths[i]),
                components(#[trigger] paths[j]),
            ) == Order::Less) ==> forall|s: int, t: int|
            0 <= s < t < trash_targets(paths, platform).len() ==> components_order(
                components((#[trigger] trash_targets(paths, platform)[s]).path),
                components((#[trigger] trash_targets(paths, platform)[t]).path),
            ) == Order::Less,
    decreases paths.len(),
{
    let targets = trash_targets(paths, platform);
    if paths.len() > 0 {
        let fewer = paths.drop_last();
        let before = trash_targets(fewer, platform);
        lemma_named_paths_are_targets(fewer, platform);
        assert(paths[paths.len() - 1] == paths.last());
        assert forall|t: int| 0 <= t < targets.len() implies {
            let target = #[trigger] targets[t];
            &&& paths.contains(target.path)
            &&& file_name_of(target.path) is Some
            &&& target.name == shown_text(file_name_of(target.path)->0, platform)
            &&& !target.is_dir
        } by {
            if t < before.len() {
                assert(targets[t] == before[t]);
                let i = choose|i: int| 0 <= i < fewer.len() && fewer[i] == before[t].path;
                assert(paths[i] == before[t].path);
            }
        }
        assert forall|i: int|
            0 <= i < paths.len() && file_name_of(#[trigger] paths[i]) is Some implies exists|t: int|
            0 <= t < targets.len() && (#[trigger] targets[t]).path == paths[i] by {
            if i < fewer.len() {
                assert(fewer[i] == paths[i]);
                let t = choose|t: int| 0 <= t < before.len() && (#[trigger] before[t]).path == paths[i];
                assert(targets[t] == before[t]);
            } else {
                assert(targets[before.len() as int].path == paths[i]);
            }
        }
        if forall|i: int, j: int|
            0 <= i < j < paths.len() ==> components_order(
                components(#[trigger] paths[i]),
                components(#[trigger] paths[j]),
            ) == Order::Less {
            assert forall|i: int, j: int| 0 <= i < j < fewer.len() implies components_order(
                components(#[trigger] fewer[i]),
                components(#[trigger] fewer[j]),
            ) == Order::Less by {
                assert(fewer[i] == paths[i] && fewer[j] == paths[j]);
            }
            assert forall|s: int, t: int| 0 <= s < t < targets.len() implies components_order(
                components((#[trigger] targets[s]).path),
                components((#[trigger] targets[t]).path),
            ) == Order::Less by {
                assert(targets[s] == before[s]);
                if t < before.len() {
                    assert(targets[t] == before[t]);
                } else {
                    let i = choose|i: int| 0 <= i < fewer.len() && fewer[i] == before[s].path;
                    assert(paths[i] == targets[s].path);
                    assert(paths[paths.len() - 1] == targets[t].path);
                }
            }
        }
    }
}

/// Where no search is loading and files are chosen, it is asked whether to trash exactly
/// the chosen files that have a file name: every target is chosen, every chosen path
/// with a file name is a target, under the name as shown, and none is one twice. Where
/// none has a name, nothing is asked.
pub proof fn lemma_trash_is_about_the_chosen(v: AppView, key: KeyEvent, chosen: PathSet) ->
    (targets: Seq<TrashTargetView>)
    requires
        has_chosen(v, chosen),
        !v.finder->0.loading,
        is_ordinary(key),
    ensures
        forall|t: int|
            0 <= t < targets.len() ==> {
                let target = #[trigger] targets[t];
                &&& chosen@.contains_key(components(target.path))
                &&& chosen@[components(target.path)] == target.path
                &&& file_name_of(target.path) is Some
                &&& target.name == shown_text(file_name_of(target.path)->0, v.platform)
                &&& !target.is_dir
            },
        forall|c: Seq<Seq<u8>>| #[trigger]
            chosen@.contains_key(c) && file_name_of(chosen@[c]) is Some ==> exists|t: int|
                0 <= t < targets.len() && (#[trigger] targets[t]).path == chosen@[c],
        forall|s: int, t: int|
            0 <= s < t < targets.len() ==> components_order(
                components((#[trigger] targets[s]).path),
                components((#[trigger] targets[t]).path),
            ) == Order::Less,
        targets.len() > 0 ==> only_asks(
            v,
            after_key(v, key, Some(Action::Trash)),
            EffectView::PromptTrash(targets),
        ),
        targets.len() == 0 ==> after_key(v, key, Some(Action::Trash)) == v,
{
    lemma_listing_is_the_set(chosen);
    let paths = action_paths(v);
    let targets = trash_targets(paths, v.platform);
    lemma_named_paths_are_targets(paths, v.platform);
    assert forall|t: int| 0 <= t < targets.len() implies {
        let target = #[trigger] targets[t];
        &&& chosen@.contains_key(components(target.path))
        &&& chosen@[components(target.path)] == target.path
    } by {
        let i = choose|i: int| 0 <= i < paths.len() && paths[i] == targets[t].path;
        assert(paths[i] == targets[t].path);
    }
    assert forall|c: Seq<Seq<u8>>| #[trigger]
        chosen@.contains_key(c) && file_name_of(chosen@[c]) is Some implies exists|t: int|
        0 <= t < targets.len() && (#[trigger] targets[t]).path == chosen@[c] by {
        let i = choose|i: int| 0 <= i < paths.len() && paths[i] == chosen@[c];
        assert(file_name_of(paths[i]) is Some);
    }
    targets
}

/// Where no search is loading and nothing is chosen, it is asked whether to trash the
/// file with the focus.
pub proof fn lemma_trash_is_about_the_focus(v: AppView, key: KeyEvent)
    requires
        has_only_focus(v),
        !v.finder->0.loading,
        is_ordinary(key),
    ensures
        ({
            let path = v.finder->0.files()[v.finder->0.selected].path;
            let after = after_key(v, key, Some(Action::Trash));
            match file_name_of(path) {
                Some(name) => only_asks(
                    v,
                    after,
                    EffectView::PromptTrash(
                        seq![
                            TrashTargetView {
                                path,
                                name: shown_text(name, v.platform),
                                is_dir: false,
                            },
                        ],
                    ),
                ),
                None => after == v,
            }
        }),
{
    let path = v.finder->0.files()[v.finder->0.selected].path;
    let paths = seq![path];
    assert(paths.drop_last() =~= Seq::<Seq<u8>>::empty());
    assert(trash_targets(paths.drop_last(), v.platform) =~= Seq::<TrashTargetView>::empty());
    assert(paths.last() == path);
    if file_name_of(path) is Some {
        assert(trash_targets(paths, v.platform) =~= seq![
            TrashTargetView {
                path,
                name: shown_text(file_name_of(path)->0, v.platform),
                is_dir: false,
            },
        ]);
    }
}

/// While a search is loading nothing is trashed: the finder says that it has to wait.
pub proof fn lemma_trash_waits_for_the_search(v: AppView, key: KeyEvent)
    requires
        v.finder is Some,
        v.finder->0.loading,
        is_ordinary(key),
    ensures
        after_key(v, key, Some(Action::Trash)) == (AppView {
            status: "Wait for duplicate scan to finish before trashing results"@,
            ..v
        }),
{
}

/// With files chosen, renaming asks for new names of all of them at once. Each line
/// begins with the name that the file has.
pub proof fn lemma_renaming_is_about_the_chosen(v: AppView, key: KeyEvent, chosen: PathSet) ->
    (paths: Seq<Seq<u8>>)
    requires
        has_chosen(v, chosen),
        is_ordinary(key),
    ensures
        are_all_of(paths, chosen@),
        ({
            let after = after_key(v, key, Some(Action::Rename));
            let form = after.bulk_rename->0;
            &&& after == (AppView { bulk_rename: after.bulk_rename, ..v })
            &&& after.bulk_rename is Some
            &&& form.items.len() == paths.len()
            &&& form.new_names.len() == paths.len()
            &&& form.line_errors.len() == paths.len()
            &&& forall|i: int|
                0 <= i < paths.len() ==> #[trigger] form.items[i] == (BulkItemView {
                    path: paths[i],
                    original_name: shown_name(paths[i], v.platform),
                    is_dir: false,
                })
            &&& forall|i: int|
                0 <= i < paths.len() ==> #[trigger] form.new_names[i] == shown_name(
                    paths[i],
                    v.platform,
                )
            &&& forall|i: int| 0 <= i < paths.len() ==> #[trigger] form.line_errors[i] is None
            &&& form.root is None
            &&& form.cursor_line == 0
            &&& form.cursor_col == 0
            &&& form.preferred_col == 0
        }),
{
    lemma_listing_is_the_set(chosen);
    action_paths(v)
}

/// With nothing chosen, renaming asks for a new name of the file with the focus. The
/// name that it has stands there, with the cursor behind it.
pub proof fn lemma_renaming_is_about_the_focus(v: AppView, key: KeyEvent)
    requires
        has_only_focus(v),
        is_ordinary(key),
    ensures
        ({
            let name = v.finder->0.files()[v.finder->0.selected].name;
            after_key(v, key, Some(Action::Rename)) == (AppView {
                rename: Some(
                    RenameView {
                        is_dir: false,
                        original_name: name,
                        input: name,
                        cursor_col: lowercase_text(name).len() as int,
                        error: None,
                    },
                ),
                ..v
            })
        }),
{
}

/// Choosing the file with the focus adds its path to what is chosen, or takes it out
/// where it was chosen; every other file stays as it was. The focus goes on to the next
/// file, as far as there is one.
pub proof fn lemma_choosing_changes_one_file(v: AppView, key: KeyEvent)
    requires
        v.finder is Some,
        0 <= v.finder->0.selected < v.finder->0.files().len(),
        is_ordinary(key),
    ensures
        ({
            let finder = v.finder->0;
            let path = finder.files()[finder.selected].path;
            let after = after_key(v, key, Some(Action::ToggleSelection));
            let chosen = after.finder->0.selected_paths;
            let toggled = AppView {
                status: Seq::empty(),
                finder: Some(FinderView { selected_paths: chosen, ..finder }),
                ..v
            };
            &&& chosen.contains_key(components(path)) <==> !finder.selected_paths.contains_key(
                components(path),
            )
            &&& chosen.contains_key(components(path)) ==> chosen[components(path)] == path
            &&& forall|c: Seq<Seq<u8>>|
                c != components(path) ==> (#[trigger] chosen.contains_key(c)
                    <==> finder.selected_paths.contains_key(c))
            &&& forall|c: Seq<Seq<u8>>|
                c != components(path) && #[trigger] chosen.contains_key(c) ==> chosen[c]
                    == finder.selected_paths[c]
            &&& finder.selected + 1 < finder.files().len() ==> focus_moved(
                toggled,
                after,
                finder.selected + 1,
            )
            &&& finder.selected + 1 == finder.files().len() ==> focus_moved(
                toggled,
                after,
                finder.selected,
            )
        }),
{
    let finder = v.finder->0;
    let path = finder.files()[finder.selected].path;
    let chosen = after_key(v, key, Some(Action::ToggleSelection)).finder->0.selected_paths;
    assert(chosen == if finder.selected_paths.contains_key(components(path)) {
        finder.selected_paths.remove(components(path))
    } else {
        finder.selected_paths.insert(components(path), path)
    });
}

proof fn lemma_files_are_added(set: Map<Seq<Seq<u8>>, Seq<u8>>, files: Seq<DuplicateFileView>)
    ensures
        forall|c: Seq<Seq<u8>>| #[trigger]
            with_files(set, files).contains_key(c) <==> set.contains_key(c) || exists|i: int|
                0 <= i < files.len() && components((#[trigger] files[i]).path) == c,
        forall|c: Seq<Seq<u8>>| #[trigger]
            set.contains_key(c) ==> with_files(set, files)[c] == set[c],
        forall|c: Seq<Seq<u8>>| #[trigger]
            with_files(set, files).contains_key(c) && !set.contains_key(c) ==> exists|i: int|
                0 <= i < files.len() && with_files(set, files)[c] == (#[trigger] files[i]).path
                    && components(files[i].path) == c,
    decreases files.len(),
{
    if files.len() > 0 {
        let fewer = files.drop_last();
        lemma_files_are_added(set, fewer);
        let before = with_files(set, fewer);
        let after = with_files(set, files);
        let last = files.last().path;
        assert(files[files.len() - 1].path == last);
        assert forall|c: Seq<Seq<u8>>| #[trigger] after.contains_key(c) implies set.contains_key(c)
            || exists|i: int|
            0 <= i < files.len() && components((#[trigger] files[i]).path) == c by {
            if before.contains_key(c) && !set.contains_key(c) {
                let i = choose|i: int|
                    0 <= i < fewer.len() && components((#[trigger] fewer[i]).path) == c;
                assert(files[i] == fewer[i]);
            }
        }
        assert forall|c: Seq<Seq<u8>>|
            set.contains_key(c) || (exists|i: int|
                0 <= i < files.len() && components((#[trigger] files[i]).path)
                    == c) implies #[trigger] after.contains_key(c) by {
            if !set.contains_key(c) {
                let i = choose|i: int|
                    0 <= i < files.len() && components((#[trigger] files[i]).path) == c;
                if i < fewer.len() {
                    assert(fewer[i] == files[i]);
                    assert(before.contains_key(c));
                }
            }
        }
        assert forall|c: Seq<Seq<u8>>| #[trigger]
            after.contains_key(c) && !set.contains_key(c) implies exists|i: int|
            0 <= i < files.len() && after[c] == (#[trigger] files[i]).path && components(
                files[i].path,
            ) == c by {
            if before.contains_key(c) {
                let i = choose|i: int|
                    0 <= i < fewer.len() && before[c] == (#[trigger] fewer[i]).path && components(
                        fewer[i].path,
                    ) == c;
                assert(files[i] == fewer[i]);
                assert(after[c] == before[c]);
            } else {
                assert(after[c] == files[files.len() - 1].path);
            }
        }
    }
}

/// Choosing all files chooses every file that is listed and keeps what was chosen;
/// nothing else is chosen by it. Nothing but that and the status changes.
pub proof fn lemma_all_listed_are_chosen(v: AppView, key: KeyEvent)
    requires
        v.finder is Some,
        is_ordinary(key),
    ensures
        ({
            let finder = v.finder->0;
            let after = after_key(v, key, Some(Action::SelectAll));
            let chosen = after.finder->0.selected_paths;
            &&& after == (AppView {
                status: Seq::empty(),
                finder: Some(FinderView { selected_paths: chosen, ..finder }),
                ..v
            })
            &&& forall|c: Seq<Seq<u8>>| #[trigger]
                chosen.contains_key(c) <==> finder.selected_paths.contains_key(c) || exists|i: int|
                    0 <= i < finder.files().len() && components(
                        (#[trigger] finder.files()[i]).path,
                    ) == c
            &&& forall|c: Seq<Seq<u8>>| #[trigger]
                finder.selected_paths.contains_key(c) ==> chosen[c] == finder.selected_paths[c]
            &&& forall|c: Seq<Seq<u8>>| #[trigger]
                chosen.contains_key(c) && !finder.selected_paths.contains_key(c) ==> exists|i: int|
                    0 <= i < finder.files().len() && chosen[c] == (
                    #[trigger] finder.files()[i]).path && components(finder.files()[i].path) == c
        }),
{
    lemma_files_are_added(v.finder->0.selected_paths, v.finder->0.files());
}

/// Asking for new names of several files is about the file with the focus where none is
/// chosen.
pub proof fn lemma_many_names_for_the_focus(v: AppView)
    requires
        has_only_focus(v),
    ensures
        ({
            let path = v.finder->0.files()[v.finder->0.selected].path;
            let name = shown_name(path, v.platform);
            let form = bulk_rename_opened(v).bulk_rename->0;
            &&& bulk_rename_opened(v) == (AppView {
                bulk_rename: bulk_rename_opened(v).bulk_rename,
                ..v
            })
            &&& bulk_rename_opened(v).bulk_rename is Some
            &&& form.items == seq![BulkItemView { path, original_name: name, is_dir: false }]
            &&& form.new_names == seq![name]
            &&& form.line_errors.len() == 1
            &&& form.line_errors[0] is None
        }),
{
    let path = v.finder->0.files()[v.finder->0.selected].path;
    let name = shown_name(path, v.platform);
    let form = bulk_rename_opened(v).bulk_rename->0;
    assert(form.items =~= seq![BulkItemView { path, original_name: name, is_dir: false }]);
    assert(form.new_names =~= seq![name]);
}

proof fn lemma_first_of_a_path_is_added(
    set: Map<Seq<Seq<u8>>, Seq<u8>>,
    files: Seq<DuplicateFileView>,
    i: int,
)
    requires
        0 <= i < files.len(),
        !set.contains_key(components(files[i].path)),
        forall|j: int|
            0 <= j < i ==> components((#[trigger] files[j]).path) != components(files[i].path),
    ensures
        with_files(set, files).contains_key(components(files[i].path)),
        with_files(set, files)[components(files[i].path)] == files[i].path,
    decreases files.len(),
{
    let fewer = files.drop_last();
    let c = components(files[i].path);
    if i < fewer.len() {
        assert(fewer[i] == files[i]);
        assert forall|j: int| 0 <= j < i implies components((#[trigger] fewer[j]).path)
            != components(fewer[i].path) by {
            assert(fewer[j] == files[j]);
        }
        lemma_first_of_a_path_is_added(set, fewer, i);
    } else {
        lemma_files_are_added(set, fewer);
        if with_files(set, fewer).contains_key(c) {
            let j = choose|j: int|
                0 <= j < fewer.len() && components((#[trigger] fewer[j]).path) == c;
            assert(files[j] == fewer[j]);
        }
        assert(files.last() == files[i]);
    }
}

/// Of files under one path, the first that is listed gives the path that is chosen.
pub proof fn lemma_first_of_a_path_is_chosen(v: AppView, key: KeyEvent, i: int)
    requires
        v.finder is Some,
        is_ordinary(key),
        0 <= i < v.finder->0.files().len(),
        !v.finder->0.selected_paths.contains_key(components(v.finder->0.files()[i].path)),
        forall|j: int|
            0 <= j < i ==> components((#[trigger] v.finder->0.files()[j]).path) != components(
                v.finder->0.files()[i].path,
            ),
    ensures
        ({
            let path = v.finder->0.files()[i].path;
            let chosen = after_key(v, key, Some(Action::SelectAll)).finder->0.selected_paths;
            chosen.contains_key(components(path)) && chosen[components(path)] == path
        }),
{
    lemma_first_of_a_path_is_added(v.finder->0.selected_paths, v.finder->0.files(), i);
}

/// A key does what it is bound to: the same as the operation that the binding names.
pub proof fn lemma_keys_do_what_they_are_bound_to(v: AppView, key: KeyEvent)
    requires
        v.finder is Some,
        is_ordinary(key),
    ensures
        after_key(v, key, Some(Action::Open)) == targets_opened(v),
        after_key(v, key, Some(Action::OpenOrEnter)) == revealed(v),
        after_key(v, key, Some(Action::Rename)) == rename_opened(v),
        after_key(v, key, Some(Action::RenameInEditor)) == editor_rename_opened(v),
        after_key(v, key, Some(Action::Trash)) == trash_prompted(v),
        after_key(v, key, Some(Action::SelectAll)) == with_all_chosen(v),
        after_key(v, key, Some(Action::ToggleSelection)) == with_choice_toggled(v),
        after_key(v, key, Some(Action::FindDuplicates)) == closed(v),
        after_key(v, key, Some(Action::NavUp)) == with_focus_moved(v, -1),
        after_key(v, key, Some(Action::NavDown)) == with_focus_moved(v, 1),
        after_key(v, key, Some(Action::JumpFirst)) == with_focus(v, 0),
        after_key(v, key, Some(Action::TogglePreview)) == with_preview_toggled(v),
        after_key(v, key, Some(Action::CopyPath)).effects.last() == EffectView::CopyPaths(
            action_paths(v),
        ),
        v.finder->0.selected_paths != Map::<Seq<Seq<u8>>, Seq<u8>>::empty() ==> rename_opened(v)
            == bulk_rename_opened(v),
{
}

} // verus!
