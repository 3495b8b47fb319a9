//! What renaming does to the duplicate finder.

use crate::duplicates::DuplicateFileView;
use crate::finder::{focused_path, AppView, EffectView, RenameView};
use crate::finder_actions::{
    all_renamed, focus_has_name, rename_done, renamed_finder, renamed_path, with_renames,
    RenameOutcome,
};
use crate::finder_model::{relative_label, shown_name, FinderView};
use crate::path::{components, file_name_of, joined, parent_of};
use vstd::prelude::*;
use vstd::utf8::{decode_utf8, encode_utf8, valid_utf8};

verus! {

/// A renamed file keeps its place in its group, its size and its time, and gets the new
/// path, the name of that and its way from the directory that was searched. Every other
/// file stays as it is, and so do the groups' numbers and sizes.
pub proof fn lemma_only_the_renamed_file_changes(
    finder: FinderView,
    old_path: Seq<u8>,
    new_path: Seq<u8>,
    g: int,
    k: int,
)
    requires
        0 <= g < finder.groups.len(),
        0 <= k < finder.groups[g].files.len(),
    ensures
        ({
            let after = renamed_finder(finder, old_path, new_path);
            let was = finder.groups[g].files[k];
            let now = after.groups[g].files[k];
            &&& after.groups.len() == finder.groups.len()
            &&& after.groups[g].id == finder.groups[g].id
            &&& after.groups[g].size == finder.groups[g].size
            &&& after.groups[g].files.len() == finder.groups[g].files.len()
            &&& components(was.path) != components(old_path) ==> now == was
            &&& components(was.path) == components(old_path) ==> now == (DuplicateFileView {
                path: new_path,
                name: shown_name(new_path, finder.platform),
                relative: relative_label(new_path, finder.cwd, finder.platform),
                size: was.size,
                modified: was.modified,
            })
        }),
{
}

/// Where the renamed file was chosen, its new path is chosen in place of the old one; of
/// all other files the same ones stay chosen. Where the preview was that of the file, it
/// is forgotten. Nothing else of the finder changes but the files.
pub proof fn lemma_choice_follows_the_renamed_file(
    finder: FinderView,
    old_path: Seq<u8>,
    new_path: Seq<u8>,
    c: Seq<Seq<u8>>,
)
    ensures
        ({
            let after = renamed_finder(finder, old_path, new_path);
            let was = finder.selected_paths;
            let now = after.selected_paths;
            let chosen = was.contains_key(components(old_path));
            let shown = finder.preview_path is Some && components(finder.preview_path->0)
                == components(old_path);
            &&& !chosen ==> now == was
            &&& chosen && c != components(old_path) && c != components(new_path) ==> (
            now.contains_key(c) <==> was.contains_key(c)) && (was.contains_key(c) ==> now[c]
                == was[c])
            &&& chosen ==> now.contains_key(components(new_path))
            &&& chosen && (components(new_path) == components(old_path) || !was.contains_key(
                components(new_path),
            )) ==> now[components(new_path)] == new_path
            &&& chosen && components(new_path) != components(old_path) ==> !now.contains_key(
                components(old_path),
            )
            &&& shown ==> after.preview_path is None
            &&& !shown ==> after.preview_path == finder.preview_path
            &&& after == (FinderView {
                groups: after.groups,
                selected_paths: now,
                preview_path: after.preview_path,
                ..finder
            })
        }),
{
}

/// Several renames are made one after the other, the first of the list first.
pub proof fn lemma_renames_are_made_in_turn(
    finder: FinderView,
    pairs: Seq<(Seq<u8>, Seq<u8>)>,
    pair: (Seq<u8>, Seq<u8>),
)
    ensures
        all_renamed(finder, Seq::empty()) == finder,
        all_renamed(finder, pairs.push(pair)) == renamed_finder(
            all_renamed(finder, pairs),
            pair.0,
            pair.1,
        ),
{
    assert(pairs.push(pair).drop_last() =~= pairs);
}

/// After renames the preview is asked for anew where it is shown and is not that of the
/// file with the focus any more. Without renames nothing happens.
pub proof fn lemma_renames_refresh_the_preview(v: AppView, pairs: Seq<(Seq<u8>, Seq<u8>)>)
    requires
        v.finder is Some,
        pairs.len() > 0,
    ensures
        with_renames(v, Seq::empty()) == v,
        ({
            let renamed = all_renamed(v.finder->0, pairs);
            let after = with_renames(v, pairs);
            let focused = 0 <= renamed.selected < renamed.files().len();
            let path = renamed.files()[renamed.selected].path;
            let known = renamed.preview_path is Some && components(renamed.preview_path->0)
                == components(path);
            if focused && renamed.preview_visible && !known {
                after == (AppView {
                    finder: Some(FinderView { preview_path: Some(path), ..renamed }),
                    effects: v.effects.push(EffectView::RefreshPreview),
                    ..v
                })
            } else {
                after == (AppView { finder: Some(renamed), ..v })
            }
        }),
{
}

/// The new path of a file is its new name in the directory where it lies.
pub proof fn lemma_renamed_file_stays_in_its_directory(path: Seq<u8>, name: Seq<char>)
    ensures
        parent_of(path) is Some ==> renamed_path(path, name) == joined(
            parent_of(path)->0,
            encode_utf8(name),
        ),
        parent_of(path) is None ==> renamed_path(path, name) == encode_utf8(name),
{
}

/// A rename goes ahead exactly where the file with the focus still has the name that was
/// to be changed.
pub proof fn lemma_rename_is_of_the_focus(v: AppView, name: Seq<char>)
    requires
        v.finder is Some,
    ensures
        ({
            let finder = v.finder->0;
            let focused = 0 <= finder.selected < finder.files().len();
            let path = finder.files()[finder.selected].path;
            &&& focused ==> focused_path(v) == Some(path)
            &&& !focused ==> focused_path(v) is None && !focus_has_name(v, name)
            &&& focused && file_name_of(path) is None ==> !focus_has_name(v, name)
            &&& focused && file_name_of(path) is Some ==> (focus_has_name(v, name) <==> valid_utf8(
                file_name_of(path)->0,
            ) && decode_utf8(file_name_of(path)->0) == name)
        }),
{
}

/// A rename that went well closes the form, changes the list and says which name became
/// which.
pub proof fn lemma_rename_is_told(
    v: AppView,
    original_name: Seq<char>,
    new_name: Seq<char>,
    old_path: Seq<u8>,
    new_path: Seq<u8>,
)
    ensures
        ({
            let after = rename_done(
                v,
                original_name,
                new_name,
                old_path,
                new_path,
                RenameOutcome::Renamed,
            );
            &&& after.status == "Renamed \""@ + original_name + "\" → \""@ + new_name + "\""@
            &&& after.rename is None
            &&& after == (AppView {
                status: after.status,
                rename: None,
                finder: after.finder,
                effects: after.effects,
                ..v
            })
            &&& v.finder is Some ==> after.finder is Some && after.finder->0.groups
                == renamed_finder(v.finder->0, old_path, new_path).groups
                && after.finder->0.selected_paths == renamed_finder(
                v.finder->0,
                old_path,
                new_path,
            ).selected_paths
        }),
{
    let pairs = seq![(old_path, new_path)];
    assert(pairs.drop_last() =~= Seq::<(Seq<u8>, Seq<u8>)>::empty());
    assert(pairs.last() == (old_path, new_path));
    if v.finder is Some {
        assert(all_renamed(v.finder->0, pairs.drop_last()) == v.finder->0);
    }
}

/// A rename that did not go well leaves everything as it is but for the message in the
/// form, which says why.
pub proof fn lemma_failed_rename_is_told(
    v: AppView,
    original_name: Seq<char>,
    new_name: Seq<char>,
    old_path: Seq<u8>,
    new_path: Seq<u8>,
    outcome: RenameOutcome,
)
    requires
        !(outcome is Renamed),
    ensures
        ({
            let after = rename_done(v, original_name, new_name, old_path, new_path, outcome);
            let message = after.rename->0.error->0;
            &&& v.rename is None ==> after == v
            &&& v.rename is Some ==> after == (AppView {
                rename: Some(RenameView { error: Some(message), ..v.rename->0 }),
                ..v
            })
            &&& v.rename is Some && outcome is Exists ==> message == "\""@ + new_name
                + "\" already exists"@
            &&& v.rename is Some && outcome is Denied ==> message
                == "Permission denied renaming \""@ + original_name + "\""@
            &&& v.rename is Some && outcome is Failed ==> message == "Could not rename: "@
                + outcome->Failed_0@
        }),
{
}

} // verus!
