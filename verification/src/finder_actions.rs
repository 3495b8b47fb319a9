//! What the duplicate finder does with files: choosing them, opening, renaming
//! and trashing them.

use crate::duplicate_pool::{all_canceled, DuplicateState};
use crate::duplicates::{
    files_view, groups_view, DuplicateFile, DuplicateFileView, DuplicateGroup, DuplicateGroupView,
};
use crate::finder::{
    closed, focused_path, previewed, targets_view, with_effect, with_finder, with_focus_moved, App,
    AppView, BulkItemView, BulkRenameItem, BulkRenameOverlay, BulkRenameView, Effect, EffectView,
    Entry, RenameOverlay, RenameView, TrashTarget, TrashTargetView,
};
use crate::finder_model::{
    flat_files, label_below, name_to_show, relative_label, shown_name, DuplicateFinderOverlay,
    FinderView,
};
use crate::path::{
    components, file_name_of, joined, parent_of, path_bytes, shown_text, text_to_show, FilePath,
};
use crate::path_set::listing;
use crate::platform::Platform;
use crate::text::{chars_of, concat, lowercase_text, same_text};
use vstd::prelude::*;
use vstd::string::StringExecFns;
use vstd::utf8::{decode_utf8, encode_utf8, valid_utf8};

verus! {

/// The files of all groups in a row, each with the id of its group.
pub open spec fn flat_pairs(groups: Seq<DuplicateGroupView>) -> Seq<(u64, DuplicateFileView)>
    decreases groups.len(),
{
    if groups.len() == 0 {
        Seq::empty()
    } else {
        flat_pairs(groups.drop_last()) + groups.last().files.map_values(
            |f: DuplicateFileView| (groups.last().id, f),
        )
    }
}

/// The pairs are the files in the same order.
pub proof fn lemma_pairs_are_files(groups: Seq<DuplicateGroupView>)
    ensures
        flat_pairs(groups).map_values(|p: (u64, DuplicateFileView)| p.1) == flat_files(groups),
    decreases groups.len(),
{
    if groups.len() > 0 {
        lemma_pairs_are_files(groups.drop_last());
        let fewer = flat_pairs(groups.drop_last());
        assert(flat_pairs(groups).map_values(|p: (u64, DuplicateFileView)| p.1) =~= fewer.map_values(
            |p: (u64, DuplicateFileView)| p.1,
        ) + groups.last().files);
    } else {
        assert(flat_pairs(groups).map_values(|p: (u64, DuplicateFileView)| p.1) =~= flat_files(
            groups,
        ));
    }
}

pub open spec fn pairs_view(pairs: Seq<(u64, DuplicateFile)>) -> Seq<(u64, DuplicateFileView)> {
    pairs.map_values(|p: (u64, DuplicateFile)| (p.0, p.1@))
}

/// A set with a path, unless the path is in it.
pub open spec fn with_path(set: Map<Seq<Seq<u8>>, Seq<u8>>, path: Seq<u8>) -> Map<
    Seq<Seq<u8>>,
    Seq<u8>,
> {
    if set.contains_key(components(path)) {
        set
    } else {
        set.insert(components(path), path)
    }
}

/// A set with the paths of files.
pub open spec fn with_files(
    set: Map<Seq<Seq<u8>>, Seq<u8>>,
    files: Seq<DuplicateFileView>,
) -> Map<Seq<Seq<u8>>, Seq<u8>>
    decreases files.len(),
{
    if files.len() == 0 {
        set
    } else {
        with_path(with_files(set, files.drop_last()), files.last().path)
    }
}

/// Whether any file is chosen.
pub open spec fn has_choice(v: AppView) -> bool {
    v.finder is Some && v.finder->0.selected_paths != Map::<Seq<Seq<u8>>, Seq<u8>>::empty()
}

/// The files that an action is about: those that are chosen, in order, else the
/// one that has the focus.
pub open spec fn action_paths(v: AppView) -> Seq<Seq<u8>> {
    if has_choice(v) {
        listing(v.finder->0.selected_paths)
    } else {
        match focused_path(v) {
            Some(path) => seq![path],
            None => Seq::empty(),
        }
    }
}

/// After the file that has the focus was chosen, or was chosen no more; the
/// focus moves on.
pub open spec fn with_choice_toggled(v: AppView) -> AppView {
    match (v.finder, focused_path(v)) {
        (Some(finder), Some(path)) => with_focus_moved(
            AppView {
                status: Seq::empty(),
                finder: Some(
                    FinderView {
                        selected_paths: if finder.selected_paths.contains_key(components(path)) {
                            finder.selected_paths.remove(components(path))
                        } else {
                            finder.selected_paths.insert(components(path), path)
                        },
                        ..finder
                    },
                ),
                ..v
            },
            1,
        ),
        _ => v,
    }
}

/// After every file was chosen.
pub open spec fn with_all_chosen(v: AppView) -> AppView {
    match v.finder {
        Some(finder) => AppView {
            status: Seq::empty(),
            finder: Some(
                FinderView {
                    selected_paths: with_files(finder.selected_paths, finder.files()),
                    ..finder
                },
            ),
            ..v
        },
        None => v,
    }
}

/// After what was chosen is no more, or, where nothing was, the finder is
/// closed.
pub open spec fn unchosen_or_closed(v: AppView) -> AppView {
    if has_choice(v) {
        AppView {
            status: Seq::empty(),
            finder: Some(FinderView { selected_paths: Map::empty(), ..v.finder->0 }),
            ..v
        }
    } else {
        closed(v)
    }
}

/// After the file that has the focus was asked to be shown in the browser.
pub open spec fn revealed(v: AppView) -> AppView {
    match focused_path(v) {
        Some(path) => with_effect(closed(v), EffectView::Reveal(path)),
        None => v,
    }
}

/// After files were asked to be opened.
pub open spec fn targets_opened(v: AppView) -> AppView {
    if action_paths(v).len() == 0 {
        v
    } else {
        with_effect(
            AppView { clipboard: false, ..v },
            EffectView::OpenPaths(action_paths(v)),
        )
    }
}

/// After a new name for the file that has the focus was asked for.
pub open spec fn rename_opened(v: AppView) -> AppView {
    if has_choice(v) {
        bulk_rename_opened(v)
    } else {
        match v.finder {
            Some(finder) => match finder.focus() {
                Some(file) => AppView {
                    rename: Some(
                        RenameView {
                            is_dir: false,
                            original_name: file.name,
                            input: file.name,
                            cursor_col: lowercase_text(file.name).len() as int,
                            error: None,
                        },
                    ),
                    ..v
                },
                None => v,
            },
            None => v,
        }
    }
}

/// A file among those that get new names together.
pub open spec fn bulk_item(path: Seq<u8>, platform: Platform) -> BulkItemView {
    BulkItemView { path, original_name: shown_name(path, platform), is_dir: false }
}

/// After new names for several files were asked for.
pub open spec fn bulk_rename_opened(v: AppView) -> AppView {
    let paths = action_paths(v);
    if paths.len() == 0 {
        v
    } else {
        AppView {
            bulk_rename: Some(
                BulkRenameView {
                    items: paths.map_values(|p: Seq<u8>| bulk_item(p, v.platform)),
                    new_names: paths.map_values(|p: Seq<u8>| shown_name(p, v.platform)),
                    root: None,
                    cursor_line: 0,
                    cursor_col: 0,
                    preferred_col: 0,
                    line_errors: Seq::new(paths.len(), |i: int| None),
                },
            ),
            ..v
        }
    }
}

/// After new names were asked for in an editor.
pub open spec fn editor_rename_opened(v: AppView) -> AppView {
    if action_paths(v).len() == 0 {
        v
    } else {
        with_effect(v, EffectView::RenameInEditor(action_paths(v)))
    }
}

/// The files that can be trashed, which are those that have a name.
pub open spec fn trash_targets(paths: Seq<Seq<u8>>, platform: Platform) -> Seq<TrashTargetView>
    decreases paths.len(),
{
    if paths.len() == 0 {
        Seq::empty()
    } else {
        let fewer = trash_targets(paths.drop_last(), platform);
        match file_name_of(paths.last()) {
            Some(name) => fewer.push(
                TrashTargetView {
                    path: paths.last(),
                    name: shown_text(name, platform),
                    is_dir: false,
                },
            ),
            None => fewer,
        }
    }
}

/// After files were asked to be trashed, which has to wait for a search to end.
pub open spec fn trash_prompted(v: AppView) -> AppView {
    if v.finder is Some && v.finder->0.loading {
        AppView {
            status: "Wait for duplicate scan to finish before trashing results"@,
            ..v
        }
    } else {
        let targets = trash_targets(action_paths(v), v.platform);
        if targets.len() == 0 {
            v
        } else {
            with_effect(v, EffectView::PromptTrash(targets))
        }
    }
}

/// A file after a rename, where it is the one that was renamed.
pub open spec fn renamed_file(
    file: DuplicateFileView,
    old_path: Seq<u8>,
    new_path: Seq<u8>,
    cwd: Seq<u8>,
    platform: Platform,
) -> DuplicateFileView {
    if components(file.path) == components(old_path) {
        DuplicateFileView {
            path: new_path,
            name: shown_name(new_path, platform),
            relative: relative_label(new_path, cwd, platform),
            ..file
        }
    } else {
        file
    }
}

pub open spec fn renamed_group(
    group: DuplicateGroupView,
    old_path: Seq<u8>,
    new_path: Seq<u8>,
    cwd: Seq<u8>,
    platform: Platform,
) -> DuplicateGroupView {
    DuplicateGroupView {
        files: group.files.map_values(
            |f: DuplicateFileView| renamed_file(f, old_path, new_path, cwd, platform),
        ),
        ..group
    }
}

/// The finder after a file was renamed: it stays chosen and keeps its place.
pub open spec fn renamed_finder(
    finder: FinderView,
    old_path: Seq<u8>,
    new_path: Seq<u8>,
) -> FinderView {
    FinderView {
        selected_paths: if finder.selected_paths.contains_key(components(old_path)) {
            with_path(finder.selected_paths.remove(components(old_path)), new_path)
        } else {
            finder.selected_paths
        },
        preview_path: if finder.preview_path is Some && components(finder.preview_path->0)
            == components(old_path) {
            None
        } else {
            finder.preview_path
        },
        groups: finder.groups.map_values(
            |g: DuplicateGroupView|
                renamed_group(g, old_path, new_path, finder.cwd, finder.platform),
        ),
        ..finder
    }
}

/// The finder after several files were renamed in turn.
pub open spec fn all_renamed(finder: FinderView, pairs: Seq<(Seq<u8>, Seq<u8>)>) -> FinderView
    decreases pairs.len(),
{
    if pairs.len() == 0 {
        finder
    } else {
        let before = all_renamed(finder, pairs.drop_last());
        renamed_finder(before, pairs.last().0, pairs.last().1)
    }
}

pub open spec fn with_renames(v: AppView, pairs: Seq<(Seq<u8>, Seq<u8>)>) -> AppView {
    match v.finder {
        Some(finder) => if pairs.len() == 0 {
            v
        } else {
            previewed(with_finder(v, all_renamed(finder, pairs)))
        },
        None => v,
    }
}

pub open spec fn rename_pairs(pairs: Seq<(FilePath, FilePath)>) -> Seq<(Seq<u8>, Seq<u8>)> {
    pairs.map_values(|p: (FilePath, FilePath)| (p.0@, p.1@))
}

/// Renaming keeps the number of files.
pub proof fn lemma_renamed_count(finder: FinderView, old_path: Seq<u8>, new_path: Seq<u8>)
    ensures
        renamed_finder(finder, old_path, new_path).count() == finder.count(),
        forall|k: int|
            0 <= k < finder.count() ==> #[trigger] renamed_finder(
                finder,
                old_path,
                new_path,
            ).files()[k] == renamed_file(
                finder.files()[k],
                old_path,
                new_path,
                finder.cwd,
                finder.platform,
            ),
    decreases finder.groups.len(),
{
    let after = renamed_finder(finder, old_path, new_path);
    if finder.groups.len() > 0 {
        let shorter = FinderView { groups: finder.groups.drop_last(), ..finder };
        lemma_renamed_count(shorter, old_path, new_path);
        let fewer = renamed_finder(shorter, old_path, new_path);
        assert(after.groups.drop_last() =~= fewer.groups);
        let last = finder.groups.last();
        assert(after.groups.last() == renamed_group(
            last,
            old_path,
            new_path,
            finder.cwd,
            finder.platform,
        ));
        assert forall|k: int| 0 <= k < finder.count() implies #[trigger] after.files()[k]
            == renamed_file(
                finder.files()[k],
                old_path,
                new_path,
                finder.cwd,
                finder.platform,
            ) by {
            if k < shorter.count() {
                assert(after.files()[k] == fewer.files()[k]);
                assert(finder.files()[k] == shorter.files()[k]);
            }
        }
    }
}

impl DuplicateFinderOverlay {
    /// Puts a renamed file in the place of the one that it was.
    pub fn rename(&mut self, old_path: &FilePath, new_path: &FilePath)
        requires
            old(self).wf(),
        ensures
            final(self).wf(),
            final(self)@ == renamed_finder(old(self)@, old_path@, new_path@),
    {
        let ghost before = self@;
        proof {
            lemma_renamed_count(before, old_path@, new_path@);
        }
        if self.selected_paths.remove(old_path) {
            let _ = self.selected_paths.insert(new_path);
        } else {
            assert(self.selected_paths@ =~= before.selected_paths);
        }
        let shown: bool = match &self.preview_path {
            Some(path) => path.same_path(old_path),
            None => false,
        };
        if shown {
            self.preview_path = None;
        }
        let mut i: usize = 0;
        let ghost cwd = self.cwd@;
        let platform: Platform = self.platform;
        let ghost now = self@;
        let ghost goal = now.groups.map_values(
            |g: DuplicateGroupView| renamed_group(g, old_path@, new_path@, cwd, platform),
        );
        while i < self.groups.len()
            invariant
                i <= self.groups@.len(),
                self.groups@.len() == goal.len(),
                cwd == self.cwd@,
                platform == self.platform,
                goal == now.groups.map_values(
                    |g: DuplicateGroupView| renamed_group(g, old_path@, new_path@, cwd, platform),
                ),
                self.selected_paths.wf(),
                self@ == (FinderView { groups: self@.groups, ..now }),
                forall|k: int| 0 <= k < i ==> (#[trigger] self.groups@[k])@ == goal[k],
                forall|k: int|
                    i <= k < self.groups@.len() ==> (#[trigger] self.groups@[k])@ == now.groups[k],
            decreases self.groups@.len() - i,
        {
            let ghost old_groups = self.groups@;
            let ghost view = self@;
            rename_in_group(&mut self.groups[i], old_path, new_path, &self.cwd, platform);
            proof {
                assert(self.groups@[i as int]@ == goal[i as int]);
                assert forall|k: int| 0 <= k < i + 1 implies (#[trigger] self.groups@[k])@
                    == goal[k] by {
                    if k < i {
                        assert(self.groups@[k] == old_groups[k]);
                    }
                }
                assert forall|k: int| i + 1 <= k < self.groups@.len() implies (
                #[trigger] self.groups@[k])@ == now.groups[k] by {
                    assert(self.groups@[k] == old_groups[k]);
                }
            }
            i = i + 1;
        }
        proof {
            assert(self@.groups =~= goal);
            assert(self@ =~= renamed_finder(before, old_path@, new_path@));
        }
    }
}

fn rename_in_group(
    group: &mut DuplicateGroup,
    old_path: &FilePath,
    new_path: &FilePath,
    cwd: &FilePath,
    platform: Platform,
)
    ensures
        final(group)@ == renamed_group(old(group)@, old_path@, new_path@, cwd@, platform),
{
    let ghost before = group@;
    let ghost goal = before.files.map_values(
        |f: DuplicateFileView| renamed_file(f, old_path@, new_path@, cwd@, platform),
    );
    let mut j: usize = 0;
    while j < group.files.len()
        invariant
            j <= group.files@.len(),
            group.files@.len() == goal.len(),
            group.id == before.id,
            group.size == before.size,
            goal == before.files.map_values(
                |f: DuplicateFileView| renamed_file(f, old_path@, new_path@, cwd@, platform),
            ),
            forall|k: int| 0 <= k < j ==> (#[trigger] group.files@[k])@ == goal[k],
            forall|k: int|
                j <= k < group.files@.len() ==> (#[trigger] group.files@[k])@ == before.files[k],
        decreases group.files@.len() - j,
    {
        let ghost old_files = group.files@;
        if group.files[j].path.same_path(old_path) {
            let file: DuplicateFile = DuplicateFile {
                path: new_path.copy(),
                name: name_to_show(new_path, platform),
                relative: label_below(new_path, cwd, platform),
                size: group.files[j].size,
                modified: group.files[j].modified,
            };
            group.files.set(j, file);
        }
        proof {
            assert(group.files@[j as int]@ == goal[j as int]);
            assert forall|k: int| 0 <= k < j + 1 implies (#[trigger] group.files@[k])@
                == goal[k] by {
                if k < j {
                    assert(group.files@[k] == old_files[k]);
                }
            }
            assert forall|k: int| j + 1 <= k < group.files@.len() implies (
            #[trigger] group.files@[k])@ == before.files[k] by {
                assert(group.files@[k] == old_files[k]);
            }
        }
        j = j + 1;
    }
    assert(files_view(group.files@) =~= goal);
}

/// What a file is to be renamed to.
#[derive(Debug)]
pub struct RenamePlan {
    pub old_path: FilePath,
    pub new_path: FilePath,
}

/// How a rename went.
#[derive(Debug)]
pub enum RenameOutcome {
    Exists,
    Denied,
    Failed(String),
    Renamed,
}

/// The path that a file gets with a new name.
pub open spec fn renamed_path(path: Seq<u8>, new_name: Seq<char>) -> Seq<u8> {
    match parent_of(path) {
        Some(parent) => joined(parent, encode_utf8(new_name)),
        None => encode_utf8(new_name),
    }
}

/// Whether the file that has the focus is still the one of this name.
pub open spec fn focus_has_name(v: AppView, name: Seq<char>) -> bool {
    focused_path(v) is Some && file_name_of(focused_path(v)->0) is Some && valid_utf8(
        file_name_of(focused_path(v)->0)->0,
    ) && decode_utf8(file_name_of(focused_path(v)->0)->0) == name
}

pub open spec fn with_rename_error(v: AppView, error: Seq<char>) -> AppView {
    match v.rename {
        Some(rename) => AppView {
            rename: Some(RenameView { error: Some(error), ..rename }),
            ..v
        },
        None => v,
    }
}

/// The message for a rename that failed.
pub open spec fn rename_error(
    outcome: RenameOutcome,
    original_name: Seq<char>,
    new_name: Seq<char>,
) -> Seq<char> {
    match outcome {
        RenameOutcome::Exists => "\""@ + new_name + "\" already exists"@,
        RenameOutcome::Denied => "Permission denied renaming \""@ + original_name + "\""@,
        RenameOutcome::Failed(error) => "Could not rename: "@ + error@,
        RenameOutcome::Renamed => Seq::empty(),
    }
}

/// After a rename was tried.
pub open spec fn rename_done(
    v: AppView,
    original_name: Seq<char>,
    new_name: Seq<char>,
    old_path: Seq<u8>,
    new_path: Seq<u8>,
    outcome: RenameOutcome,
) -> AppView {
    if outcome is Renamed {
        AppView {
            status: "Renamed \""@ + original_name + "\" → \""@ + new_name + "\""@,
            ..with_renames(AppView { rename: None, ..v }, seq![(old_path, new_path)])
        }
    } else {
        with_rename_error(v, rename_error(outcome, original_name, new_name))
    }
}

fn concat_three(first: &str, second: &str, third: &str) -> (r: String)
    ensures
        r@ == first@ + second@ + third@,
{
    let both: String = concat(first, second);
    concat(both.as_str(), third)
}

impl App {
    /// The files of all groups, each with the id of its group.
    pub fn duplicate_flat_files(&self) -> (r: Vec<(u64, DuplicateFile)>)
        ensures
            pairs_view(r@) == match self@.finder {
                Some(finder) => flat_pairs(finder.groups),
                None => Seq::empty(),
            },
    {
        let mut out: Vec<(u64, DuplicateFile)> = Vec::new();
        assert(pairs_view(out@) =~= Seq::empty());
        if let Some(overlay) = &self.overlays.duplicates {
            let ghost all = groups_view(overlay.groups@);
            let mut i: usize = 0;
            assert(all.take(0) =~= Seq::<DuplicateGroupView>::empty());
            while i < overlay.groups.len()
                invariant
                    i <= overlay.groups@.len(),
                    all == groups_view(overlay.groups@),
                    pairs_view(out@) == flat_pairs(all.take(i as int)),
                decreases overlay.groups@.len() - i,
            {
                let group: &DuplicateGroup = &overlay.groups[i];
                let ghost before = pairs_view(out@);
                let ghost tail = group@.files.map_values(|f: DuplicateFileView| (group@.id, f));
                let mut j: usize = 0;
                assert(before + tail.take(0) =~= before);
                while j < group.files.len()
                    invariant
                        j <= group.files@.len(),
                        tail == group@.files.map_values(|f: DuplicateFileView| (group@.id, f)),
                        pairs_view(out@) == before + tail.take(j as int),
                    decreases group.files@.len() - j,
                {
                    let ghost now = pairs_view(out@);
                    out.push((group.id, group.files[j].copy()));
                    proof {
                        assert(group@.files[j as int] == group.files@[j as int]@);
                        assert(pairs_view(out@) =~= now.push(tail[j as int]));
                        assert(before + tail.take(j + 1) =~= now.push(tail[j as int]));
                    }
                    j = j + 1;
                }
                proof {
                    assert(tail.take(j as int) =~= tail);
                    assert(all.take(i + 1).drop_last() =~= all.take(i as int));
                    assert(all.take(i + 1).last() == group@);
                    assert(flat_pairs(all.take(i + 1)) =~= before + tail);
                }
                i = i + 1;
            }
            assert(all.take(i as int) =~= all);
        }
        out
    }

    /// The files that an action is about.
    pub fn duplicate_action_paths(&self) -> (r: Vec<FilePath>)
        requires
            self.wf(),
        ensures
            path_bytes(r@) == action_paths(self@),
    {
        if let Some(overlay) = &self.overlays.duplicates {
            if !overlay.selected_paths.is_empty() {
                return overlay.selected_paths.to_sorted();
            }
        }
        let mut out: Vec<FilePath> = Vec::new();
        if let Some(path) = self.duplicate_focused_path() {
            out.push(path);
        }
        assert(path_bytes(out@) =~= action_paths(self@));
        out
    }

    /// Chooses the file that has the focus, or chooses it no more.
    pub fn toggle_duplicate_selection(&mut self)
        requires
            old(self).wf(),
        ensures
            final(self).wf(),
            final(self)@ == with_choice_toggled(old(self)@),
    {
        let path: FilePath = match self.duplicate_focused_path() {
            Some(path) => path,
            None => return,
        };
        if let Some(overlay) = &mut self.overlays.duplicates {
            if !overlay.selected_paths.insert(&path) {
                let _ = overlay.selected_paths.remove(&path);
            }
        }
        self.status = String::new();
        self.move_duplicate_selection(1);
    }

    /// Chooses every file.
    pub fn select_all_duplicates(&mut self)
        requires
            old(self).wf(),
        ensures
            final(self).wf(),
            final(self)@ == with_all_chosen(old(self)@),
    {
        let files: Vec<(u64, DuplicateFile)> = self.duplicate_flat_files();
        let ghost before = self@;
        if let Some(overlay) = &mut self.overlays.duplicates {
            let ghost finder = overlay@;
            let ghost all = finder.files();
            proof {
                lemma_pairs_are_files(finder.groups);
                assert(all.len() == files@.len());
            }
            let mut i: usize = 0;
            assert(all.take(0) =~= Seq::<DuplicateFileView>::empty());
            while i < files.len()
                invariant
                    i <= files@.len(),
                    files@.len() == all.len(),
                    pairs_view(files@) == flat_pairs(finder.groups),
                    flat_pairs(finder.groups).map_values(|p: (u64, DuplicateFileView)| p.1) == all,
                    overlay.wf(),
                    overlay@ == (FinderView {
                        selected_paths: with_files(finder.selected_paths, all.take(i as int)),
                        ..finder
                    }),
                decreases files@.len() - i,
            {
                let ghost now = overlay.selected_paths@;
                let _ = overlay.selected_paths.insert(&files[i].1.path);
                proof {
                    assert(pairs_view(files@)[i as int] == (files@[i as int].0, files@[i as int].1@));
                    assert(flat_pairs(finder.groups).map_values(
                        |p: (u64, DuplicateFileView)| p.1,
                    )[i as int] == files@[i as int].1@);
                    assert(all.take(i + 1).drop_last() =~= all.take(i as int));
                    assert(all.take(i + 1).last() == files@[i as int].1@);
                }
                i = i + 1;
            }
            assert(all.take(i as int) =~= all);
        } else {
            return;
        }
        self.status = String::new();
    }

    /// Chooses no file any more, or closes the finder where none was chosen.
    pub fn clear_duplicate_selection_or_close(&mut self, pool: &mut DuplicateState)
        requires
            old(self).wf(),
            old(pool).wf(),
        ensures
            final(self).wf(),
            final(pool).wf(),
            final(self)@ == unchosen_or_closed(old(self)@),
            final(pool)@ == if has_choice(old(self)@) {
                old(pool)@
            } else {
                all_canceled(old(pool)@)
            },
    {
        let mut cleared: bool = false;
        if let Some(overlay) = &mut self.overlays.duplicates {
            if !overlay.selected_paths.is_empty() {
                overlay.selected_paths.clear();
                cleared = true;
            }
        }
        if cleared {
            self.status = String::new();
            return;
        }
        self.close_duplicate_finder(pool);
    }

    /// Closes the finder and shows the file that has the focus in the browser.
    pub fn reveal_duplicate_focus(&mut self, pool: &mut DuplicateState)
        requires
            old(self).wf(),
            old(pool).wf(),
        ensures
            final(self).wf(),
            final(pool).wf(),
            final(self)@ == revealed(old(self)@),
            final(pool)@ == if focused_path(old(self)@) is Some {
                all_canceled(old(pool)@)
            } else {
                old(pool)@
            },
    {
        let path: FilePath = match self.duplicate_focused_path() {
            Some(path) => path,
            None => return,
        };
        self.close_duplicate_finder(pool);
        self.request(Effect::Reveal(path));
    }

    /// Opens files with the programs that the system has for them.
    pub fn open_duplicate_targets(&mut self)
        requires
            old(self).wf(),
        ensures
            final(self).wf(),
            final(self)@ == targets_opened(old(self)@),
    {
        let targets: Vec<FilePath> = self.duplicate_action_paths();
        assert(path_bytes(targets@).len() == targets@.len());
        if targets.len() == 0 {
            return;
        }
        self.jobs.clipboard = false;
        self.request(Effect::OpenPaths(targets));
    }

    /// Asks for a new name of the file that has the focus, or for new names of
    /// the files that are chosen.
    pub fn open_duplicate_rename(&mut self)
        requires
            old(self).wf(),
        ensures
            final(self).wf(),
            final(self)@ == rename_opened(old(self)@),
    {
        let chosen: bool = match &self.overlays.duplicates {
            Some(overlay) => !overlay.selected_paths.is_empty(),
            None => false,
        };
        if chosen {
            self.open_duplicate_bulk_rename();
            return;
        }
        let entry: Entry = match self.duplicate_focused_entry() {
            Some(entry) => entry,
            None => return,
        };
        let cursor_col: usize = chars_of(entry.name_key.as_str()).len();
        let input: String = entry.name.clone();
        self.overlays.rename = Some(
            RenameOverlay {
                is_dir: false,
                original_name: entry.name,
                input,
                cursor_col,
                error: None,
            },
        );
    }

    /// Asks for new names of several files.
    pub fn open_duplicate_bulk_rename(&mut self)
        requires
            old(self).wf(),
        ensures
            final(self).wf(),
            final(self)@ == bulk_rename_opened(old(self)@),
    {
        let ghost before = self@;
        let paths: Vec<FilePath> = self.duplicate_action_paths();
        let ghost all = path_bytes(paths@);
        if paths.len() == 0 {
            return;
        }
        let platform: Platform = self.navigation.platform;
        let mut items: Vec<BulkRenameItem> = Vec::new();
        let mut new_names: Vec<String> = Vec::new();
        let mut line_errors: Vec<Option<String>> = Vec::new();
        let mut i: usize = 0;
        while i < paths.len()
            invariant
                i <= paths@.len(),
                items@.len() == i,
                new_names@.len() == i,
                line_errors@.len() == i,
                forall|k: int| 0 <= k < i ==> (#[trigger] items@[k])@ == bulk_item(
                    paths@[k]@,
                    platform,
                ),
                forall|k: int| 0 <= k < i ==> (#[trigger] new_names@[k])@ == shown_name(
                    paths@[k]@,
                    platform,
                ),
                forall|k: int| 0 <= k < i ==> (#[trigger] line_errors@[k]) is None,
            decreases paths@.len() - i,
        {
            let name: String = name_to_show(&paths[i], platform);
            new_names.push(name.clone());
            items.push(
                BulkRenameItem { path: paths[i].copy(), original_name: name, is_dir: false },
            );
            line_errors.push(None);
            i = i + 1;
        }
        let overlay: BulkRenameOverlay = BulkRenameOverlay {
            items,
            new_names,
            root: None,
            cursor_line: 0,
            cursor_col: 0,
            preferred_col: 0,
            line_errors,
        };
        proof {
            assert(overlay@.items =~= all.map_values(|p: Seq<u8>| bulk_item(p, platform)));
            assert(overlay@.new_names =~= all.map_values(|p: Seq<u8>| shown_name(p, platform)));
            assert(overlay@.line_errors =~= Seq::new(all.len(), |i: int| None::<Seq<char>>));
        }
        self.overlays.bulk_rename = Some(overlay);
        assert(self@ =~= bulk_rename_opened(before));
    }

    /// Asks for new names in an editor.
    pub fn open_duplicate_editor_bulk_rename(&mut self)
        requires
            old(self).wf(),
        ensures
            final(self).wf(),
            final(self)@ == editor_rename_opened(old(self)@),
    {
        let paths: Vec<FilePath> = self.duplicate_action_paths();
        assert(path_bytes(paths@).len() == paths@.len());
        if paths.len() == 0 {
            return;
        }
        self.request(Effect::RenameInEditor(paths));
    }

    /// Asks whether files are to be trashed.
    pub fn open_duplicate_trash_prompt(&mut self)
        requires
            old(self).wf(),
        ensures
            final(self).wf(),
            final(self)@ == trash_prompted(old(self)@),
    {
        if self.duplicate_loading() {
            self.status = String::from_str(
                "Wait for duplicate scan to finish before trashing results",
            );
            return;
        }
        let paths: Vec<FilePath> = self.duplicate_action_paths();
        let ghost all = path_bytes(paths@);
        let platform: Platform = self.navigation.platform;
        let mut targets: Vec<TrashTarget> = Vec::new();
        let mut i: usize = 0;
        assert(all.take(0) =~= Seq::<Seq<u8>>::empty());
        assert(targets_view(targets@) =~= trash_targets(all.take(0), platform));
        while i < paths.len()
            invariant
                i <= paths@.len(),
                all == path_bytes(paths@),
                targets_view(targets@) == trash_targets(all.take(i as int), platform),
            decreases paths@.len() - i,
        {
            let ghost now = targets_view(targets@);
            proof {
                assert(all.take(i + 1).drop_last() =~= all.take(i as int));
                assert(all.take(i + 1).last() == paths@[i as int]@);
            }
            if let Some(name) = paths[i].file_name() {
                let target: TrashTarget = TrashTarget {
                    path: paths[i].copy(),
                    name: text_to_show(name.as_slice(), platform),
                    is_dir: false,
                };
                targets.push(target);
                assert(targets_view(targets@) =~= now.push(target@));
            }
            i = i + 1;
        }
        assert(all.take(i as int) =~= all);
        assert(targets_view(targets@).len() == targets@.len());
        if targets.len() == 0 {
            return;
        }
        self.request(Effect::PromptTrash(targets));
    }

    /// Takes in that files were renamed: they stay where they are in the list.
    pub fn apply_duplicate_rename_pairs(&mut self, pairs: Vec<(FilePath, FilePath)>)
        requires
            old(self).wf(),
        ensures
            final(self).wf(),
            final(self)@ == with_renames(old(self)@, rename_pairs(pairs@)),
    {
        let ghost all = rename_pairs(pairs@);
        assert(all.len() == pairs@.len());
        if pairs.len() == 0 {
            return;
        }
        if let Some(overlay) = &mut self.overlays.duplicates {
            let ghost finder = overlay@;
            let mut i: usize = 0;
            assert(all.take(0) =~= Seq::<(Seq<u8>, Seq<u8>)>::empty());
            while i < pairs.len()
                invariant
                    i <= pairs@.len(),
                    all == rename_pairs(pairs@),
                    overlay.wf(),
                    overlay@ == all_renamed(finder, all.take(i as int)),
                decreases pairs@.len() - i,
            {
                let pair: &(FilePath, FilePath) = &pairs[i];
                proof {
                    assert(all.take(i + 1).drop_last() =~= all.take(i as int));
                    assert(all.take(i + 1).last() == (pair.0@, pair.1@));
                }
                overlay.rename(&pair.0, &pair.1);
                i = i + 1;
            }
            assert(all.take(i as int) =~= all);
        } else {
            return;
        }
        self.refresh_duplicate_preview();
    }

    /// Says which file is to be renamed to what. Where the file that has the
    /// focus is not the one of that name any more, nothing is renamed.
    pub fn confirm_duplicate_rename(&mut self, original_name: &str, new_name: &str) -> (r: Option<
        RenamePlan,
    >)
        requires
            old(self).wf(),
        ensures
            final(self).wf(),
            r is Some <==> focus_has_name(old(self)@, original_name@),
            match r {
                Some(plan) => {
                    &&& *final(self) == *old(self)
                    &&& plan.old_path@ == focused_path(old(self)@)->0
                    &&& plan.new_path@ == renamed_path(plan.old_path@, new_name@)
                },
                None => final(self)@ == (AppView { rename: None, ..old(self)@ }),
            },
    {
        let old_path: FilePath = match self.duplicate_focused_path() {
            Some(path) => path,
            None => {
                self.overlays.rename = None;
                return None;
            },
        };
        let same: bool = match old_path.file_name_text() {
            Some(name) => same_text(name.as_str(), original_name),
            None => false,
        };
        if !same {
            self.overlays.rename = None;
            return None;
        }
        let new_path: FilePath = match old_path.parent() {
            Some(parent) => parent.join(new_name.as_bytes()),
            None => FilePath::from_text(new_name),
        };
        Some(RenamePlan { old_path, new_path })
    }

    /// Takes in how a rename went.
    pub fn finish_duplicate_rename(
        &mut self,
        original_name: &str,
        new_name: &str,
        plan: RenamePlan,
        outcome: RenameOutcome,
    )
        requires
            old(self).wf(),
        ensures
            final(self).wf(),
            final(self)@ == rename_done(
                old(self)@,
                original_name@,
                new_name@,
                plan.old_path@,
                plan.new_path@,
                outcome,
            ),
    {
        let ghost before = self@;
        match outcome {
            RenameOutcome::Renamed => {
                self.overlays.rename = None;
                let mut pairs: Vec<(FilePath, FilePath)> = Vec::new();
                let ghost wanted = seq![(plan.old_path@, plan.new_path@)];
                pairs.push((plan.old_path, plan.new_path));
                assert(rename_pairs(pairs@) =~= wanted);
                self.apply_duplicate_rename_pairs(pairs);
                let first: String = concat_three("Renamed \"", original_name, "\" → \"");
                self.status = concat_three(first.as_str(), new_name, "\"");
            },
            RenameOutcome::Exists => {
                let error: String = concat_three("\"", new_name, "\" already exists");
                self.set_rename_error(error);
            },
            RenameOutcome::Denied => {
                let error: String = concat_three(
                    "Permission denied renaming \"",
                    original_name,
                    "\"",
                );
                self.set_rename_error(error);
            },
            RenameOutcome::Failed(error) => {
                let error: String = concat("Could not rename: ", error.as_str());
                self.set_rename_error(error);
            },
        }
    }

    fn set_rename_error(&mut self, error: String)
        requires
            old(self).wf(),
        ensures
            final(self).wf(),
            final(self)@ == with_rename_error(old(self)@, error@),
    {
        if let Some(rename) = &mut self.overlays.rename {
            rename.error = Some(error);
        }
    }
}

} // verus!
