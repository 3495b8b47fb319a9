//! The duplicate finder: opening and closing it, what it shows while results
//! come in, and which file has the focus.

use crate::batches::DuplicateScanBatch;
use crate::duplicate_pool::{
    all_canceled, submitted, DirectoryFingerprint, DuplicateScanRequest, DuplicateState,
    ScanRequestView,
};
use crate::duplicates::{
    groups_view, no_stats, DuplicateFileView, DuplicateGroup, DuplicateGroupView,
    DuplicateScanStats, Timestamp,
};
use crate::finder_model::{
    duplicate_file_at, duplicate_group_file_count, flat_files, fresh_finder, rows_view,
    DuplicateFinderOverlay, DuplicateRow, FinderView,
};
use crate::path::{components, path_bytes, FilePath};
use crate::path_set::PathSet;
use crate::platform::Platform;
use crate::scan::DuplicateScanResult;
use crate::text::{lowercase, lowercase_text};
use crate::walk::EntryKind;
use vstd::prelude::*;
use vstd::string::StringExecFns;

verus! {

/// A part of the screen.
#[derive(Clone, Copy, PartialEq, Eq, Structural, Debug)]
pub struct Rect {
    pub x: u16,
    pub y: u16,
    pub width: u16,
    pub height: u16,
}

impl Rect {
    pub open spec fn covers(self, column: u16, row: u16) -> bool {
        &&& self.x <= column < self.x + self.width
        &&& self.y <= row < self.y + self.height
    }
}

pub fn rect_contains(rect: Rect, column: u16, row: u16) -> (r: bool)
    ensures
        r == rect.covers(column, row),
        r <==> rect.x <= column && column < rect.x + rect.width && rect.y <= row && row < rect.y
            + rect.height,
{
    rect.x <= column && (column as u32) < rect.x as u32 + rect.width as u32 && rect.y <= row && (
    row as u32) < rect.y as u32 + rect.height as u32
}

/// A line of the finder on the screen.
#[derive(Clone, Copy, PartialEq, Eq, Structural, Debug)]
pub struct DuplicateHit {
    pub rect: Rect,
    pub index: usize,
}

/// Where things were drawn last.
#[derive(Debug)]
pub struct FrameState {
    pub duplicate_rows_visible: usize,
    pub duplicate_hits: Vec<DuplicateHit>,
    pub duplicate_panel: Option<Rect>,
    pub preview_panel: Option<Rect>,
}

/// A file in the browser or the preview.
#[derive(Debug)]
pub struct Entry {
    pub path: FilePath,
    pub name: String,
    pub name_key: String,
    pub kind: EntryKind,
    /// Where the entry points to, where it is a link.
    pub symlink: Option<FilePath>,
    pub size: u64,
    pub modified: Option<Timestamp>,
    pub readonly: bool,
}

#[verifier::ext_equal]
pub ghost struct EntryView {
    pub path: Seq<u8>,
    pub name: Seq<char>,
    pub name_key: Seq<char>,
    pub kind: EntryKind,
    pub symlink: Option<Seq<u8>>,
    pub size: u64,
    pub modified: Option<Timestamp>,
    pub readonly: bool,
}

impl View for Entry {
    type V = EntryView;

    open spec fn view(&self) -> EntryView {
        EntryView {
            path: self.path@,
            name: self.name@,
            name_key: self.name_key@,
            kind: self.kind,
            symlink: match self.symlink {
                Some(target) => Some(target@),
                None => None,
            },
            size: self.size,
            modified: self.modified,
            readonly: self.readonly,
        }
    }
}

impl Entry {
    pub fn copy(&self) -> (r: Entry)
        ensures
            r@ == self@,
    {
        Entry {
            path: self.path.copy(),
            name: self.name.clone(),
            name_key: self.name_key.clone(),
            kind: self.kind,
            symlink: match &self.symlink {
                Some(target) => Some(target.copy()),
                None => None,
            },
            size: self.size,
            modified: self.modified,
            readonly: self.readonly,
        }
    }
}

pub open spec fn entry_view(entry: Option<Entry>) -> Option<EntryView> {
    match entry {
        Some(entry) => Some(entry@),
        None => None,
    }
}

/// A file of the finder as an entry.
pub open spec fn entry_of(file: DuplicateFileView) -> EntryView {
    EntryView {
        path: file.path,
        name: file.name,
        name_key: lowercase_text(file.name),
        kind: EntryKind::File,
        symlink: None,
        size: file.size,
        modified: file.modified,
        readonly: false,
    }
}

/// Asking for a new name of one file.
#[derive(Debug)]
pub struct RenameOverlay {
    pub is_dir: bool,
    pub original_name: String,
    pub input: String,
    pub cursor_col: usize,
    pub error: Option<String>,
}

#[verifier::ext_equal]
pub ghost struct RenameView {
    pub is_dir: bool,
    pub original_name: Seq<char>,
    pub input: Seq<char>,
    pub cursor_col: int,
    pub error: Option<Seq<char>>,
}

impl View for RenameOverlay {
    type V = RenameView;

    open spec fn view(&self) -> RenameView {
        RenameView {
            is_dir: self.is_dir,
            original_name: self.original_name@,
            input: self.input@,
            cursor_col: self.cursor_col as int,
            error: match self.error {
                Some(error) => Some(error@),
                None => None,
            },
        }
    }
}

/// A file among those that get new names together.
#[derive(Debug)]
pub struct BulkRenameItem {
    pub path: FilePath,
    pub original_name: String,
    pub is_dir: bool,
}

#[verifier::ext_equal]
pub ghost struct BulkItemView {
    pub path: Seq<u8>,
    pub original_name: Seq<char>,
    pub is_dir: bool,
}

impl View for BulkRenameItem {
    type V = BulkItemView;

    open spec fn view(&self) -> BulkItemView {
        BulkItemView {
            path: self.path@,
            original_name: self.original_name@,
            is_dir: self.is_dir,
        }
    }
}

/// Asking for new names of several files.
#[derive(Debug)]
pub struct BulkRenameOverlay {
    pub items: Vec<BulkRenameItem>,
    pub new_names: Vec<String>,
    /// The directory that the names are relative to, where they are.
    pub root: Option<FilePath>,
    pub cursor_line: usize,
    pub cursor_col: usize,
    pub preferred_col: usize,
    pub line_errors: Vec<Option<String>>,
}

#[verifier::ext_equal]
pub ghost struct BulkRenameView {
    pub items: Seq<BulkItemView>,
    pub new_names: Seq<Seq<char>>,
    pub root: Option<Seq<u8>>,
    pub cursor_line: int,
    pub cursor_col: int,
    pub preferred_col: int,
    pub line_errors: Seq<Option<Seq<char>>>,
}

pub open spec fn text_view(text: Option<String>) -> Option<Seq<char>> {
    match text {
        Some(text) => Some(text@),
        None => None,
    }
}

impl View for BulkRenameOverlay {
    type V = BulkRenameView;

    open spec fn view(&self) -> BulkRenameView {
        BulkRenameView {
            items: self.items@.map_values(|i: BulkRenameItem| i@),
            new_names: self.new_names@.map_values(|n: String| n@),
            root: match self.root {
                Some(root) => Some(root@),
                None => None,
            },
            cursor_line: self.cursor_line as int,
            cursor_col: self.cursor_col as int,
            preferred_col: self.preferred_col as int,
            line_errors: self.line_errors@.map_values(|e: Option<String>| text_view(e)),
        }
    }
}

/// A file to be trashed.
#[derive(Debug)]
pub struct TrashTarget {
    pub path: FilePath,
    pub name: String,
    pub is_dir: bool,
}

#[verifier::ext_equal]
pub ghost struct TrashTargetView {
    pub path: Seq<u8>,
    pub name: Seq<char>,
    pub is_dir: bool,
}

impl View for TrashTarget {
    type V = TrashTargetView;

    open spec fn view(&self) -> TrashTargetView {
        TrashTargetView { path: self.path@, name: self.name@, is_dir: self.is_dir }
    }
}

/// What a key can be bound to, as far as the finder cares.
#[derive(Clone, Copy, PartialEq, Eq, Structural, Debug)]
pub enum Action {
    Quit,
    QuitWithoutCd,
    Open,
    OpenOrEnter,
    CopyPath,
    Rename,
    RenameInEditor,
    Trash,
    SelectAll,
    ToggleSelection,
    FindDuplicates,
    NavUp,
    NavDown,
    PageUp,
    PageDown,
    JumpFirst,
    JumpLast,
    TogglePreview,
    ScrollPreviewUp,
    ScrollPreviewDown,
    ScrollPreviewLeft,
    ScrollPreviewRight,
    Other,
}

/// What other parts of the program are to do.
#[derive(Debug)]
pub enum Effect {
    /// Forget where images were drawn.
    ClearImageGeometry,
    /// Forget which image is shown.
    ClearImageActivation,
    ClearWheelScroll,
    RefreshPreview,
    ScrollPreviewLines(i32),
    ScrollPreviewColumns(i32),
    Dispatch(Action),
    OpenPaths(Vec<FilePath>),
    Reveal(FilePath),
    CopyPaths(Vec<FilePath>),
    RenameInEditor(Vec<FilePath>),
    PromptTrash(Vec<TrashTarget>),
}

pub ghost enum EffectView {
    ClearImageGeometry,
    ClearImageActivation,
    ClearWheelScroll,
    RefreshPreview,
    ScrollPreviewLines(int),
    ScrollPreviewColumns(int),
    Dispatch(Action),
    OpenPaths(Seq<Seq<u8>>),
    Reveal(Seq<u8>),
    CopyPaths(Seq<Seq<u8>>),
    RenameInEditor(Seq<Seq<u8>>),
    PromptTrash(Seq<TrashTargetView>),
}

pub open spec fn targets_view(targets: Seq<TrashTarget>) -> Seq<TrashTargetView> {
    targets.map_values(|t: TrashTarget| t@)
}

impl View for Effect {
    type V = EffectView;

    open spec fn view(&self) -> EffectView {
        match *self {
            Effect::ClearImageGeometry => EffectView::ClearImageGeometry,
            Effect::ClearImageActivation => EffectView::ClearImageActivation,
            Effect::ClearWheelScroll => EffectView::ClearWheelScroll,
            Effect::RefreshPreview => EffectView::RefreshPreview,
            Effect::ScrollPreviewLines(n) => EffectView::ScrollPreviewLines(n as int),
            Effect::ScrollPreviewColumns(n) => EffectView::ScrollPreviewColumns(n as int),
            Effect::Dispatch(action) => EffectView::Dispatch(action),
            Effect::OpenPaths(paths) => EffectView::OpenPaths(path_bytes(paths@)),
            Effect::Reveal(path) => EffectView::Reveal(path@),
            Effect::CopyPaths(paths) => EffectView::CopyPaths(path_bytes(paths@)),
            Effect::RenameInEditor(paths) => EffectView::RenameInEditor(path_bytes(paths@)),
            Effect::PromptTrash(targets) => EffectView::PromptTrash(targets_view(targets@)),
        }
    }
}

pub open spec fn effects_view(effects: Seq<Effect>) -> Seq<EffectView> {
    effects.map_values(|e: Effect| e@)
}

/// What lies on top of the browser.
#[derive(Debug)]
pub struct Overlays {
    pub duplicates: Option<DuplicateFinderOverlay>,
    pub help: bool,
    pub help_scroll: usize,
    pub search: bool,
    pub rename: Option<RenameOverlay>,
    pub bulk_rename: Option<BulkRenameOverlay>,
}

/// Where the browser is.
#[derive(Debug)]
pub struct Navigation {
    pub cwd: FilePath,
    /// Whose paths these are.
    pub platform: Platform,
    pub fingerprint: DirectoryFingerprint,
    pub show_hidden: bool,
    pub selected_paths: PathSet,
    pub selected_entry: Option<Entry>,
}

#[derive(Debug)]
pub struct Jobs {
    /// Which search is the current one.
    pub duplicate_token: u64,
    /// Whether files were cut or copied.
    pub clipboard: bool,
}

#[derive(Debug)]
pub struct Input {
    pub frame_state: FrameState,
}

/// The part of the program's state that the duplicate finder reads and changes.
#[derive(Debug)]
pub struct App {
    pub overlays: Overlays,
    pub navigation: Navigation,
    pub jobs: Jobs,
    pub input: Input,
    pub status: String,
    /// What is left for other parts to do, the oldest first.
    pub effects: Vec<Effect>,
}

#[verifier::ext_equal]
pub ghost struct AppView {
    pub finder: Option<FinderView>,
    pub help: bool,
    pub help_scroll: int,
    pub search: bool,
    pub rename: Option<RenameView>,
    pub bulk_rename: Option<BulkRenameView>,
    pub cwd: Seq<u8>,
    pub platform: Platform,
    pub fingerprint: DirectoryFingerprint,
    pub show_hidden: bool,
    pub browser_selection: Map<Seq<Seq<u8>>, Seq<u8>>,
    pub browser_entry: Option<EntryView>,
    pub token: u64,
    pub clipboard: bool,
    pub rows_visible: int,
    pub hits: Seq<DuplicateHit>,
    pub panel: Option<Rect>,
    pub preview_panel: Option<Rect>,
    pub status: Seq<char>,
    pub effects: Seq<EffectView>,
}

impl View for App {
    type V = AppView;

    open spec fn view(&self) -> AppView {
        AppView {
            finder: match self.overlays.duplicates {
                Some(finder) => Some(finder@),
                None => None,
            },
            help: self.overlays.help,
            help_scroll: self.overlays.help_scroll as int,
            search: self.overlays.search,
            rename: match self.overlays.rename {
                Some(rename) => Some(rename@),
                None => None,
            },
            bulk_rename: match self.overlays.bulk_rename {
                Some(rename) => Some(rename@),
                None => None,
            },
            cwd: self.navigation.cwd@,
            platform: self.navigation.platform,
            fingerprint: self.navigation.fingerprint,
            show_hidden: self.navigation.show_hidden,
            browser_selection: self.navigation.selected_paths@,
            browser_entry: entry_view(self.navigation.selected_entry),
            token: self.jobs.duplicate_token,
            clipboard: self.jobs.clipboard,
            rows_visible: self.input.frame_state.duplicate_rows_visible as int,
            hits: self.input.frame_state.duplicate_hits@,
            panel: self.input.frame_state.duplicate_panel,
            preview_panel: self.input.frame_state.preview_panel,
            status: self.status@,
            effects: effects_view(self.effects@),
        }
    }
}

/// Something more to do.
pub open spec fn with_effect(v: AppView, effect: EffectView) -> AppView {
    AppView { effects: v.effects.push(effect), ..v }
}

pub open spec fn with_finder(v: AppView, finder: FinderView) -> AppView {
    AppView { finder: Some(finder), ..v }
}

/// How many files the finder shows.
pub open spec fn file_count(v: AppView) -> int {
    match v.finder {
        Some(finder) => finder.count(),
        None => 0,
    }
}

/// The path of the file that has the focus.
pub open spec fn focused_path(v: AppView) -> Option<Seq<u8>> {
    match v.finder {
        Some(finder) => match finder.focus() {
            Some(file) => Some(file.path),
            None => None,
        },
        None => None,
    }
}

/// Whether two paths that may be absent are the same.
pub open spec fn same_optional_path(a: Option<Seq<u8>>, b: Seq<u8>) -> bool {
    a is Some && components(a->0) == components(b)
}

/// After the preview was brought in line with the focus: it is asked for where
/// it is shown and was not asked for already.
pub open spec fn previewed(v: AppView) -> AppView {
    match (v.finder, focused_path(v)) {
        (Some(finder), Some(path)) => if finder.preview_visible && !same_optional_path(
            finder.preview_path,
            path,
        ) {
            with_effect(
                with_finder(v, FinderView { preview_path: Some(path), ..finder }),
                EffectView::RefreshPreview,
            )
        } else {
            v
        },
        _ => v,
    }
}

pub open spec fn smaller(a: int, b: int) -> int {
    if a < b {
        a
    } else {
        b
    }
}

pub open spec fn larger(a: int, b: int) -> int {
    if a > b {
        a
    } else {
        b
    }
}

/// The first line to show so that a line is in sight, moving as little as can
/// be, without leaving lines empty at the end.
pub open spec fn scroll_for(selected: int, scroll: int, visible: int, count: int) -> int {
    let moved = if selected < scroll {
        selected
    } else if selected >= scroll + visible {
        larger(selected - (visible - 1), 0)
    } else {
        scroll
    };
    smaller(moved, larger(count - visible, 0))
}

/// A finder with its focus among its files and in sight.
pub open spec fn synced_finder(finder: FinderView, rows_visible: int) -> FinderView {
    let count = finder.count();
    if count == 0 {
        FinderView { selected: 0, scroll: 0, ..finder }
    } else {
        let selected = smaller(finder.selected, count - 1);
        FinderView {
            selected,
            scroll: scroll_for(selected, finder.scroll, larger(rows_visible, 1), count),
            ..finder
        }
    }
}

pub open spec fn synced(v: AppView) -> AppView {
    match v.finder {
        Some(finder) => with_finder(v, synced_finder(finder, v.rows_visible)),
        None => v,
    }
}

/// After the focus was moved to a file, or to the last one where there are fewer.
pub open spec fn with_focus(v: AppView, index: int) -> AppView {
    previewed(
        synced(
            match v.finder {
                Some(finder) => with_finder(
                    v,
                    FinderView {
                        selected: smaller(index, larger(finder.count() - 1, 0)),
                        ..finder
                    },
                ),
                None => v,
            },
        ),
    )
}

/// A number within bounds.
pub open spec fn clamped(n: int, low: int, high: int) -> int {
    if n < low {
        low
    } else if n > high {
        high
    } else {
        n
    }
}

/// After the focus was moved by a number of files, up where it is negative.
pub open spec fn with_focus_moved(v: AppView, delta: int) -> AppView {
    if file_count(v) == 0 {
        v
    } else {
        with_focus(v, clamped(v.finder->0.selected + delta, 0, file_count(v) - 1))
    }
}

/// The search that opening the finder asks for.
pub open spec fn scan_request(v: AppView) -> ScanRequestView {
    ScanRequestView {
        token: next_token(v.token),
        cwd: v.cwd,
        show_hidden: v.show_hidden,
        fingerprint: v.fingerprint,
    }
}

/// The token after a token; the last one is followed by zero.
pub open spec fn next_token(token: u64) -> u64 {
    if token < u64::MAX {
        (token + 1) as u64
    } else {
        0
    }
}

/// After the finder was opened: the browser's selection is gone, and a search is
/// asked for. Where none can be had, the finder says so.
pub open spec fn opened(v: AppView, refused: bool) -> AppView {
    let finder = FinderView {
        loading: !refused,
        error: if refused {
            Some("Duplicate worker unavailable"@)
        } else {
            None
        },
        ..fresh_finder(v.cwd, v.platform)
    };
    AppView {
        finder: Some(finder),
        help: false,
        search: false,
        browser_selection: Map::empty(),
        token: next_token(v.token),
        effects: v.effects.push(EffectView::ClearImageGeometry).push(EffectView::ClearWheelScroll),
        ..v
    }
}

/// After the finder was closed.
pub open spec fn closed(v: AppView) -> AppView {
    AppView {
        finder: None,
        token: next_token(v.token),
        effects: v.effects.push(EffectView::ClearImageGeometry).push(
            EffectView::RefreshPreview,
        ).push(EffectView::ClearWheelScroll),
        ..v
    }
}

/// After some groups came in: they are added behind the others, so that the
/// focus stays where it is.
pub open spec fn with_batch(
    v: AppView,
    groups: Seq<DuplicateGroupView>,
    stats: DuplicateScanStats,
) -> AppView {
    match v.finder {
        None => v,
        Some(finder) => {
            let after = FinderView {
                groups: finder.groups + groups,
                stats,
                error: None,
                ..finder
            };
            if finder.count() == 0 && after.count() > 0 {
                previewed(
                    synced(with_effect(with_finder(v, after), EffectView::ClearImageGeometry)),
                )
            } else {
                synced(with_finder(v, after))
            }
        },
    }
}

/// After a search came to its end, well or not.
pub open spec fn with_result(
    v: AppView,
    result: Result<(Seq<DuplicateGroupView>, DuplicateScanStats), Seq<char>>,
) -> AppView {
    match v.finder {
        None => v,
        Some(finder) => {
            let after = match result {
                Ok((groups, stats)) => FinderView {
                    groups,
                    stats,
                    selected: 0,
                    scroll: 0,
                    error: None,
                    loading: false,
                    ..finder
                },
                Err(error) => FinderView {
                    groups: Seq::empty(),
                    stats: no_stats(),
                    error: Some(error),
                    loading: false,
                    ..finder
                },
            };
            let shown = with_finder(v, after);
            previewed(
                synced(
                    if (finder.count() > 0) != (after.count() > 0) {
                        with_effect(shown, EffectView::ClearImageGeometry)
                    } else {
                        shown
                    },
                ),
            )
        },
    }
}

/// After the preview was shown or taken away.
pub open spec fn with_preview_toggled(v: AppView) -> AppView {
    let cleared = with_effect(v, EffectView::ClearImageGeometry);
    match v.finder {
        None => cleared,
        Some(finder) => {
            let visible = !finder.preview_visible;
            let after = with_finder(
                cleared,
                FinderView {
                    preview_visible: visible,
                    preview_path: if visible {
                        finder.preview_path
                    } else {
                        None
                    },
                    ..finder
                },
            );
            previewed(
                if visible {
                    after
                } else {
                    with_effect(after, EffectView::ClearImageActivation)
                },
            )
        },
    }
}

/// What a search that came to its end shows.
pub open spec fn result_view(result: Result<DuplicateScanResult, String>) -> Result<
    (Seq<DuplicateGroupView>, DuplicateScanStats),
    Seq<char>,
> {
    match result {
        Ok(result) => Ok((groups_view(result.groups@), result.stats)),
        Err(error) => Err(error@),
    }
}

/// Files of groups put together are counted together.
pub proof fn lemma_flat_add(a: Seq<DuplicateGroupView>, b: Seq<DuplicateGroupView>)
    ensures
        flat_files(a + b) == flat_files(a) + flat_files(b),
    decreases b.len(),
{
    if b.len() == 0 {
        assert(a + b =~= a);
        assert(flat_files(a) + flat_files(b) =~= flat_files(a));
    } else {
        lemma_flat_add(a, b.drop_last());
        assert((a + b).drop_last() =~= a + b.drop_last());
        assert((a + b).last() == b.last());
        assert(flat_files(a + b) =~= flat_files(a) + flat_files(b));
    }
}

impl DuplicateFinderOverlay {
    /// Keeps the focus among the files and in sight; says whether anything
    /// moved.
    pub fn sync(&mut self, rows_visible: usize) -> (r: bool)
        requires
            old(self).wf(),
        ensures
            final(self).wf(),
            final(self)@ == synced_finder(old(self)@, rows_visible as int),
            r == (final(self)@.selected != old(self)@.selected || final(self)@.scroll != old(
                self,
            )@.scroll),
    {
        let count: usize = duplicate_group_file_count(&self.groups);
        let previous_selected: usize = self.selected;
        let previous_scroll: usize = self.scroll;
        if count == 0 {
            self.selected = 0;
            self.scroll = 0;
            return previous_selected != 0 || previous_scroll != 0;
        }
        let visible: usize = if rows_visible > 1 {
            rows_visible
        } else {
            1
        };
        if self.selected > count - 1 {
            self.selected = count - 1;
        }
        if self.selected < self.scroll {
            self.scroll = self.selected;
        } else if self.selected - self.scroll >= visible {
            self.scroll = self.selected - (visible - 1);
        }
        let last: usize = if count > visible {
            count - visible
        } else {
            0
        };
        if self.scroll > last {
            self.scroll = last;
        }
        previous_selected != self.selected || previous_scroll != self.scroll
    }
}

impl App {
    pub open spec fn wf(&self) -> bool {
        &&& self.overlays.duplicates is Some ==> self.overlays.duplicates->0.wf()
        &&& self.navigation.selected_paths.wf()
    }

    /// Leaves something for another part to do.
    pub fn request(&mut self, effect: Effect)
        requires
            old(self).wf(),
        ensures
            final(self).wf(),
            final(self)@ == with_effect(old(self)@, effect@),
    {
        let ghost before = self@;
        self.effects.push(effect);
        assert(self@.effects =~= before.effects.push(effect@));
    }

    pub fn duplicates_is_open(&self) -> (r: bool)
        ensures
            r == self@.finder is Some,
    {
        self.overlays.duplicates.is_some()
    }

    /// How many files the finder shows.
    pub fn duplicate_file_count(&self) -> (r: usize)
        requires
            self.wf(),
        ensures
            r == file_count(self@),
    {
        match &self.overlays.duplicates {
            Some(overlay) => duplicate_group_file_count(&overlay.groups),
            None => 0,
        }
    }

    pub fn duplicate_group_count(&self) -> (r: usize)
        ensures
            r == match self@.finder {
                Some(finder) => finder.groups.len(),
                None => 0,
            },
    {
        match &self.overlays.duplicates {
            Some(overlay) => overlay.groups.len(),
            None => 0,
        }
    }

    pub fn duplicate_stats(&self) -> (r: Option<DuplicateScanStats>)
        ensures
            r == match self@.finder {
                Some(finder) => Some(finder.stats),
                None => None,
            },
    {
        match &self.overlays.duplicates {
            Some(overlay) => Some(overlay.stats),
            None => None,
        }
    }

    pub fn duplicate_loading(&self) -> (r: bool)
        ensures
            r == (self@.finder is Some && self@.finder->0.loading),
    {
        match &self.overlays.duplicates {
            Some(overlay) => overlay.loading,
            None => false,
        }
    }

    pub fn duplicate_error(&self) -> (r: Option<&str>)
        ensures
            match r {
                Some(text) => self@.finder is Some && self@.finder->0.error == Some(text@),
                None => self@.finder is None || self@.finder->0.error is None,
            },
    {
        match &self.overlays.duplicates {
            Some(overlay) => match &overlay.error {
                Some(error) => Some(error.as_str()),
                None => None,
            },
            None => None,
        }
    }

    pub fn duplicate_preview_visible(&self) -> (r: bool)
        ensures
            r == (self@.finder is Some && self@.finder->0.preview_visible),
    {
        match &self.overlays.duplicates {
            Some(overlay) => overlay.preview_visible,
            None => false,
        }
    }

    /// Whether the preview was drawn.
    pub fn duplicate_preview_rendered(&self) -> (r: bool)
        ensures
            r == (self@.finder is Some && self@.finder->0.preview_visible && self@.preview_panel
                is Some),
    {
        self.overlays.duplicates.is_some() && self.duplicate_preview_visible()
            && self.input.frame_state.preview_panel.is_some()
    }

    pub fn duplicate_cwd(&self) -> (r: Option<&FilePath>)
        ensures
            match r {
                Some(path) => self@.finder is Some && self@.finder->0.cwd == path@,
                None => self@.finder is None,
            },
    {
        match &self.overlays.duplicates {
            Some(overlay) => Some(&overlay.cwd),
            None => None,
        }
    }

    pub fn duplicate_scroll_top(&self) -> (r: usize)
        ensures
            r == match self@.finder {
                Some(finder) => finder.scroll,
                None => 0,
            },
    {
        match &self.overlays.duplicates {
            Some(overlay) => overlay.scroll,
            None => 0,
        }
    }

    /// The lines of the finder to show.
    pub fn duplicate_rows(&self, max_rows: usize) -> (r: Vec<DuplicateRow>)
        requires
            self.wf(),
        ensures
            rows_view(r@) == match self@.finder {
                Some(finder) => finder.rows(max_rows as int),
                None => Seq::empty(),
            },
    {
        match &self.overlays.duplicates {
            Some(overlay) => overlay.rows(max_rows),
            None => {
                let rows: Vec<DuplicateRow> = Vec::new();
                assert(rows_view(rows@) =~= Seq::empty());
                rows
            },
        }
    }

    /// The path of the file that has the focus.
    pub fn duplicate_focused_path(&self) -> (r: Option<FilePath>)
        requires
            self.wf(),
        ensures
            match r {
                Some(path) => focused_path(self@) == Some(path@),
                None => focused_path(self@) is None,
            },
    {
        match &self.overlays.duplicates {
            Some(overlay) => match duplicate_file_at(&overlay.groups, overlay.selected) {
                Some(file) => Some(file.path.copy()),
                None => None,
            },
            None => None,
        }
    }

    /// The file that has the focus.
    pub fn duplicate_focused_entry(&self) -> (r: Option<Entry>)
        requires
            self.wf(),
        ensures
            entry_view(r) == match self@.finder {
                Some(finder) => match finder.focus() {
                    Some(file) => Some(entry_of(file)),
                    None => None,
                },
                None => None,
            },
    {
        match &self.overlays.duplicates {
            Some(overlay) => match duplicate_file_at(&overlay.groups, overlay.selected) {
                Some(file) => Some(
                    Entry {
                        path: file.path.copy(),
                        name: file.name.clone(),
                        name_key: lowercase(file.name.as_str()),
                        kind: EntryKind::File,
                        symlink: None,
                        size: file.size,
                        modified: file.modified,
                        readonly: false,
                    },
                ),
                None => None,
            },
            None => None,
        }
    }

    /// The file whose preview is to be shown: that of the finder where it is
    /// open, else that of the browser.
    pub fn active_preview_entry(&self) -> (r: Option<Entry>)
        requires
            self.wf(),
        ensures
            entry_view(r) == match self@.finder {
                Some(finder) => if finder.preview_visible && finder.focus() is Some {
                    Some(entry_of(finder.focus()->0))
                } else {
                    None
                },
                None => self@.browser_entry,
            },
    {
        if let Some(overlay) = &self.overlays.duplicates {
            if overlay.preview_visible {
                return self.duplicate_focused_entry();
            }
            return None;
        }
        match &self.navigation.selected_entry {
            Some(entry) => Some(entry.copy()),
            None => None,
        }
    }

    /// Brings the preview in line with the focus.
    pub fn refresh_duplicate_preview(&mut self)
        requires
            old(self).wf(),
        ensures
            final(self).wf(),
            final(self)@ == previewed(old(self)@),
    {
        let path: FilePath = match self.duplicate_focused_path() {
            Some(path) => path,
            None => return,
        };
        let ghost before = self@;
        let mut asked: bool = false;
        if let Some(overlay) = &mut self.overlays.duplicates {
            let known: bool = match &overlay.preview_path {
                Some(shown) => shown.same_path(&path),
                None => false,
            };
            if overlay.preview_visible && !known {
                overlay.preview_path = Some(path);
                asked = true;
            }
        }
        if asked {
            assert(self@.effects == before.effects);
            self.request(Effect::RefreshPreview);
        }
    }

    /// Keeps the focus among the files and in sight; says whether anything
    /// moved.
    pub fn sync_duplicate_scroll(&mut self) -> (r: bool)
        requires
            old(self).wf(),
        ensures
            final(self).wf(),
            final(self)@ == synced(old(self)@),
            r == (old(self)@.finder is Some && {
                let before = old(self)@.finder->0;
                let after = final(self)@.finder->0;
                after.selected != before.selected || after.scroll != before.scroll
            }),
    {
        let visible: usize = self.input.frame_state.duplicate_rows_visible;
        match &mut self.overlays.duplicates {
            None => false,
            Some(overlay) => overlay.sync(visible),
        }
    }

    /// Moves the focus to a file, or to the last one where there are fewer.
    pub fn set_duplicate_selection(&mut self, index: usize)
        requires
            old(self).wf(),
        ensures
            final(self).wf(),
            final(self)@ == with_focus(old(self)@, index as int),
    {
        let ghost before = self@;
        let count: usize = self.duplicate_file_count();
        let last: usize = if count > 0 {
            count - 1
        } else {
            0
        };
        if let Some(overlay) = &mut self.overlays.duplicates {
            overlay.selected = if index < last {
                index
            } else {
                last
            };
        }
        proof {
            if let Some(finder) = before.finder {
                let focus = smaller(index as int, larger(finder.count() - 1, 0));
                assert(self@ =~= with_finder(before, FinderView { selected: focus, ..finder }));
            } else {
                assert(self@ =~= before);
            }
        }
        let _ = self.sync_duplicate_scroll();
        self.refresh_duplicate_preview();
    }

    /// Moves the focus by a number of files, up where it is negative.
    pub fn move_duplicate_selection(&mut self, delta: isize)
        requires
            old(self).wf(),
        ensures
            final(self).wf(),
            final(self)@ == with_focus_moved(old(self)@, delta as int),
    {
        self.move_focus(delta as i128);
    }

    fn move_focus(&mut self, delta: i128)
        requires
            old(self).wf(),
            -0x7fff_ffff_ffff_ffff_8000_0000_0000_0000 <= delta
                <= 0x7fff_ffff_ffff_fffe_8000_0000_0000_0001,
        ensures
            final(self).wf(),
            final(self)@ == with_focus_moved(old(self)@, delta as int),
    {
        let count: usize = self.duplicate_file_count();
        if count == 0 {
            return;
        }
        let current: usize = match &self.overlays.duplicates {
            Some(overlay) => overlay.selected,
            None => 0,
        };
        let target: i128 = current as i128 + delta;
        let last: usize = count - 1;
        let index: usize = if target < 0 {
            0
        } else if target > last as i128 {
            last
        } else {
            target as usize
        };
        self.set_duplicate_selection(index);
    }

    /// Moves the focus by as many files as are shown at once, up where the
    /// direction is negative.
    pub fn page_duplicate_selection(&mut self, direction: isize)
        requires
            old(self).wf(),
        ensures
            final(self).wf(),
            final(self)@ == with_focus_moved(
                old(self)@,
                direction * larger(old(self)@.rows_visible, 1),
            ),
    {
        let visible: usize = if self.input.frame_state.duplicate_rows_visible > 1 {
            self.input.frame_state.duplicate_rows_visible
        } else {
            1
        };
        assert(-0x7fff_ffff_ffff_ffff_8000_0000_0000_0000 <= direction * visible
            <= 0x7fff_ffff_ffff_fffe_8000_0000_0000_0001) by (nonlinear_arith)
            requires
                -0x8000_0000_0000_0000 <= direction <= 0x7fff_ffff_ffff_ffff,
                0 <= visible <= 0xffff_ffff_ffff_ffff,
        ;
        self.move_focus(direction as i128 * visible as i128);
    }

    /// Opens the finder for the browser's directory.
    pub fn open_duplicate_finder(&mut self, pool: &mut DuplicateState)
        requires
            old(self).wf(),
            old(pool).wf(),
        ensures
            final(self).wf(),
            final(pool).wf(),
            final(pool)@ == submitted(old(pool)@, scan_request(old(self)@)),
            final(self)@ == opened(old(self)@, old(pool)@.closed),
    {
        let ghost before = self@;
        self.navigation.selected_paths.clear();
        self.request(Effect::ClearImageGeometry);
        self.request(Effect::ClearWheelScroll);
        self.overlays.help = false;
        self.overlays.search = false;
        self.advance_token();
        self.overlays.duplicates = Some(
            DuplicateFinderOverlay::new(self.navigation.cwd.copy(), self.navigation.platform),
        );
        let request: DuplicateScanRequest = DuplicateScanRequest {
            token: self.jobs.duplicate_token,
            cwd: self.navigation.cwd.copy(),
            show_hidden: self.navigation.show_hidden,
            fingerprint: self.navigation.fingerprint,
        };
        let taken: bool = pool.submit(request);
        if !taken {
            if let Some(overlay) = &mut self.overlays.duplicates {
                overlay.loading = false;
                overlay.error = Some(String::from_str("Duplicate worker unavailable"));
            }
        }
        assert(self@ =~= opened(before, !taken));
        self.refresh_duplicate_preview();
    }

    fn advance_token(&mut self)
        requires
            old(self).wf(),
        ensures
            final(self).wf(),
            final(self)@ == (AppView { token: next_token(old(self)@.token), ..old(self)@ }),
    {
        self.jobs.duplicate_token = if self.jobs.duplicate_token < u64::MAX {
            self.jobs.duplicate_token + 1
        } else {
            0
        };
    }

    /// Closes the finder and gives up its search.
    pub fn close_duplicate_finder(&mut self, pool: &mut DuplicateState)
        requires
            old(self).wf(),
            old(pool).wf(),
        ensures
            final(self).wf(),
            final(pool).wf(),
            final(pool)@ == all_canceled(old(pool)@),
            final(self)@ == closed(old(self)@),
    {
        self.request(Effect::ClearImageGeometry);
        self.advance_token();
        pool.cancel_all();
        self.overlays.duplicates = None;
        self.request(Effect::RefreshPreview);
        self.request(Effect::ClearWheelScroll);
    }

    /// Takes in groups that a search has found so far.
    pub fn apply_duplicate_batch(&mut self, batch: DuplicateScanBatch)
        requires
            old(self).wf(),
            old(self)@.finder is Some ==> flat_files(
                old(self)@.finder->0.groups + groups_view(batch.groups@),
            ).len() <= usize::MAX,
        ensures
            final(self).wf(),
            final(self)@ == with_batch(old(self)@, groups_view(batch.groups@), batch.stats),
    {
        let ghost before = self@;
        let ghost added = groups_view(batch.groups@);
        let had_files: bool = self.duplicate_file_count() > 0;
        if let Some(overlay) = &mut self.overlays.duplicates {
            let mut groups: Vec<DuplicateGroup> = batch.groups;
            let ghost old_groups = overlay.groups@;
            let ghost more = groups@;
            overlay.groups.append(&mut groups);
            overlay.stats = batch.stats;
            overlay.error = None;
            assert(groups_view(overlay.groups@) =~= groups_view(old_groups) + groups_view(more));
        }
        let became_non_empty: bool = !had_files && self.duplicate_file_count() > 0;
        if became_non_empty {
            self.request(Effect::ClearImageGeometry);
        }
        let _ = self.sync_duplicate_scroll();
        if became_non_empty {
            self.refresh_duplicate_preview();
        }
    }

    /// Takes in what a search has come to.
    pub fn apply_duplicate_result(&mut self, result: Result<DuplicateScanResult, String>)
        requires
            old(self).wf(),
            result is Ok ==> flat_files(groups_view(result->Ok_0.groups@)).len() <= usize::MAX,
        ensures
            final(self).wf(),
            final(self)@ == with_result(old(self)@, result_view(result)),
    {
        let ghost before = self@;
        let had_files: bool = self.duplicate_file_count() > 0;
        if let Some(overlay) = &mut self.overlays.duplicates {
            overlay.loading = false;
            match result {
                Ok(result) => {
                    overlay.groups = result.groups;
                    overlay.stats = result.stats;
                    overlay.selected = 0;
                    overlay.scroll = 0;
                    overlay.error = None;
                },
                Err(error) => {
                    overlay.groups = Vec::new();
                    overlay.stats = DuplicateScanStats::default();
                    overlay.error = Some(error);
                    assert(groups_view(overlay.groups@) =~= Seq::<DuplicateGroupView>::empty());
                },
            }
        }
        if had_files != (self.duplicate_file_count() > 0) {
            self.request(Effect::ClearImageGeometry);
        }
        let _ = self.sync_duplicate_scroll();
        self.refresh_duplicate_preview();
    }

    /// Shows the preview or takes it away.
    pub fn toggle_duplicate_preview(&mut self)
        requires
            old(self).wf(),
        ensures
            final(self).wf(),
            final(self)@ == with_preview_toggled(old(self)@),
    {
        self.request(Effect::ClearImageGeometry);
        let mut hidden: bool = false;
        if let Some(overlay) = &mut self.overlays.duplicates {
            overlay.preview_visible = !overlay.preview_visible;
            hidden = !overlay.preview_visible;
            if hidden {
                overlay.preview_path = None;
            }
        }
        if hidden {
            self.request(Effect::ClearImageActivation);
        }
        self.refresh_duplicate_preview();
    }
}

} // verus!
