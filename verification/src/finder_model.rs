//! What the duplicate finder shows.

use crate::duplicates::{
    groups_view, no_stats, DuplicateFile, DuplicateFileView, DuplicateGroup, DuplicateGroupView,
    DuplicateScanStats,
};
use crate::path::{components, file_name_of, parent_of, relative_to, shown_text, FilePath};
use crate::path_set::PathSet;
use crate::platform::Platform;
use crate::text::{forward_slashes, with_forward_slashes};
use vstd::prelude::*;
use vstd::string::StringExecFns;
use vstd::utf8::{decode_utf8, valid_utf8};

verus! {

/// The files of all groups in a row.
pub open spec fn flat_files(groups: Seq<DuplicateGroupView>) -> Seq<DuplicateFileView>
    decreases groups.len(),
{
    if groups.len() == 0 {
        Seq::empty()
    } else {
        flat_files(groups.drop_last()) + groups.last().files
    }
}

/// A file with the rank of its group, and whether it is the first of it.
pub ghost struct FlatRow {
    pub rank: int,
    pub first: bool,
    pub file: DuplicateFileView,
}

/// The files of all groups in a row, with their groups' ranks from one on.
pub open spec fn flat_rows(groups: Seq<DuplicateGroupView>) -> Seq<FlatRow>
    decreases groups.len(),
{
    if groups.len() == 0 {
        Seq::empty()
    } else {
        flat_rows(groups.drop_last()) + Seq::new(
            groups.last().files.len(),
            |k: int|
                FlatRow {
                    rank: groups.len() as int,
                    first: k == 0,
                    file: groups.last().files[k],
                },
        )
    }
}

proof fn lemma_flat_take(groups: Seq<DuplicateGroupView>, i: int)
    requires
        0 <= i < groups.len(),
    ensures
        flat_files(groups.take(i + 1)) == flat_files(groups.take(i)) + groups[i].files,
        flat_rows(groups.take(i + 1)) == flat_rows(groups.take(i)) + Seq::new(
            groups[i].files.len(),
            |k: int| FlatRow { rank: i + 1, first: k == 0, file: groups[i].files[k] },
        ),
{
    let longer = groups.take(i + 1);
    assert(longer.drop_last() =~= groups.take(i));
    assert(longer.last() == groups[i]);
    assert(flat_rows(longer) =~= flat_rows(groups.take(i)) + Seq::new(
        groups[i].files.len(),
        |k: int| FlatRow { rank: i + 1, first: k == 0, file: groups[i].files[k] },
    ));
}

/// Groups further on do not change the files of the first ones.
pub proof fn lemma_flat_prefix(groups: Seq<DuplicateGroupView>, i: int)
    requires
        0 <= i <= groups.len(),
    ensures
        flat_files(groups.take(i)).len() <= flat_files(groups).len(),
        forall|k: int|
            0 <= k < flat_files(groups.take(i)).len() ==> #[trigger] flat_files(groups.take(i))[k]
                == flat_files(groups)[k],
        flat_rows(groups.take(i)).len() <= flat_rows(groups).len(),
        forall|k: int|
            0 <= k < flat_rows(groups.take(i)).len() ==> #[trigger] flat_rows(groups.take(i))[k]
                == flat_rows(groups)[k],
    decreases groups.len() - i,
{
    if i < groups.len() {
        lemma_flat_prefix(groups, i + 1);
        lemma_flat_take(groups, i);
        let shorter = flat_files(groups.take(i));
        let longer = flat_files(groups.take(i + 1));
        assert forall|k: int| 0 <= k < shorter.len() implies #[trigger] shorter[k] == flat_files(
            groups,
        )[k] by {
            assert(longer[k] == shorter[k]);
        }
        let fewer = flat_rows(groups.take(i));
        let more = flat_rows(groups.take(i + 1));
        assert forall|k: int| 0 <= k < fewer.len() implies #[trigger] fewer[k] == flat_rows(
            groups,
        )[k] by {
            assert(more[k] == fewer[k]);
        }
    } else {
        assert(groups.take(i) =~= groups);
    }
}

/// There is a row for every file.
pub proof fn lemma_rows_are_files(groups: Seq<DuplicateGroupView>)
    ensures
        flat_rows(groups).len() == flat_files(groups).len(),
        forall|k: int|
            0 <= k < flat_rows(groups).len() ==> (#[trigger] flat_rows(groups)[k]).file
                == flat_files(groups)[k],
    decreases groups.len(),
{
    if groups.len() > 0 {
        lemma_rows_are_files(groups.drop_last());
        let fewer = flat_rows(groups.drop_last());
        assert forall|k: int| 0 <= k < flat_rows(groups).len() implies (
        #[trigger] flat_rows(groups)[k]).file == flat_files(groups)[k] by {
            if k < fewer.len() {
                assert(flat_rows(groups)[k] == fewer[k]);
            }
        }
    }
}

/// How many files groups hold.
pub fn duplicate_group_file_count(groups: &Vec<DuplicateGroup>) -> (r: usize)
    requires
        flat_files(groups_view(groups@)).len() <= usize::MAX,
    ensures
        r == flat_files(groups_view(groups@)).len(),
{
    let ghost all = groups_view(groups@);
    let mut total: usize = 0;
    let mut i: usize = 0;
    assert(all.take(0) =~= Seq::<DuplicateGroupView>::empty());
    while i < groups.len()
        invariant
            i <= groups@.len(),
            all == groups_view(groups@),
            flat_files(all).len() <= usize::MAX,
            total == flat_files(all.take(i as int)).len(),
        decreases groups@.len() - i,
    {
        proof {
            lemma_flat_take(all, i as int);
            lemma_flat_prefix(all, i + 1);
            assert(all[i as int] == groups@[i as int]@);
        }
        total = total + groups[i].files.len();
        i = i + 1;
    }
    assert(all.take(i as int) =~= all);
    total
}

/// The file in a place, counted through all groups.
pub fn duplicate_file_at(groups: &Vec<DuplicateGroup>, index: usize) -> (r: Option<&DuplicateFile>)
    ensures
        match r {
            Some(file) => index < flat_files(groups_view(groups@)).len() && file@ == flat_files(
                groups_view(groups@),
            )[index as int],
            None => index >= flat_files(groups_view(groups@)).len(),
        },
{
    let ghost all = groups_view(groups@);
    let mut remaining: usize = index;
    let mut i: usize = 0;
    assert(all.take(0) =~= Seq::<DuplicateGroupView>::empty());
    while i < groups.len()
        invariant
            i <= groups@.len(),
            all == groups_view(groups@),
            index == flat_files(all.take(i as int)).len() + remaining,
        decreases groups@.len() - i,
    {
        proof {
            lemma_flat_take(all, i as int);
            lemma_flat_prefix(all, i + 1);
            assert(all[i as int] == groups@[i as int]@);
        }
        if remaining < groups[i].files.len() {
            proof {
                let longer = flat_files(all.take(i + 1));
                assert(longer[index as int] == all[i as int].files[remaining as int]);
                assert(all[i as int].files[remaining as int]
                    == groups@[i as int].files@[remaining as int]@);
            }
            return Some(&groups[i].files[remaining]);
        }
        remaining = remaining - groups[i].files.len();
        i = i + 1;
    }
    assert(all.take(i as int) =~= all);
    None
}

/// Where a file lies, as the finder shows it: its directory below the one that
/// was searched, or in full where it lies elsewhere.
pub open spec fn parent_label(path: Seq<u8>, cwd: Seq<u8>, platform: Platform) -> Seq<char> {
    match parent_of(path) {
        None => Seq::empty(),
        Some(parent) => match relative_to(parent, cwd) {
            Some(below) => {
                let label = forward_slashes(shown_text(below, platform));
                if label.len() == 0 {
                    "."@
                } else {
                    label
                }
            },
            None => shown_text(parent, platform),
        },
    }
}

pub fn duplicate_parent_label(path: &FilePath, cwd: &FilePath, platform: Platform) -> (r: String)
    ensures
        r@ == parent_label(path@, cwd@, platform),
{
    match path.parent() {
        None => String::new(),
        Some(parent) => match parent.strip_prefix(cwd) {
            Some(below) => {
                let shown: String = below.display(platform);
                let label: String = with_forward_slashes(shown.as_str());
                if label.as_str().is_empty() {
                    String::from_str(".")
                } else {
                    label
                }
            },
            None => parent.display(platform),
        },
    }
}

/// The name under which a file is shown: its own where it is text, else the
/// whole path.
pub open spec fn shown_name(path: Seq<u8>, platform: Platform) -> Seq<char> {
    match file_name_of(path) {
        Some(name) => if valid_utf8(name) {
            decode_utf8(name)
        } else {
            shown_text(path, platform)
        },
        None => shown_text(path, platform),
    }
}

pub fn name_to_show(path: &FilePath, platform: Platform) -> (r: String)
    ensures
        r@ == shown_name(path@, platform),
{
    match path.file_name_text() {
        Some(name) => name,
        None => path.display(platform),
    }
}

/// A path below a directory as text, in full where it lies elsewhere.
pub open spec fn relative_label(path: Seq<u8>, cwd: Seq<u8>, platform: Platform) -> Seq<char> {
    forward_slashes(
        shown_text(
            match relative_to(path, cwd) {
                Some(below) => below,
                None => path,
            },
            platform,
        ),
    )
}

pub fn label_below(path: &FilePath, cwd: &FilePath, platform: Platform) -> (r: String)
    ensures
        r@ == relative_label(path@, cwd@, platform),
{
    let shown: String = match path.strip_prefix(cwd) {
        Some(below) => below.display(platform),
        None => path.display(platform),
    };
    with_forward_slashes(shown.as_str())
}

/// A line of the finder.
#[derive(Debug)]
pub struct DuplicateRow {
    pub index: usize,
    pub group_rank: usize,
    pub group_first: bool,
    pub path: FilePath,
    pub name: String,
    pub parent: String,
    pub size: u64,
    pub selected: bool,
    pub focused: bool,
}

#[verifier::ext_equal]
pub ghost struct DuplicateRowView {
    pub index: int,
    pub group_rank: int,
    pub group_first: bool,
    pub path: Seq<u8>,
    pub name: Seq<char>,
    pub parent: Seq<char>,
    pub size: u64,
    pub selected: bool,
    pub focused: bool,
}

impl View for DuplicateRow {
    type V = DuplicateRowView;

    open spec fn view(&self) -> DuplicateRowView {
        DuplicateRowView {
            index: self.index as int,
            group_rank: self.group_rank as int,
            group_first: self.group_first,
            path: self.path@,
            name: self.name@,
            parent: self.parent@,
            size: self.size,
            selected: self.selected,
            focused: self.focused,
        }
    }
}

pub open spec fn rows_view(rows: Seq<DuplicateRow>) -> Seq<DuplicateRowView> {
    rows.map_values(|r: DuplicateRow| r@)
}

/// The finder on top of the browser.
#[derive(Debug)]
pub struct DuplicateFinderOverlay {
    pub cwd: FilePath,
    /// Whose paths are shown.
    pub platform: Platform,
    pub groups: Vec<DuplicateGroup>,
    pub stats: DuplicateScanStats,
    /// The file that has the focus, counted through all groups.
    pub selected: usize,
    /// The first file that is shown.
    pub scroll: usize,
    pub selected_paths: PathSet,
    pub loading: bool,
    pub error: Option<String>,
    pub preview_visible: bool,
    /// The file whose preview was asked for last.
    pub preview_path: Option<FilePath>,
}

#[verifier::ext_equal]
pub ghost struct FinderView {
    pub cwd: Seq<u8>,
    pub platform: Platform,
    pub groups: Seq<DuplicateGroupView>,
    pub stats: DuplicateScanStats,
    pub selected: int,
    pub scroll: int,
    pub selected_paths: Map<Seq<Seq<u8>>, Seq<u8>>,
    pub loading: bool,
    pub error: Option<Seq<char>>,
    pub preview_visible: bool,
    pub preview_path: Option<Seq<u8>>,
}

impl View for DuplicateFinderOverlay {
    type V = FinderView;

    open spec fn view(&self) -> FinderView {
        FinderView {
            cwd: self.cwd@,
            platform: self.platform,
            groups: groups_view(self.groups@),
            stats: self.stats,
            selected: self.selected as int,
            scroll: self.scroll as int,
            selected_paths: self.selected_paths@,
            loading: self.loading,
            error: match self.error {
                Some(error) => Some(error@),
                None => None,
            },
            preview_visible: self.preview_visible,
            preview_path: match self.preview_path {
                Some(path) => Some(path@),
                None => None,
            },
        }
    }
}

impl FinderView {
    pub open spec fn files(self) -> Seq<DuplicateFileView> {
        flat_files(self.groups)
    }

    pub open spec fn count(self) -> int {
        self.files().len() as int
    }

    /// The file that has the focus.
    pub open spec fn focus(self) -> Option<DuplicateFileView> {
        if 0 <= self.selected < self.count() {
            Some(self.files()[self.selected])
        } else {
            None
        }
    }

    /// The line for a file.
    pub open spec fn row(self, index: int) -> DuplicateRowView {
        let row = flat_rows(self.groups)[index];
        DuplicateRowView {
            index,
            group_rank: row.rank,
            group_first: row.first,
            path: row.file.path,
            name: row.file.name,
            parent: parent_label(row.file.path, self.cwd, self.platform),
            size: row.file.size,
            selected: self.selected_paths.contains_key(components(row.file.path)),
            focused: index == self.selected,
        }
    }

    /// The lines from the first that is shown on.
    pub open spec fn rows(self, max_rows: int) -> Seq<DuplicateRowView> {
        let n = if self.scroll >= self.count() {
            0
        } else if self.scroll + max_rows <= self.count() {
            max_rows
        } else {
            self.count() - self.scroll
        };
        Seq::new(n as nat, |k: int| self.row(self.scroll + k))
    }
}

impl DuplicateFinderOverlay {
    /// The files can be counted.
    pub open spec fn wf(&self) -> bool {
        &&& self@.count() <= usize::MAX
        &&& self.selected_paths.wf()
    }

    /// The finder for a directory, before anything was found.
    pub fn new(cwd: FilePath, platform: Platform) -> (r: DuplicateFinderOverlay)
        ensures
            r.wf(),
            r@ == fresh_finder(cwd@, platform),
    {
        let r: DuplicateFinderOverlay = DuplicateFinderOverlay {
            cwd,
            platform,
            groups: Vec::new(),
            stats: DuplicateScanStats::default(),
            selected: 0,
            scroll: 0,
            selected_paths: PathSet::new(),
            loading: true,
            error: None,
            preview_visible: true,
            preview_path: None,
        };
        assert(r@.groups =~= Seq::<DuplicateGroupView>::empty());
        r
    }

    /// The lines to show.
    pub fn rows(&self, max_rows: usize) -> (r: Vec<DuplicateRow>)
        requires
            self.wf(),
        ensures
            rows_view(r@) == self@.rows(max_rows as int),
    {
        let ghost all = groups_view(self.groups@);
        let ghost flat = flat_rows(all);
        proof {
            lemma_rows_are_files(all);
        }
        let count: usize = duplicate_group_file_count(&self.groups);
        let mut rows: Vec<DuplicateRow> = Vec::new();
        if max_rows == 0 || self.scroll >= count {
            assert(rows_view(rows@) =~= self@.rows(max_rows as int));
            return rows;
        }
        let shown: usize = if max_rows < count - self.scroll {
            max_rows
        } else {
            count - self.scroll
        };
        let end: usize = self.scroll + shown;
        let mut index: usize = 0;
        let mut i: usize = 0;
        assert(all.take(0) =~= Seq::<DuplicateGroupView>::empty());
        while i < self.groups.len()
            invariant
                self.wf(),
                all == groups_view(self.groups@),
                flat == flat_rows(all),
                flat.len() == count,
                i <= self.groups@.len(),
                index == flat_rows(all.take(i as int)).len(),
                index <= end,
                self.scroll < end <= count,
                end - self.scroll == shown,
                rows@.len() == if index > self.scroll {
                    index - self.scroll
                } else {
                    0
                },
                forall|k: int|
                    0 <= k < rows@.len() ==> (#[trigger] rows@[k])@ == self@.row(self.scroll + k),
                self@.rows(max_rows as int).len() == shown,
            decreases self.groups@.len() - i,
        {
            let group: &DuplicateGroup = &self.groups[i];
            proof {
                lemma_flat_take(all, i as int);
                lemma_flat_prefix(all, i + 1);
                assert(all[i as int] == group@);
            }
            let rank: usize = i + 1;
            let mut j: usize = 0;
            while j < group.files.len()
                invariant
                    self.wf(),
                    all == groups_view(self.groups@),
                    flat == flat_rows(all),
                    flat.len() == count,
                    i < self.groups@.len(),
                    rank == i + 1,
                    *group == self.groups@[i as int],
                    all[i as int] == group@,
                    j <= group.files@.len(),
                    index == flat_rows(all.take(i as int)).len() + j,
                    index <= end,
                    self.scroll < end <= count,
                    end - self.scroll == shown,
                    flat_rows(all.take(i + 1)).len() == flat_rows(all.take(i as int)).len()
                        + group.files@.len(),
                    forall|k: int|
                        0 <= k < flat_rows(all.take(i + 1)).len() ==> #[trigger] flat_rows(
                            all.take(i + 1),
                        )[k] == flat[k],
                    flat_rows(all.take(i + 1)) == flat_rows(all.take(i as int)) + Seq::new(
                        group@.files.len(),
                        |k: int| FlatRow { rank: i + 1, first: k == 0, file: group@.files[k] },
                    ),
                    rows@.len() == if index > self.scroll {
                        index - self.scroll
                    } else {
                        0
                    },
                    forall|k: int|
                        0 <= k < rows@.len() ==> (#[trigger] rows@[k])@ == self@.row(
                            self.scroll + k,
                        ),
                    self@.rows(max_rows as int).len() == shown,
                decreases group.files@.len() - j,
            {
                if index == end {
                    proof {
                        assert(rows_view(rows@) =~= self@.rows(max_rows as int));
                    }
                    return rows;
                }
                let file: &DuplicateFile = &group.files[j];
                proof {
                    assert(flat_rows(all.take(i + 1))[index as int] == (FlatRow {
                        rank: i + 1,
                        first: j == 0,
                        file: group@.files[j as int],
                    }));
                    assert(group@.files[j as int] == file@);
                    assert(flat[index as int] == flat_rows(all.take(i + 1))[index as int]);
                }
                if index >= self.scroll {
                    let row: DuplicateRow = DuplicateRow {
                        index,
                        group_rank: rank,
                        group_first: j == 0,
                        path: file.path.copy(),
                        name: file.name.clone(),
                        parent: duplicate_parent_label(&file.path, &self.cwd, self.platform),
                        size: file.size,
                        selected: self.selected_paths.contains(&file.path),
                        focused: index == self.selected,
                    };
                    assert(row@ == self@.row(index as int));
                    rows.push(row);
                }
                index = index + 1;
                j = j + 1;
            }
            i = i + 1;
        }
        proof {
            assert(all.take(i as int) =~= all);
            assert(rows_view(rows@) =~= self@.rows(max_rows as int));
        }
        rows
    }
}

/// The finder before anything was found.
pub open spec fn fresh_finder(cwd: Seq<u8>, platform: Platform) -> FinderView {
    FinderView {
        cwd,
        platform,
        groups: Seq::empty(),
        stats: no_stats(),
        selected: 0,
        scroll: 0,
        selected_paths: Map::empty(),
        loading: true,
        error: None,
        preview_visible: true,
        preview_path: None,
    }
}

} // verus!
