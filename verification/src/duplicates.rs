//! Files with the same content: what is known of them and in which order they
//! are shown and examined.


use crate::natural::{
    lemma_natural_order_antisymmetric, lemma_natural_order_transitive, natural_compare,
    natural_order,
};
use crate::order::{
    ascending, bytes_order, compare_bytes, compare_numbers, first_difference, is_stable_sort,
    lemma_bytes_order_antisymmetric, lemma_bytes_order_transitive, stable_sort, Order, SortItem,
};
use crate::path::{components, FilePath};
use crate::text::{lowercase, lowercase_text, same_text};
use vstd::prelude::*;
use vstd::utf8::encode_utf8;

verus! {

pub const SMALL_FILE_FULL_HASH_LIMIT: u64 = 262144;

pub const MEDIUM_FILE_LIMIT: u64 = 67108864;

pub const LARGE_FILE_LIMIT: u64 = 536870912;

/// A point in time, counted from the start of 1970.
#[derive(Clone, Copy, PartialEq, Eq, Structural, Debug)]
pub struct Timestamp {
    pub secs: i64,
    pub nanos: u32,
}

/// When a file's record last changed, from the seconds and nanoseconds that the
/// system gives; a time before 1970 counts as unknown.
pub fn metadata_changed_time(secs: i64, nanos: i64) -> (r: Option<Timestamp>)
    ensures
        r is Some <==> secs >= 0 && nanos >= 0 && secs + nanos / 1000000000 <= i64::MAX,
        r is Some ==> r->0.secs == secs + nanos / 1000000000 && r->0.nanos == nanos % 1000000000,
{
    if secs < 0 || nanos < 0 {
        return None;
    }
    let carried: i64 = nanos / 1000000000;
    match secs.checked_add(carried) {
        Some(total) => Some(Timestamp { secs: total, nanos: (nanos % 1000000000) as u32 }),
        None => None,
    }
}

/// A file that has duplicates.
#[derive(Debug)]
pub struct DuplicateFile {
    pub path: FilePath,
    pub name: String,
    pub relative: String,
    pub size: u64,
    pub modified: Option<Timestamp>,
}

#[verifier::ext_equal]
pub ghost struct DuplicateFileView {
    pub path: Seq<u8>,
    pub name: Seq<char>,
    pub relative: Seq<char>,
    pub size: u64,
    pub modified: Option<Timestamp>,
}

impl View for DuplicateFile {
    type V = DuplicateFileView;

    open spec fn view(&self) -> DuplicateFileView {
        DuplicateFileView {
            path: self.path@,
            name: self.name@,
            relative: self.relative@,
            size: self.size,
            modified: self.modified,
        }
    }
}

impl DuplicateFile {
    pub fn copy(&self) -> (r: DuplicateFile)
        ensures
            r@ == self@,
    {
        DuplicateFile {
            path: self.path.copy(),
            name: self.name.clone(),
            relative: self.relative.clone(),
            size: self.size,
            modified: self.modified,
        }
    }
}

pub open spec fn files_view(files: Seq<DuplicateFile>) -> Seq<DuplicateFileView> {
    files.map_values(|f: DuplicateFile| f@)
}

/// Copies a list of files.
pub fn copy_files(files: &Vec<DuplicateFile>) -> (r: Vec<DuplicateFile>)
    ensures
        files_view(r@) == files_view(files@),
{
    let mut out: Vec<DuplicateFile> = Vec::new();
    let mut i: usize = 0;
    while i < files.len()
        invariant
            i <= files@.len(),
            out@.len() == i,
            forall|j: int| 0 <= j < i ==> (#[trigger] out@[j])@ == files@[j]@,
        decreases files@.len() - i,
    {
        out.push(files[i].copy());
        i = i + 1;
    }
    assert(files_view(out@) =~= files_view(files@));
    out
}

/// Files with the same content.
#[derive(Debug)]
pub struct DuplicateGroup {
    pub id: u64,
    pub size: u64,
    pub files: Vec<DuplicateFile>,
}

#[verifier::ext_equal]
pub ghost struct DuplicateGroupView {
    pub id: u64,
    pub size: u64,
    pub files: Seq<DuplicateFileView>,
}

impl View for DuplicateGroup {
    type V = DuplicateGroupView;

    open spec fn view(&self) -> DuplicateGroupView {
        DuplicateGroupView { id: self.id, size: self.size, files: files_view(self.files@) }
    }
}

/// A product, or the largest number where it does not fit.
pub open spec fn bounded_product(a: int, b: int) -> u64 {
    if a * b <= u64::MAX {
        (a * b) as u64
    } else {
        u64::MAX
    }
}

/// One less, but not below zero.
pub open spec fn one_less(n: nat) -> nat {
    if n == 0 {
        0
    } else {
        (n - 1) as nat
    }
}

/// What could be freed by keeping one file of a group.
pub open spec fn reclaimable(group: DuplicateGroupView) -> u64 {
    bounded_product(group.size as int, one_less(group.files.len()) as int)
}

/// What can be freed and one copy that is kept are together the size of all copies,
/// as far as the product is a number of 64 bits; beyond that it is the largest.
pub proof fn lemma_one_copy_is_kept(group: DuplicateGroupView)
    ensures
        group.files.len() == 0 ==> reclaimable(group) == 0,
        group.files.len() > 0 && group.size * (group.files.len() - 1) <= u64::MAX ==> reclaimable(
            group,
        ) == group.size * (group.files.len() - 1) && reclaimable(group) + group.size == group.size
            * group.files.len(),
        group.files.len() > 0 && group.size * (group.files.len() - 1) > u64::MAX ==> reclaimable(
            group,
        ) == u64::MAX,
{
    let size = group.size as int;
    let count = group.files.len() as int;
    assert(size * (count - 1) + size == size * count) by (nonlinear_arith);
    assert(size * 0 == 0) by (nonlinear_arith);
    assert(count >= 1 ==> size * (count - 1) >= 0) by (nonlinear_arith)
        requires
            size >= 0,
    ;
}

/// Multiplies, staying at the largest number where the product does not fit.
pub fn saturating_product(a: u64, b: u64) -> (r: u64)
    ensures
        r == bounded_product(a as int, b as int),
{
    match a.checked_mul(b) {
        Some(product) => product,
        None => u64::MAX,
    }
}

fn count_less_one(n: usize) -> (r: u64)
    ensures
        r == one_less(n as nat),
{
    if n == 0 {
        0
    } else {
        (n - 1) as u64
    }
}

impl DuplicateGroup {
    pub fn duplicate_bytes(&self) -> (r: u64)
        ensures
            r == reclaimable(self@),
            self.files@.len() == 0 ==> r == 0,
            self.files@.len() > 0 && self.size * (self.files@.len() - 1) <= u64::MAX ==> r
                + self.size == self.size * self.files@.len(),
            self.files@.len() > 0 && self.size * (self.files@.len() - 1) > u64::MAX ==> r
                == u64::MAX,
    {
        proof {
            lemma_one_copy_is_kept(self@);
        }
        saturating_product(self.size, count_less_one(self.files.len()))
    }

    pub fn copy(&self) -> (r: DuplicateGroup)
        ensures
            r@ == self@,
    {
        DuplicateGroup { id: self.id, size: self.size, files: copy_files(&self.files) }
    }
}

pub open spec fn groups_view(groups: Seq<DuplicateGroup>) -> Seq<DuplicateGroupView> {
    groups.map_values(|g: DuplicateGroup| g@)
}

/// Texts by their UTF-8 bytes.
pub open spec fn text_order(a: Seq<char>, b: Seq<char>) -> Order {
    bytes_order(encode_utf8(a), encode_utf8(b))
}

/// The relative paths of first files; a group without files comes first.
pub open spec fn first_file_order(
    a: Seq<DuplicateFileView>,
    b: Seq<DuplicateFileView>,
) -> Order {
    if a.len() == 0 || b.len() == 0 {
        ascending(
            if a.len() == 0 {
                0
            } else {
                1
            },
            if b.len() == 0 {
                0
            } else {
                1
            },
        )
    } else {
        text_order(a[0].relative, b[0].relative)
    }
}

/// Groups of large files first; among files of one size the group that could
/// free most, then by the first file's relative path.
pub open spec fn group_order(a: DuplicateGroupView, b: DuplicateGroupView) -> Order {
    first_difference(
        ascending(b.size as int, a.size as int),
        first_difference(
            ascending(reclaimable(b) as int, reclaimable(a) as int),
            first_file_order(a.files, b.files),
        ),
    )
}

pub proof fn lemma_group_order_antisymmetric(a: DuplicateGroupView, b: DuplicateGroupView)
    ensures
        group_order(a, b) == Order::Less <==> group_order(b, a) == Order::Greater,
        group_order(a, b) == Order::Equal <==> group_order(b, a) == Order::Equal,
{
    if a.files.len() > 0 && b.files.len() > 0 {
        let x = encode_utf8(a.files[0].relative);
        let y = encode_utf8(b.files[0].relative);
        lemma_bytes_order_antisymmetric(x, y);
        lemma_bytes_order_antisymmetric(y, x);
    }
}

pub proof fn lemma_group_order_transitive(
    a: DuplicateGroupView,
    b: DuplicateGroupView,
    c: DuplicateGroupView,
)
    requires
        group_order(a, b) != Order::Greater,
        group_order(b, c) != Order::Greater,
    ensures
        group_order(a, c) != Order::Greater,
{
    if a.files.len() > 0 && b.files.len() > 0 && c.files.len() > 0 {
        let x = encode_utf8(a.files[0].relative);
        let y = encode_utf8(b.files[0].relative);
        let z = encode_utf8(c.files[0].relative);
        if bytes_order(x, y) != Order::Greater && bytes_order(y, z) != Order::Greater {
            lemma_bytes_order_transitive(x, y, z);
        }
    }
}

fn either(first: Order, second: Order) -> (r: Order)
    ensures
        r == first_difference(first, second),
{
    if first == Order::Equal {
        second
    } else {
        first
    }
}

/// Compares two texts by their UTF-8 bytes.
pub fn compare_texts(a: &str, b: &str) -> (r: Order)
    ensures
        r == text_order(a@, b@),
{
    compare_bytes(a.as_bytes(), b.as_bytes())
}

fn compare_first_files(a: &Vec<DuplicateFile>, b: &Vec<DuplicateFile>) -> (r: Order)
    ensures
        r == first_file_order(files_view(a@), files_view(b@)),
{
    if a.len() == 0 {
        if b.len() == 0 {
            Order::Equal
        } else {
            Order::Less
        }
    } else if b.len() == 0 {
        Order::Greater
    } else {
        assert(files_view(a@)[0] == a@[0]@);
        assert(files_view(b@)[0] == b@[0]@);
        compare_texts(a[0].relative.as_str(), b[0].relative.as_str())
    }
}

pub fn compare_groups(left: &DuplicateGroup, right: &DuplicateGroup) -> (r: Order)
    ensures
        r == group_order(left@, right@),
{
    either(
        compare_numbers(right.size, left.size),
        either(
            compare_numbers(right.duplicate_bytes(), left.duplicate_bytes()),
            compare_first_files(&left.files, &right.files),
        ),
    )
}

impl SortItem for DuplicateGroup {
    open spec fn at_most(a: DuplicateGroup, b: DuplicateGroup) -> bool {
        group_order(a@, b@) != Order::Greater
    }

    proof fn lemma_total(a: DuplicateGroup, b: DuplicateGroup) {
        lemma_group_order_antisymmetric(a@, b@);
        lemma_group_order_antisymmetric(b@, a@);
    }

    proof fn lemma_transitive(a: DuplicateGroup, b: DuplicateGroup, c: DuplicateGroup) {
        lemma_group_order_transitive(a@, b@, c@);
    }

    fn is_at_most(&self, other: &DuplicateGroup) -> (r: bool) {
        compare_groups(self, other) != Order::Greater
    }
}

/// Puts groups in order, ties as they came.
pub fn sort_duplicate_groups(groups: &mut Vec<DuplicateGroup>)
    ensures
        is_stable_sort(old(groups)@, final(groups)@),
{
    let mut taken: Vec<DuplicateGroup> = Vec::new();
    std::mem::swap(&mut taken, groups);
    *groups = stable_sort(taken);
}

/// The order of files within a group: natural order of the relative path
/// without regard to case, then its exact text.
pub open spec fn member_order(a: DuplicateFileView, b: DuplicateFileView) -> Order {
    first_difference(
        natural_order(lowercase_text(a.relative), lowercase_text(b.relative)),
        text_order(a.relative, b.relative),
    )
}

fn compare_members(a: &DuplicateFile, b: &DuplicateFile) -> (r: Order)
    ensures
        r == member_order(a@, b@),
{
    let left: String = lowercase(a.relative.as_str());
    let right: String = lowercase(b.relative.as_str());
    either(
        natural_compare(left.as_str(), right.as_str()),
        compare_texts(a.relative.as_str(), b.relative.as_str()),
    )
}

impl SortItem for DuplicateFile {
    open spec fn at_most(a: DuplicateFile, b: DuplicateFile) -> bool {
        member_order(a@, b@) != Order::Greater
    }

    proof fn lemma_total(a: DuplicateFile, b: DuplicateFile) {
        lemma_natural_order_antisymmetric(
            lowercase_text(a@.relative),
            lowercase_text(b@.relative),
        );
        lemma_natural_order_antisymmetric(
            lowercase_text(b@.relative),
            lowercase_text(a@.relative),
        );
        lemma_bytes_order_antisymmetric(encode_utf8(a@.relative), encode_utf8(b@.relative));
        lemma_bytes_order_antisymmetric(encode_utf8(b@.relative), encode_utf8(a@.relative));
    }

    proof fn lemma_transitive(a: DuplicateFile, b: DuplicateFile, c: DuplicateFile) {
        lemma_natural_order_transitive(
            lowercase_text(a@.relative),
            lowercase_text(b@.relative),
            lowercase_text(c@.relative),
        );
        let x = encode_utf8(a@.relative);
        let y = encode_utf8(b@.relative);
        let z = encode_utf8(c@.relative);
        if bytes_order(x, y) != Order::Greater && bytes_order(y, z) != Order::Greater {
            lemma_bytes_order_transitive(x, y, z);
        }
    }

    fn is_at_most(&self, other: &DuplicateFile) -> (r: bool) {
        compare_members(self, other) != Order::Greater
    }
}

/// How far a search for duplicates has come.
#[derive(Clone, Copy, PartialEq, Eq, Structural, Debug)]
pub enum DuplicateScanPhase {
    Walking,
    SizeGrouping,
    ContentChecking,
    Complete,
}

impl DuplicateScanPhase {
    pub fn label(self) -> (r: &'static str)
        ensures
            r@ == match self {
                DuplicateScanPhase::Walking => "walking"@,
                DuplicateScanPhase::SizeGrouping => "grouping"@,
                DuplicateScanPhase::ContentChecking => "checking"@,
                DuplicateScanPhase::Complete => "complete"@,
            },
    {
        match self {
            DuplicateScanPhase::Walking => "walking",
            DuplicateScanPhase::SizeGrouping => "grouping",
            DuplicateScanPhase::ContentChecking => "checking",
            DuplicateScanPhase::Complete => "complete",
        }
    }
}

/// What a search for duplicates has done so far.
#[derive(Clone, Copy, PartialEq, Eq, Structural, Debug)]
pub struct DuplicateScanStats {
    pub phase: DuplicateScanPhase,
    pub visited_nodes: usize,
    pub scanned_files: usize,
    pub candidate_files: usize,
    pub checked_candidates: usize,
    pub hashed_files: usize,
    pub cached_hashes: usize,
    pub processed_bytes: u64,
    pub verified_files: usize,
    pub groups: usize,
    pub duplicate_bytes: u64,
    pub node_limit_reached: bool,
}

pub open spec fn no_stats() -> DuplicateScanStats {
    DuplicateScanStats {
        phase: DuplicateScanPhase::Walking,
        visited_nodes: 0,
        scanned_files: 0,
        candidate_files: 0,
        checked_candidates: 0,
        hashed_files: 0,
        cached_hashes: 0,
        processed_bytes: 0,
        verified_files: 0,
        groups: 0,
        duplicate_bytes: 0,
        node_limit_reached: false,
    }
}

impl Default for DuplicateScanStats {
    fn default() -> (r: DuplicateScanStats)
        ensures
            r == no_stats(),
            r.phase == DuplicateScanPhase::Walking,
            r.visited_nodes == 0 && r.scanned_files == 0 && r.candidate_files == 0,
            r.checked_candidates == 0 && r.hashed_files == 0 && r.cached_hashes == 0,
            r.processed_bytes == 0 && r.verified_files == 0,
            r.groups == 0 && r.duplicate_bytes == 0,
            !r.node_limit_reached,
    {
        DuplicateScanStats {
            phase: DuplicateScanPhase::Walking,
            visited_nodes: 0,
            scanned_files: 0,
            candidate_files: 0,
            checked_candidates: 0,
            hashed_files: 0,
            cached_hashes: 0,
            processed_bytes: 0,
            verified_files: 0,
            groups: 0,
            duplicate_bytes: 0,
            node_limit_reached: false,
        }
    }
}

/// What tells a file apart from others: its place in the file system, or its
/// path where the system has no such thing.
#[derive(Debug)]
pub enum FileIdentity {
    Unix { dev: u64, ino: u64 },
    Path(FilePath),
}

/// Paths tell the same file where their components are the same.
pub ghost enum FileIdentityView {
    Unix { dev: u64, ino: u64 },
    Path(Seq<Seq<u8>>),
}

impl View for FileIdentity {
    type V = FileIdentityView;

    open spec fn view(&self) -> FileIdentityView {
        match *self {
            FileIdentity::Unix { dev, ino } => FileIdentityView::Unix { dev, ino },
            FileIdentity::Path(path) => FileIdentityView::Path(components(path@)),
        }
    }
}

/// What a remembered digest is valid for: this very file, unchanged in size and
/// times.
#[derive(Debug)]
pub struct DuplicateHashCacheKey {
    pub identity: FileIdentity,
    pub size: u64,
    pub modified: Option<Timestamp>,
    pub changed: Option<Timestamp>,
}

pub ghost struct CacheKeyView {
    pub identity: FileIdentityView,
    pub size: u64,
    pub modified: Option<Timestamp>,
    pub changed: Option<Timestamp>,
}

impl View for DuplicateHashCacheKey {
    type V = CacheKeyView;

    open spec fn view(&self) -> CacheKeyView {
        CacheKeyView {
            identity: self.identity@,
            size: self.size,
            modified: self.modified,
            changed: self.changed,
        }
    }
}

impl DuplicateHashCacheKey {
    pub fn copy(&self) -> (r: DuplicateHashCacheKey)
        ensures
            r@ == self@,
    {
        DuplicateHashCacheKey {
            identity: match &self.identity {
                FileIdentity::Unix { dev, ino } => FileIdentity::Unix { dev: *dev, ino: *ino },
                FileIdentity::Path(path) => FileIdentity::Path(path.copy()),
            },
            size: self.size,
            modified: self.modified,
            changed: self.changed,
        }
    }
}

/// A file that may turn out to have duplicates.
#[derive(Debug)]
pub struct CandidateFile {
    pub path: FilePath,
    pub name: String,
    pub relative: String,
    pub size: u64,
    pub modified: Option<Timestamp>,
    pub cache_key: Option<DuplicateHashCacheKey>,
}

pub open spec fn optional_key(key: Option<DuplicateHashCacheKey>) -> Option<CacheKeyView> {
    match key {
        Some(key) => Some(key@),
        None => None,
    }
}

#[verifier::ext_equal]
pub ghost struct CandidateView {
    pub file: DuplicateFileView,
    pub cache_key: Option<CacheKeyView>,
}

impl View for CandidateFile {
    type V = CandidateView;

    open spec fn view(&self) -> CandidateView {
        CandidateView {
            file: DuplicateFileView {
                path: self.path@,
                name: self.name@,
                relative: self.relative@,
                size: self.size,
                modified: self.modified,
            },
            cache_key: optional_key(self.cache_key),
        }
    }
}

impl CandidateFile {
    /// The file as a member of a group.
    pub fn to_file(&self) -> (r: DuplicateFile)
        ensures
            r@ == self@.file,
    {
        DuplicateFile {
            path: self.path.copy(),
            name: self.name.clone(),
            relative: self.relative.clone(),
            size: self.size,
            modified: self.modified,
        }
    }
}

pub open spec fn candidates_view(files: Seq<CandidateFile>) -> Seq<CandidateView> {
    files.map_values(|f: CandidateFile| f@)
}

/// By what candidates of one size are put in line for examination.
#[derive(Clone, Copy, PartialEq, Eq, Structural, Debug)]
pub struct BucketPriority {
    pub class: u8,
    pub len: usize,
    pub read_bytes: u64,
    pub duplicate_bytes: u64,
    pub size: u64,
}

/// The size of the files, zero where there are none.
pub open spec fn bucket_size(files: Seq<CandidateView>) -> u64 {
    if files.len() == 0 {
        0
    } else {
        files[0].file.size
    }
}

/// How costly it is to examine files of this size: small ones first, large ones
/// last, and several of middling size before a few.
pub open spec fn bucket_class(size: u64, len: nat) -> u8 {
    if size <= SMALL_FILE_FULL_HASH_LIMIT {
        0
    } else if size <= MEDIUM_FILE_LIMIT && len >= 3 {
        1
    } else if size <= LARGE_FILE_LIMIT {
        2
    } else {
        3
    }
}

pub open spec fn bucket_priority(files: Seq<CandidateView>) -> BucketPriority {
    let size = bucket_size(files);
    BucketPriority {
        class: bucket_class(size, files.len()),
        len: files.len() as usize,
        read_bytes: bounded_product(size as int, files.len() as int),
        duplicate_bytes: bounded_product(size as int, one_less(files.len()) as int),
        size,
    }
}

/// Cheap classes first; in a class many files before few, then those that cost
/// less to read, then those that could free more, then the smaller ones.
pub open spec fn priority_order(a: BucketPriority, b: BucketPriority) -> Order {
    first_difference(
        ascending(a.class as int, b.class as int),
        first_difference(
            ascending(b.len as int, a.len as int),
            first_difference(
                ascending(a.read_bytes as int, b.read_bytes as int),
                first_difference(
                    ascending(b.duplicate_bytes as int, a.duplicate_bytes as int),
                    ascending(a.size as int, b.size as int),
                ),
            ),
        ),
    )
}

pub fn candidate_bucket_read_bytes(files: &Vec<CandidateFile>) -> (r: u64)
    ensures
        r == bounded_product(bucket_size(candidates_view(files@)) as int, files@.len() as int),
{
    if files.len() == 0 {
        0
    } else {
        assert(candidates_view(files@)[0] == files@[0]@);
        saturating_product(files[0].size, files.len() as u64)
    }
}

pub fn duplicate_candidate_bytes(files: &Vec<CandidateFile>) -> (r: u64)
    ensures
        r == bounded_product(
            bucket_size(candidates_view(files@)) as int,
            one_less(files@.len()) as int,
        ),
{
    if files.len() == 0 {
        0
    } else {
        assert(candidates_view(files@)[0] == files@[0]@);
        saturating_product(files[0].size, count_less_one(files.len()))
    }
}

pub fn candidate_bucket_priority(files: &Vec<CandidateFile>) -> (r: BucketPriority)
    ensures
        r == bucket_priority(candidates_view(files@)),
{
    assert(files@.len() > 0 ==> candidates_view(files@)[0] == files@[0]@);
    let size: u64 = if files.len() == 0 {
        0
    } else {
        files[0].size
    };
    let class: u8 = if size <= SMALL_FILE_FULL_HASH_LIMIT {
        0
    } else if size <= MEDIUM_FILE_LIMIT && files.len() >= 3 {
        1
    } else if size <= LARGE_FILE_LIMIT {
        2
    } else {
        3
    };
    BucketPriority {
        class,
        len: files.len(),
        read_bytes: candidate_bucket_read_bytes(files),
        duplicate_bytes: duplicate_candidate_bytes(files),
        size,
    }
}

pub fn compare_candidate_buckets(left: &Vec<CandidateFile>, right: &Vec<CandidateFile>) -> (r:
    Order)
    ensures
        r == priority_order(
            bucket_priority(candidates_view(left@)),
            bucket_priority(candidates_view(right@)),
        ),
{
    let a: BucketPriority = candidate_bucket_priority(left);
    let b: BucketPriority = candidate_bucket_priority(right);
    either(
        compare_numbers(a.class as u64, b.class as u64),
        either(
            compare_numbers(b.len as u64, a.len as u64),
            either(
                compare_numbers(a.read_bytes, b.read_bytes),
                either(
                    compare_numbers(b.duplicate_bytes, a.duplicate_bytes),
                    compare_numbers(a.size, b.size),
                ),
            ),
        ),
    )
}

/// Candidates of one size.
#[derive(Debug)]
pub struct Bucket {
    pub files: Vec<CandidateFile>,
}

impl View for Bucket {
    type V = Seq<CandidateView>;

    open spec fn view(&self) -> Seq<CandidateView> {
        candidates_view(self.files@)
    }
}

impl SortItem for Bucket {
    open spec fn at_most(a: Bucket, b: Bucket) -> bool {
        priority_order(bucket_priority(a@), bucket_priority(b@)) != Order::Greater
    }

    proof fn lemma_total(a: Bucket, b: Bucket) {
    }

    proof fn lemma_transitive(a: Bucket, b: Bucket, c: Bucket) {
    }

    fn is_at_most(&self, other: &Bucket) -> (r: bool) {
        compare_candidate_buckets(&self.files, &other.files) != Order::Greater
    }
}

/// Files of different sizes never tie, so the order of examination does not
/// depend on how the candidates were collected.
pub proof fn lemma_different_sizes_never_tie(a: Seq<CandidateView>, b: Seq<CandidateView>)
    requires
        bucket_size(a) != bucket_size(b),
    ensures
        priority_order(bucket_priority(a), bucket_priority(b)) != Order::Equal,
{
}

/// Small files are examined before larger ones, however many of those there are.
pub proof fn lemma_cheap_files_are_not_starved(a: Seq<CandidateView>, b: Seq<CandidateView>)
    requires
        bucket_size(a) <= SMALL_FILE_FULL_HASH_LIMIT,
        bucket_size(b) > SMALL_FILE_FULL_HASH_LIMIT,
    ensures
        priority_order(bucket_priority(a), bucket_priority(b)) == Order::Less,
{
}

/// Larger files come first, whatever smaller ones could free.
pub proof fn lemma_larger_files_come_first(a: DuplicateGroupView, b: DuplicateGroupView)
    requires
        a.size > b.size,
    ensures
        group_order(a, b) == Order::Less,
{
}

/// Whether a directory is left out of a search, by its name in lower case.
pub open spec fn pruned(name: Seq<char>) -> bool {
    name == ".git"@ || name == "node_modules"@ || name == "target"@
}

pub fn should_prune_dir(name_key: &str) -> (r: bool)
    ensures
        r == pruned(name_key@),
        r <==> name_key@ == ".git"@ || name_key@ == "node_modules"@ || name_key@ == "target"@,
{
    same_text(name_key, ".git") || same_text(name_key, "node_modules") || same_text(
        name_key,
        "target",
    )
}

/// Whether a name marks a file as hidden.
pub fn is_hidden_name(name: &[u8]) -> (r: bool)
    ensures
        r == (name@.len() > 0 && name@[0] == 46),
{
    name.len() > 0 && name[0] == 46
}

/// A pause that leaves the processor to others.
#[derive(Clone, Copy, PartialEq, Eq, Structural, Debug)]
pub enum Breath {
    NoPause,
    Yield,
    Sleep,
}

pub const SCAN_YIELD_NODES: usize = 512;

pub const SCAN_SLEEP_NODES: usize = 16384;

pub const HASH_YIELD_CHUNKS: usize = 16;

pub const HASH_SLEEP_CHUNKS: usize = 128;

/// A pause after every so many steps, a longer one after every so many more.
pub open spec fn breath_after(count: int, sleep: int, short: int) -> Breath {
    if count % sleep == 0 {
        Breath::Sleep
    } else if count % short == 0 {
        Breath::Yield
    } else {
        Breath::NoPause
    }
}

pub fn breathe_after_node(count: usize) -> (r: Breath)
    ensures
        r == breath_after(count as int, SCAN_SLEEP_NODES as int, SCAN_YIELD_NODES as int),
        r == Breath::Sleep <==> count % 16384 == 0,
        r == Breath::Yield <==> count % 512 == 0 && count % 16384 != 0,
{
    if count % SCAN_SLEEP_NODES == 0 {
        Breath::Sleep
    } else if count % SCAN_YIELD_NODES == 0 {
        Breath::Yield
    } else {
        Breath::NoPause
    }
}

pub fn breathe_after_hash_chunk(chunks: usize) -> (r: Breath)
    ensures
        r == breath_after(chunks as int, HASH_SLEEP_CHUNKS as int, HASH_YIELD_CHUNKS as int),
        r == Breath::Sleep <==> chunks % 128 == 0,
        r == Breath::Yield <==> chunks % 16 == 0 && chunks % 128 != 0,
{
    if chunks % HASH_SLEEP_CHUNKS == 0 {
        Breath::Sleep
    } else if chunks % HASH_YIELD_CHUNKS == 0 {
        Breath::Yield
    } else {
        Breath::NoPause
    }
}

} // verus!
