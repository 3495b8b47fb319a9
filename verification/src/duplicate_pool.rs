//! Which search for duplicates runs.
//!
//! One search runs at a time. A new request takes the place of one that waits
//! and cancels the one that runs.

use crate::path::{components, FilePath};
use vstd::prelude::*;

verus! {

/// What a directory looked like when a search was asked for.
#[derive(Clone, Copy, PartialEq, Eq, Structural, Debug)]
pub struct DirectoryFingerprint {
    pub value: u64,
}

/// A search that is asked for.
#[derive(Debug)]
pub struct DuplicateScanRequest {
    pub token: u64,
    pub cwd: FilePath,
    pub show_hidden: bool,
    pub fingerprint: DirectoryFingerprint,
}

pub ghost struct ScanRequestView {
    pub token: u64,
    pub cwd: Seq<u8>,
    pub show_hidden: bool,
    pub fingerprint: DirectoryFingerprint,
}

impl View for DuplicateScanRequest {
    type V = ScanRequestView;

    open spec fn view(&self) -> ScanRequestView {
        ScanRequestView {
            token: self.token,
            cwd: self.cwd@,
            show_hidden: self.show_hidden,
            fingerprint: self.fingerprint,
        }
    }
}

/// What makes two searches the same one.
#[derive(Debug)]
pub struct DuplicateJobKey {
    pub cwd: FilePath,
    pub show_hidden: bool,
    pub fingerprint: DirectoryFingerprint,
}

pub ghost struct JobKeyView {
    pub cwd: Seq<Seq<u8>>,
    pub show_hidden: bool,
    pub fingerprint: DirectoryFingerprint,
}

/// Directories are the same where their components are.
impl View for DuplicateJobKey {
    type V = JobKeyView;

    open spec fn view(&self) -> JobKeyView {
        JobKeyView {
            cwd: components(self.cwd@),
            show_hidden: self.show_hidden,
            fingerprint: self.fingerprint,
        }
    }
}

pub open spec fn key_of(request: ScanRequestView) -> JobKeyView {
    JobKeyView {
        cwd: components(request.cwd),
        show_hidden: request.show_hidden,
        fingerprint: request.fingerprint,
    }
}

impl DuplicateJobKey {
    pub fn from_request(request: &DuplicateScanRequest) -> (r: DuplicateJobKey)
        ensures
            r@ == key_of(request@),
    {
        DuplicateJobKey {
            cwd: request.cwd.copy(),
            show_hidden: request.show_hidden,
            fingerprint: request.fingerprint,
        }
    }

    pub fn same(&self, other: &DuplicateJobKey) -> (r: bool)
        ensures
            r == (self@ == other@),
    {
        self.cwd.same_path(&other.cwd) && self.show_hidden == other.show_hidden && self.fingerprint
            == other.fingerprint
    }
}

/// A search that runs, and whether it was canceled.
#[derive(Debug)]
pub struct ActiveDuplicateJob {
    pub key: DuplicateJobKey,
    pub canceled: bool,
}

pub ghost struct ActiveJobView {
    pub key: JobKeyView,
    pub canceled: bool,
}

/// What waits and what runs.
#[derive(Debug)]
pub struct DuplicateState {
    pub pending: Option<DuplicateScanRequest>,
    pub pending_key: Option<DuplicateJobKey>,
    pub active: Option<ActiveDuplicateJob>,
    pub closed: bool,
}

pub ghost struct PoolView {
    pub pending: Option<ScanRequestView>,
    pub active: Option<ActiveJobView>,
    pub closed: bool,
}

impl View for DuplicateState {
    type V = PoolView;

    open spec fn view(&self) -> PoolView {
        PoolView {
            pending: match self.pending {
                Some(request) => Some(request@),
                None => None,
            },
            active: match self.active {
                Some(job) => Some(ActiveJobView { key: job.key@, canceled: job.canceled }),
                None => None,
            },
            closed: self.closed,
        }
    }
}

/// The search that runs, canceled.
pub open spec fn canceled_job(active: Option<ActiveJobView>) -> Option<ActiveJobView> {
    match active {
        Some(job) => Some(ActiveJobView { canceled: true, ..job }),
        None => None,
    }
}

/// A pool after a request: the request waits, whatever waited before, and the
/// search that runs is canceled. A closed pool takes none.
pub open spec fn submitted(pool: PoolView, request: ScanRequestView) -> PoolView {
    if pool.closed {
        pool
    } else {
        PoolView { pending: Some(request), active: canceled_job(pool.active), ..pool }
    }
}

/// A pool after everything was canceled.
pub open spec fn all_canceled(pool: PoolView) -> PoolView {
    PoolView { pending: None, active: canceled_job(pool.active), ..pool }
}

/// A pool after it was closed.
pub open spec fn closed_pool(pool: PoolView) -> PoolView {
    PoolView { pending: None, active: canceled_job(pool.active), closed: true }
}

/// Whether a worker is handed the request that waits: none runs, and the pool is
/// open.
pub open spec fn hands_out(pool: PoolView) -> bool {
    !pool.closed && pool.active is None && pool.pending is Some
}

/// A pool after a worker asked for work.
pub open spec fn popped(pool: PoolView) -> PoolView {
    if hands_out(pool) {
        PoolView {
            pending: None,
            active: Some(ActiveJobView { key: key_of(pool.pending->0), canceled: false }),
            ..pool
        }
    } else {
        pool
    }
}

/// Whether this very search runs.
pub open spec fn runs(pool: PoolView, key: JobKeyView) -> bool {
    pool.active is Some && pool.active->0.key == key
}

/// A pool after a worker has finished a search.
pub open spec fn finished_pool(pool: PoolView, key: JobKeyView) -> PoolView {
    if runs(pool, key) {
        PoolView { active: None, ..pool }
    } else {
        pool
    }
}

/// What a worker that asks for work gets.
#[derive(Debug)]
pub enum PopOutcome {
    Closed,
    Job(DuplicateScanRequest),
    Wait,
}

impl DuplicateState {
    /// A request waits exactly with its key, and a closed pool has none.
    pub open spec fn wf(&self) -> bool {
        &&& self.pending is Some <==> self.pending_key is Some
        &&& self.pending is Some ==> self.pending_key->0@ == key_of(self.pending->0@)
        &&& self.closed ==> self.pending is None
    }

    pub fn new() -> (r: DuplicateState)
        ensures
            r.wf(),
            r@ == (PoolView { pending: None, active: None, closed: false }),
    {
        DuplicateState { pending: None, pending_key: None, active: None, closed: false }
    }

    fn cancel_active(&mut self)
        ensures
            final(self).pending == old(self).pending,
            final(self).pending_key == old(self).pending_key,
            final(self).closed == old(self).closed,
            final(self)@ == (PoolView { active: canceled_job(old(self)@.active), ..old(self)@ }),
    {
        if let Some(active) = &mut self.active {
            active.canceled = true;
        }
    }

    /// Asks for a search; says whether it was taken.
    pub fn submit(&mut self, request: DuplicateScanRequest) -> (r: bool)
        requires
            old(self).wf(),
        ensures
            final(self).wf(),
            r == !old(self)@.closed,
            final(self)@ == submitted(old(self)@, request@),
    {
        if self.closed {
            return false;
        }
        let key: DuplicateJobKey = DuplicateJobKey::from_request(&request);
        self.pending = Some(request);
        self.pending_key = Some(key);
        self.cancel_active();
        true
    }

    /// Cancels what waits and what runs.
    pub fn cancel_all(&mut self)
        requires
            old(self).wf(),
        ensures
            final(self).wf(),
            final(self)@ == all_canceled(old(self)@),
    {
        self.pending = None;
        self.pending_key = None;
        self.cancel_active();
    }

    /// Cancels everything and takes no more.
    pub fn close(&mut self)
        requires
            old(self).wf(),
        ensures
            final(self).wf(),
            final(self)@ == closed_pool(old(self)@),
    {
        self.closed = true;
        self.pending = None;
        self.pending_key = None;
        self.cancel_active();
    }

    pub fn has_pending_work(&self) -> (r: bool)
        ensures
            r == (self@.pending is Some || self@.active is Some),
    {
        self.pending.is_some() || self.active.is_some()
    }

    /// Whether the search that runs was canceled.
    pub fn active_is_canceled(&self) -> (r: bool)
        ensures
            r == (self@.active is Some && self@.active->0.canceled),
    {
        match &self.active {
            Some(active) => active.canceled,
            None => false,
        }
    }

    /// Hands a worker the request that waits, unless a search runs.
    pub fn pop(&mut self) -> (r: PopOutcome)
        requires
            old(self).wf(),
        ensures
            final(self).wf(),
            final(self)@ == popped(old(self)@),
            match r {
                PopOutcome::Closed => old(self)@.closed,
                PopOutcome::Job(request) => hands_out(old(self)@) && request@
                    == old(self)@.pending->0,
                PopOutcome::Wait => !old(self)@.closed && !hands_out(old(self)@),
            },
    {
        if self.closed {
            return PopOutcome::Closed;
        }
        if self.active.is_some() {
            return PopOutcome::Wait;
        }
        match (self.pending.take(), self.pending_key.take()) {
            (Some(request), Some(key)) => {
                self.active = Some(ActiveDuplicateJob { key, canceled: false });
                PopOutcome::Job(request)
            },
            _ => PopOutcome::Wait,
        }
    }

    /// Ends the search that a worker has run; says whether another worker may go
    /// on.
    pub fn finish(&mut self, key: &DuplicateJobKey) -> (r: bool)
        requires
            old(self).wf(),
        ensures
            final(self).wf(),
            r == runs(old(self)@, key@),
            final(self)@ == finished_pool(old(self)@, key@),
    {
        let ends: bool = match &self.active {
            Some(active) => active.key.same(key),
            None => false,
        };
        if ends {
            self.active = None;
        }
        ends
    }
}

/// Whether a worker sends the result of a search: not where a batch could not be
/// sent or the search was canceled.
pub fn sends_result(progress_send_failed: bool, canceled: bool) -> (r: bool)
    ensures
        r == (!progress_send_failed && !canceled),
{
    !(progress_send_failed || canceled)
}

/// However many requests come while a search runs, that search is canceled and
/// only the latest of them is handed out next.
pub proof fn lemma_latest_request_wins(
    pool: PoolView,
    earlier: ScanRequestView,
    latest: ScanRequestView,
)
    requires
        !pool.closed,
    ensures
        ({
            let waiting = submitted(submitted(pool, earlier), latest);
            &&& waiting.pending == Some(latest)
            &&& waiting.active is Some ==> waiting.active->0.canceled
            &&& !hands_out(waiting) <==> pool.active is Some
            &&& pool.active is Some ==> {
                let free = finished_pool(waiting, pool.active->0.key);
                hands_out(free) && free.pending == Some(latest)
            }
        }),
{
}

/// A request that is handed out runs alone: nothing else is handed out before it
/// has finished, and it is not canceled unless someone asks for that.
pub proof fn lemma_one_search_runs(pool: PoolView)
    requires
        hands_out(pool),
    ensures
        !hands_out(popped(pool)),
        popped(popped(pool)) == popped(pool),
        runs(popped(pool), key_of(pool.pending->0)),
        !popped(pool).active->0.canceled,
        finished_pool(popped(pool), key_of(pool.pending->0)) == (PoolView {
            pending: None,
            active: None,
            closed: false,
        }),
{
}

/// A closed pool takes no request and hands none out, whatever happens.
pub proof fn lemma_closed_pool_stays_closed(
    pool: PoolView,
    request: ScanRequestView,
    key: JobKeyView,
)
    ensures
        ({
            let closed = closed_pool(pool);
            &&& submitted(closed, request) == closed
            &&& popped(closed) == closed
            &&& all_canceled(closed) == closed
            &&& finished_pool(closed, key).closed
            &&& finished_pool(closed, key).pending is None
        }),
{
}

/// An open pool keeps the request that came last and cancels the search that runs; which
/// search that is does not change.
pub proof fn lemma_request_waits(pool: PoolView, request: ScanRequestView)
    ensures
        !pool.closed ==> submitted(pool, request).pending == Some(request),
        pool.closed ==> submitted(pool, request) == pool,
        submitted(pool, request).closed == pool.closed,
        submitted(pool, request).active is Some <==> pool.active is Some,
        !pool.closed && pool.active is Some ==> submitted(pool, request).active->0 == (
        ActiveJobView { key: pool.active->0.key, canceled: true }),
{
}

/// Canceling everything and closing leave nothing that waits and cancel what runs; only
/// closing closes.
pub proof fn lemma_nothing_waits_when_canceled(pool: PoolView)
    ensures
        all_canceled(pool).pending is None,
        closed_pool(pool).pending is None,
        all_canceled(pool).closed == pool.closed,
        closed_pool(pool).closed,
        pool.active is None ==> all_canceled(pool).active is None && closed_pool(
            pool,
        ).active is None,
        pool.active is Some ==> all_canceled(pool).active == Some(
            ActiveJobView { key: pool.active->0.key, canceled: true },
        ) && closed_pool(pool).active == all_canceled(pool).active,
{
}

/// What waits is handed out exactly where the pool is open and nothing runs. It runs then,
/// under its directory, as it looked, and with what is shown.
pub proof fn lemma_waiting_request_is_handed_out(pool: PoolView)
    ensures
        hands_out(pool) <==> !pool.closed && pool.active is None && pool.pending is Some,
        !hands_out(pool) ==> popped(pool) == pool,
        hands_out(pool) ==> popped(pool) == (PoolView {
            pending: None,
            active: Some(
                ActiveJobView {
                    key: JobKeyView {
                        cwd: components(pool.pending->0.cwd),
                        show_hidden: pool.pending->0.show_hidden,
                        fingerprint: pool.pending->0.fingerprint,
                    },
                    canceled: false,
                },
            ),
            closed: false,
        }),
{
}

/// A search ends where it is the one that runs; any other end changes nothing.
pub proof fn lemma_running_search_ends(pool: PoolView, key: JobKeyView)
    ensures
        pool.active is Some && pool.active->0.key == key ==> finished_pool(pool, key) == (PoolView {
            active: None,
            ..pool
        }),
        pool.active is None || pool.active->0.key != key ==> finished_pool(pool, key) == pool,
{
}

} // verus!
