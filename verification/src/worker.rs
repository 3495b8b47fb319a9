//! What a worker sends while it runs a search.

use crate::batches::DuplicateScanBatch;
use crate::duplicate_pool::{
    key_of, sends_result, DirectoryFingerprint, DuplicateJobKey, DuplicateScanRequest,
    ScanRequestView,
};
use crate::path::FilePath;
use crate::scan::DuplicateScanResult;
use vstd::prelude::*;

verus! {

/// A batch of a search, with what was asked for.
#[derive(Debug)]
pub struct DuplicateScanBatchBuild {
    pub token: u64,
    pub cwd: FilePath,
    pub show_hidden: bool,
    pub fingerprint: DirectoryFingerprint,
    pub batch: DuplicateScanBatch,
}

/// How a search ended, with what was asked for.
#[derive(Debug)]
pub struct DuplicateScanBuild {
    pub token: u64,
    pub cwd: FilePath,
    pub show_hidden: bool,
    pub fingerprint: DirectoryFingerprint,
    pub result: Result<DuplicateScanResult, String>,
}

/// A message of a worker.
#[derive(Debug)]
pub enum JobResult {
    DuplicateScanBatch(DuplicateScanBatchBuild),
    DuplicateScan(DuplicateScanBuild),
}

/// The request that a message is about, and what it says.
pub ghost enum MessageView {
    Batch { request: ScanRequestView, batch: DuplicateScanBatch },
    Ended { request: ScanRequestView, result: Result<DuplicateScanResult, String> },
}

impl View for JobResult {
    type V = MessageView;

    open spec fn view(&self) -> MessageView {
        match *self {
            JobResult::DuplicateScanBatch(build) => MessageView::Batch {
                request: ScanRequestView {
                    token: build.token,
                    cwd: build.cwd@,
                    show_hidden: build.show_hidden,
                    fingerprint: build.fingerprint,
                },
                batch: build.batch,
            },
            JobResult::DuplicateScan(build) => MessageView::Ended {
                request: ScanRequestView {
                    token: build.token,
                    cwd: build.cwd@,
                    show_hidden: build.show_hidden,
                    fingerprint: build.fingerprint,
                },
                result: build.result,
            },
        }
    }
}

/// A worker with the request that it runs a search for, and whether a batch could
/// not be sent.
#[derive(Debug)]
pub struct DuplicateWorker {
    pub request: DuplicateScanRequest,
    pub progress_send_failed: bool,
}

pub ghost struct WorkerView {
    pub request: ScanRequestView,
    pub progress_send_failed: bool,
}

impl View for DuplicateWorker {
    type V = WorkerView;

    open spec fn view(&self) -> WorkerView {
        WorkerView {
            request: self.request@,
            progress_send_failed: self.progress_send_failed,
        }
    }
}

/// The message with a batch.
pub open spec fn batch_message(w: WorkerView, batch: DuplicateScanBatch) -> MessageView {
    MessageView::Batch { request: w.request, batch }
}

/// A worker after it has sent a batch, or could not: what could not be sent is not
/// made up for by what is sent later.
pub open spec fn after_send(w: WorkerView, went_well: bool) -> WorkerView {
    WorkerView { progress_send_failed: w.progress_send_failed || !went_well, ..w }
}

/// The message at the end, if there is one.
pub open spec fn end_message(
    w: WorkerView,
    canceled: bool,
    result: Result<DuplicateScanResult, String>,
) -> Option<MessageView> {
    if w.progress_send_failed || canceled {
        None
    } else {
        Some(MessageView::Ended { request: w.request, result })
    }
}

impl DuplicateWorker {
    pub fn new(request: DuplicateScanRequest) -> (r: DuplicateWorker)
        ensures
            r@ == (WorkerView { request: request@, progress_send_failed: false }),
    {
        DuplicateWorker { request, progress_send_failed: false }
    }

    /// What the search that runs is known by.
    pub fn key(&self) -> (r: DuplicateJobKey)
        ensures
            r@ == key_of(self@.request),
    {
        DuplicateJobKey::from_request(&self.request)
    }

    /// The message to send for a batch.
    pub fn progress(&self, batch: DuplicateScanBatch) -> (r: JobResult)
        ensures
            r@ == batch_message(self@, batch),
    {
        JobResult::DuplicateScanBatch(
            DuplicateScanBatchBuild {
                token: self.request.token,
                cwd: self.request.cwd.copy(),
                show_hidden: self.request.show_hidden,
                fingerprint: self.request.fingerprint,
                batch,
            },
        )
    }

    /// Takes in whether a batch could be sent; says whether the search goes on.
    pub fn sent(&mut self, went_well: bool) -> (r: bool)
        ensures
            final(self)@ == after_send(old(self)@, went_well),
            r == went_well,
    {
        if !went_well {
            self.progress_send_failed = true;
        }
        went_well
    }

    /// The message to send when the search has ended, unless it was canceled or a
    /// batch could not be sent.
    pub fn finish(
        self,
        canceled: bool,
        result: Result<DuplicateScanResult, String>,
    ) -> (r: Option<JobResult>)
        ensures
            r is Some <==> end_message(self@, canceled, result) is Some,
            r is Some ==> Some(r->0@) == end_message(self@, canceled, result),
    {
        if !sends_result(self.progress_send_failed, canceled) {
            return None;
        }
        Some(
            JobResult::DuplicateScan(
                DuplicateScanBuild {
                    token: self.request.token,
                    cwd: self.request.cwd,
                    show_hidden: self.request.show_hidden,
                    fingerprint: self.request.fingerprint,
                    result,
                },
            ),
        )
    }
}

/// A worker after several batches, of which each could be sent or not.
pub open spec fn after_sends(w: WorkerView, went_well: Seq<bool>) -> WorkerView
    decreases went_well.len(),
{
    if went_well.len() == 0 {
        w
    } else {
        after_send(after_sends(w, went_well.drop_last()), went_well.last())
    }
}

/// All messages of a worker: one for every batch that a search hands on, while it
/// takes in whether each could be sent, and the one at the end.
pub open spec fn all_messages(
    w: WorkerView,
    batches: Seq<DuplicateScanBatch>,
    went_well: Seq<bool>,
    canceled: bool,
    result: Result<DuplicateScanResult, String>,
) -> Seq<MessageView> {
    let progress = Seq::new(
        batches.len(),
        |i: int| batch_message(after_sends(w, went_well.take(i)), batches[i]),
    );
    match end_message(after_sends(w, went_well), canceled, result) {
        Some(message) => progress.push(message),
        None => progress,
    }
}

proof fn lemma_after_sends(w: WorkerView, went_well: Seq<bool>)
    ensures
        after_sends(w, went_well).request == w.request,
        after_sends(w, went_well).progress_send_failed <==> w.progress_send_failed
            || went_well.contains(false),
    decreases went_well.len(),
{
    if went_well.len() > 0 {
        let earlier = went_well.drop_last();
        lemma_after_sends(w, earlier);
        let last = went_well.len() - 1;
        if went_well.contains(false) {
            let i = choose|i: int| 0 <= i < went_well.len() && !went_well[i];
            if i < last {
                assert(earlier[i] == false);
            }
        }
        if earlier.contains(false) {
            let i = choose|i: int| 0 <= i < earlier.len() && !earlier[i];
            assert(went_well[i] == false);
        }
        if !went_well.last() {
            assert(went_well[last] == false);
        }
    }
}

/// A worker sends the batches of a search in order and then at most one message on
/// how the search ended: that one exactly where every batch could be sent and the
/// search was not canceled. Every message carries all of the request.
pub proof fn lemma_messages_of_a_request(
    request: ScanRequestView,
    batches: Seq<DuplicateScanBatch>,
    went_well: Seq<bool>,
    canceled: bool,
    result: Result<DuplicateScanResult, String>,
)
    requires
        went_well.len() == batches.len(),
    ensures
        ({
            let w = WorkerView { request, progress_send_failed: false };
            let ends = !canceled && !went_well.contains(false);
            all_messages(w, batches, went_well, canceled, result) == batches.map_values(
                |batch: DuplicateScanBatch| MessageView::Batch { request, batch },
            ) + if ends {
                seq![MessageView::Ended { request, result }]
            } else {
                Seq::empty()
            }
        }),
{
    let w = WorkerView { request, progress_send_failed: false };
    lemma_after_sends(w, went_well);
    assert forall|i: int| 0 <= i < batches.len() implies batch_message(
        #[trigger] after_sends(w, went_well.take(i)),
        batches[i],
    ) == (MessageView::Batch { request, batch: batches[i] }) by {
        lemma_after_sends(w, went_well.take(i));
    }
}

} // verus!
