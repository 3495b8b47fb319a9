use elio::duplicate_pool::{
    sends_result, DirectoryFingerprint, DuplicateJobKey, DuplicateScanRequest, DuplicateState,
    PopOutcome,
};
use elio::batches::DuplicateScanBatch;
use elio::duplicates::DuplicateScanStats;
use elio::path::FilePath;
use elio::platform::Platform;
use elio::scan::DuplicateScanResult;
use elio::worker::{DuplicateWorker, JobResult};

fn request(token: u64, cwd: &str) -> DuplicateScanRequest {
    DuplicateScanRequest {
        token,
        cwd: FilePath::from_text(cwd),
        show_hidden: false,
        fingerprint: DirectoryFingerprint { value: 1 },
    }
}

#[test]
fn latest_request_wins() {
    let mut pool = DuplicateState::new();
    assert!(pool.submit(request(1, "/a")));
    assert!(pool.submit(request(2, "/b")));
    let PopOutcome::Job(job) = pool.pop() else {
        panic!("a request should wait");
    };
    assert_eq!(job.token, 2);
    assert!(matches!(pool.pop(), PopOutcome::Wait));
}

#[test]
fn another_request_cancels_the_running_one() {
    let mut pool = DuplicateState::new();
    pool.submit(request(1, "/a"));
    let PopOutcome::Job(job) = pool.pop() else {
        panic!("a request should wait");
    };
    assert!(pool.has_pending_work());
    assert!(!pool.active_is_canceled());
    pool.submit(request(2, "/b"));
    assert!(pool.active_is_canceled());
    assert!(pool.finish(&DuplicateJobKey::from_request(&job)));
    assert!(matches!(pool.pop(), PopOutcome::Job(_)));
}

#[test]
fn canceling_leaves_nothing_waiting() {
    let mut pool = DuplicateState::new();
    pool.submit(request(1, "/a"));
    pool.cancel_all();
    assert!(!pool.has_pending_work());
    assert!(matches!(pool.pop(), PopOutcome::Wait));
}

#[test]
fn closed_pool_takes_nothing() {
    let mut pool = DuplicateState::new();
    pool.submit(request(1, "/a"));
    pool.close();
    assert!(matches!(pool.pop(), PopOutcome::Closed));
    assert!(!pool.submit(request(2, "/b")));
    assert!(matches!(pool.pop(), PopOutcome::Closed));
}

#[test]
fn keys_compare_paths_by_their_parts() {
    let key = |cwd: &str| DuplicateJobKey::from_request(&request(1, cwd));
    assert!(key("/a/b").same(&key("/a//b/")));
    assert!(!key("/a/b").same(&key("/a/c")));
}

#[test]
fn results_are_sent_unless_unwanted() {
    assert!(sends_result(false, false));
    assert!(!sends_result(true, false));
    assert!(!sends_result(false, true));
}

fn batch(visited_nodes: usize) -> DuplicateScanBatch {
    DuplicateScanBatch {
        groups: Vec::new(),
        stats: DuplicateScanStats {
            visited_nodes,
            ..DuplicateScanStats::default()
        },
    }
}

fn nothing_found() -> Result<DuplicateScanResult, String> {
    Ok(DuplicateScanResult {
        groups: Vec::new(),
        stats: DuplicateScanStats::default(),
    })
}

#[test]
fn messages_carry_the_whole_request() {
    let mut asked = request(5, "/a");
    asked.show_hidden = true;
    let mut worker = DuplicateWorker::new(asked);
    assert!(worker
        .key()
        .same(&DuplicateJobKey::from_request(&DuplicateScanRequest {
            show_hidden: true,
            ..request(9, "/a/")
        })));
    for visited_nodes in [3, 4] {
        let JobResult::DuplicateScanBatch(build) = worker.progress(batch(visited_nodes)) else {
            panic!("a batch should be sent");
        };
        assert_eq!(build.token, 5);
        assert_eq!(build.cwd.display(Platform::Linux), "/a");
        assert!(build.show_hidden);
        assert_eq!(build.fingerprint, DirectoryFingerprint { value: 1 });
        assert_eq!(build.batch.stats.visited_nodes, visited_nodes);
        assert!(worker.sent(true));
    }
    let Some(JobResult::DuplicateScan(build)) = worker.finish(false, Err("no".to_string())) else {
        panic!("the end should be sent");
    };
    assert_eq!(build.token, 5);
    assert_eq!(build.cwd.display(Platform::Linux), "/a");
    assert!(build.show_hidden);
    assert_eq!(build.fingerprint, DirectoryFingerprint { value: 1 });
    assert_eq!(build.result.unwrap_err(), "no");
}

#[test]
fn failed_send_is_not_forgotten() {
    let mut worker = DuplicateWorker::new(request(1, "/a"));
    assert!(!worker.sent(false));
    assert!(worker.sent(true));
    assert!(worker.finish(false, nothing_found()).is_none());
}

#[test]
fn canceled_search_sends_no_end() {
    let worker = DuplicateWorker::new(request(1, "/a"));
    assert!(worker.finish(true, nothing_found()).is_none());
    let worker = DuplicateWorker::new(request(1, "/a"));
    assert!(worker.finish(false, nothing_found()).is_some());
}
