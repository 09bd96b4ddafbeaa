use pcp::bytesize::{ByteSize, ByteUnit};
use pcp::config::{Cli, InputError, OverwriteMode, Verification};
use pcp::ledger::RetryLedger;
use pcp::orchestrator::{
    calculate_total_size, filter_pending, may_delete_source, purge_victims, retry_decision,
    should_attempt_rename, FileRecord, RetryDecision,
};
use pcp::orchestrator::apply_move_deletion;
use pcp::progress::CompletionTracker;
use pcp::unit::{FsFile, Outcome};

fn base_cli() -> Cli {
    Cli {
        source: b"/src".to_vec(),
        destinations: vec![b"/dst".to_vec()],
        purge: false,
        overwrite: OverwriteMode::Never,
        move_files: false,
        threads: None,
        buf_size: ByteSize { value: 8, unit: ByteUnit::MiB },
        absolute_paths: false,
        use_progress: false,
        verification: Verification { verify: false, verify_retries: 0 },
    }
}

#[test]
fn retry_protocol_boundaries() {
    // verification off: the ledger is unused
    assert_eq!(retry_decision(false, 5, 0), RetryDecision::Done);
    // nothing failed: done whatever the budget
    assert_eq!(retry_decision(true, 0, 0), RetryDecision::Done);
    assert_eq!(retry_decision(true, 0, 3), RetryDecision::Done);
    // failures with a zero budget: a hard stop
    assert_eq!(retry_decision(true, 1, 0), RetryDecision::Abort);
    assert_eq!(retry_decision(true, 7, 0), RetryDecision::Abort);
    // failures with budget: exactly one forced retry round
    assert_eq!(retry_decision(true, 1, 1), RetryDecision::Retry);
    assert_eq!(retry_decision(true, 3, 200), RetryDecision::Retry);
}

#[test]
fn retry_pass_forces_overwrite() {
    let c = base_cli();
    let forced = c.forced_overwrite();
    assert_eq!(forced.overwrite, OverwriteMode::Always);
    assert_eq!(forced.source, b"/src".to_vec());
    assert!(!forced.verification.verify);
}

#[test]
fn rename_only_for_single_destination_moves() {
    assert!(should_attempt_rename(true, 1));
    assert!(!should_attempt_rename(true, 2));
    assert!(!should_attempt_rename(false, 1));
    assert!(!should_attempt_rename(false, 0));
}

#[test]
fn source_deleted_iff_absent_from_ledger() {
    let mut ledger = RetryLedger::new();
    assert!(may_delete_source(&ledger, b"/src/ok.bin"));
    ledger.push(b"/src/bad.bin");
    assert!(!may_delete_source(&ledger, b"/src/bad.bin"));
    assert!(may_delete_source(&ledger, b"/src/ok.bin"));
}

#[test]
fn move_deletion_spares_failed_and_unsettled_files() {
    let file = || Some(FsFile { data: vec![1u8, 2, 3], mtime: 0, atime: 0 });
    let mut ledger = RetryLedger::new();
    ledger.push(b"/src/bad.bin");

    // a settled unit with a clean ledger loses its source
    let mut slot = file();
    apply_move_deletion(&mut slot, b"/src/ok.bin", Outcome::Copied, &ledger);
    assert!(slot.is_none());
    let mut slot = file();
    apply_move_deletion(&mut slot, b"/src/ok.bin", Outcome::Skipped, &ledger);
    assert!(slot.is_none());

    // a file in the ledger always keeps its source copy
    let mut slot = file();
    apply_move_deletion(&mut slot, b"/src/bad.bin", Outcome::FailedVerification, &ledger);
    assert!(slot.is_some());

    // an aborted unit keeps its source even with a clean ledger
    let mut slot = file();
    apply_move_deletion(&mut slot, b"/src/ok.bin", Outcome::Error, &ledger);
    assert!(slot.is_some());
}

#[test]
fn pending_work_excludes_completed_files() {
    let mut tracker = CompletionTracker::open(true);
    tracker.read(b"a/1.bin\nb/2.bin\n");
    let rels = vec![b"a/1.bin".to_vec(), b"a/9.bin".to_vec(), b"b/2.bin".to_vec()];
    let pending = filter_pending(&rels, &tracker);
    assert_eq!(pending, vec![b"a/9.bin".to_vec()]);
}

#[test]
fn purge_removes_exactly_the_unmatched() {
    let source = vec![b"a/1.bin".to_vec(), b"b/2.bin".to_vec()];
    let dest = vec![
        b"a/1.bin".to_vec(),
        b"stray.tmp".to_vec(),
        b"b/2.bin".to_vec(),
        b"old/c.bin".to_vec(),
    ];
    let victims = purge_victims(&source, &dest);
    assert_eq!(victims, vec![b"stray.tmp".to_vec(), b"old/c.bin".to_vec()]);
    // nothing to purge when the destination mirrors the source
    assert!(purge_victims(&source, &source).is_empty());
}

#[test]
fn total_size_sums_and_saturates() {
    let files = vec![
        FileRecord { path: b"a".to_vec(), size: 10 },
        FileRecord { path: b"b".to_vec(), size: 32 },
    ];
    assert_eq!(calculate_total_size(&files), 42);
    let files = vec![
        FileRecord { path: b"a".to_vec(), size: u64::MAX },
        FileRecord { path: b"b".to_vec(), size: 5 },
    ];
    assert_eq!(calculate_total_size(&files), u64::MAX);
    assert_eq!(calculate_total_size(&Vec::new()), 0);
}

#[test]
fn validate_rejects_bad_jobs() {
    let mut c = base_cli();
    assert_eq!(c.validate(), Ok(()));

    c.buf_size = ByteSize { value: 0, unit: ByteUnit::MiB };
    assert_eq!(c.validate(), Err(InputError::ZeroBufferSize));

    c.buf_size = ByteSize { value: usize::MAX, unit: ByteUnit::GiB };
    assert_eq!(c.validate(), Err(InputError::BufferTooLarge));

    c.buf_size = ByteSize { value: 8, unit: ByteUnit::MiB };
    c.destinations = Vec::new();
    assert_eq!(c.validate(), Err(InputError::NoDestination));

    c.destinations = vec![b"/elsewhere".to_vec(), b"/src".to_vec()];
    assert_eq!(c.validate(), Err(InputError::SourceIsDestination));
}

#[test]
fn thread_pool_size_honors_the_limit() {
    let mut c = base_cli();
    c.threads = Some(3);
    assert_eq!(c.thread_pool_size(), 3);
    c.threads = None;
    assert!(c.thread_pool_size() >= 1);
}
