use pcp::bytesize::{ByteSize, ByteUnit};
use pcp::config::{Cli, OverwriteMode, Verification};
use pcp::ledger::RetryLedger;
use pcp::orchestrator::{retry_decision, RetryDecision};
use pcp::progress::CompletionTracker;
use pcp::records::Progress;
use pcp::unit::{copy_step, overwrite_gate, transfer, verify_contents, FsFile, Outcome};

fn cli(overwrite: OverwriteMode, use_progress: bool, verify: bool, retries: u8) -> Cli {
    Cli {
        source: b"/src".to_vec(),
        destinations: vec![b"/dst".to_vec()],
        purge: false,
        overwrite,
        move_files: false,
        threads: None,
        buf_size: ByteSize { value: 16, unit: ByteUnit::B },
        absolute_paths: false,
        use_progress,
        verification: Verification { verify, verify_retries: retries },
    }
}

fn src_file(len: usize) -> FsFile {
    let data: Vec<u8> = (0..len).map(|i| (i % 251) as u8).collect();
    FsFile { data, mtime: 1111, atime: 2222 }
}

#[test]
fn verify_contents_compares_in_lock_step() {
    let a = vec![1u8, 2, 3, 4, 5, 6, 7];
    let mut b = a.clone();
    for buf in [1usize, 2, 3, 7, 100] {
        assert!(verify_contents(&a, &b, buf));
    }
    b[6] = 0;
    for buf in [1usize, 2, 3, 7, 100] {
        assert!(!verify_contents(&a, &b, buf));
    }
    // one side ends while the other still has data
    assert!(!verify_contents(&a, &vec![1u8, 2, 3], 4));
    assert!(!verify_contents(&vec![1u8, 2, 3], &a, 4));
    assert!(verify_contents(&Vec::new(), &Vec::new(), 1));
}

#[test]
fn overwrite_gate_policies() {
    // no destination: every policy proceeds
    assert!(overwrite_gate(OverwriteMode::Never, false, None, 10));
    assert!(overwrite_gate(OverwriteMode::SizeDiffers, false, None, 10));
    assert!(overwrite_gate(OverwriteMode::Always, false, None, 10));
    // an existing destination: Never yields whatever the sizes
    assert!(!overwrite_gate(OverwriteMode::Never, false, Some(10), 10));
    assert!(!overwrite_gate(OverwriteMode::Never, false, Some(3), 10));
    // SizeDiffers yields exactly when the sizes match
    assert!(!overwrite_gate(OverwriteMode::SizeDiffers, false, Some(10), 10));
    assert!(overwrite_gate(OverwriteMode::SizeDiffers, false, Some(3), 10));
    // Always never yields
    assert!(overwrite_gate(OverwriteMode::Always, false, Some(10), 10));
    // no skipping when progress records are in use
    assert!(overwrite_gate(OverwriteMode::Never, true, Some(10), 10));
    assert!(overwrite_gate(OverwriteMode::SizeDiffers, true, Some(10), 10));
}

#[test]
fn never_skips_existing_destination_with_different_content() {
    let c = cli(OverwriteMode::Never, false, false, 0);
    let src = src_file(50);
    let old = FsFile { data: vec![9u8; 50], mtime: 7, atime: 8 };
    let mut dest = Some(old);
    let mut tracker = CompletionTracker::open(false);
    let mut ledger = RetryLedger::new();
    let o = transfer(&c, &src, b"/src/f", b"f", &mut dest, &mut tracker, &mut ledger);
    assert_eq!(o, Outcome::Skipped);
    let kept = dest.unwrap();
    assert_eq!(kept.data, vec![9u8; 50]);
    assert_eq!(kept.mtime, 7);
}

#[test]
fn size_differs_skips_only_on_equal_size() {
    // equal size, different bytes: the documented, if surprising, skip
    let c = cli(OverwriteMode::SizeDiffers, false, false, 0);
    let src = src_file(50);
    let mut dest = Some(FsFile { data: vec![9u8; 50], mtime: 7, atime: 8 });
    let mut tracker = CompletionTracker::open(false);
    let mut ledger = RetryLedger::new();
    let o = transfer(&c, &src, b"/src/f", b"f", &mut dest, &mut tracker, &mut ledger);
    assert_eq!(o, Outcome::Skipped);
    assert_eq!(dest.unwrap().data, vec![9u8; 50]);

    // a differing size is rewritten
    let mut dest = Some(FsFile { data: vec![9u8; 49], mtime: 7, atime: 8 });
    let mut tracker = CompletionTracker::open(false);
    let o = transfer(&c, &src, b"/src/f", b"f", &mut dest, &mut tracker, &mut ledger);
    assert_eq!(o, Outcome::Copied);
    assert_eq!(dest.unwrap().data, src.data);
}

#[test]
fn always_rewrites_unconditionally() {
    let c = cli(OverwriteMode::Always, false, false, 0);
    let src = src_file(50);
    let mut dest = Some(FsFile { data: vec![9u8; 50], mtime: 7, atime: 8 });
    let mut tracker = CompletionTracker::open(false);
    let mut ledger = RetryLedger::new();
    let o = transfer(&c, &src, b"/src/f", b"f", &mut dest, &mut tracker, &mut ledger);
    assert_eq!(o, Outcome::Copied);
    assert_eq!(dest.unwrap().data, src.data);
}

#[test]
fn plain_copy_round_trips_bytes_and_times() {
    let c = cli(OverwriteMode::Never, false, false, 0);
    let src = src_file(1000);
    let mut dest = None;
    let mut tracker = CompletionTracker::open(false);
    let mut ledger = RetryLedger::new();
    let o = transfer(&c, &src, b"/src/f", b"f", &mut dest, &mut tracker, &mut ledger);
    assert_eq!(o, Outcome::Copied);
    let d = dest.unwrap();
    assert_eq!(d.data, src.data);
    assert_eq!(d.mtime, src.mtime);
    assert_eq!(d.atime, src.atime);
    assert_eq!(ledger.len(), 0);
}

#[test]
fn empty_source_copies_to_empty_destination() {
    let c = cli(OverwriteMode::Never, false, false, 0);
    let src = FsFile { data: Vec::new(), mtime: 3, atime: 4 };
    let mut dest = None;
    let mut tracker = CompletionTracker::open(false);
    let mut ledger = RetryLedger::new();
    let o = transfer(&c, &src, b"/src/empty", b"empty", &mut dest, &mut tracker, &mut ledger);
    assert_eq!(o, Outcome::Copied);
    let d = dest.unwrap();
    assert!(d.data.is_empty());
    assert_eq!(d.mtime, 3);
    assert_eq!(d.atime, 4);
}

#[test]
fn truncating_copy_discards_a_longer_stale_destination() {
    // without progress tracking the destination is truncated, so no
    // stale tail survives a rewrite by a shorter source
    let c = cli(OverwriteMode::Always, false, true, 0);
    let src = src_file(40);
    let mut dest = Some(FsFile { data: vec![5u8; 60], mtime: 0, atime: 0 });
    let mut tracker = CompletionTracker::open(false);
    let mut ledger = RetryLedger::new();
    let o = transfer(&c, &src, b"/src/f", b"f", &mut dest, &mut tracker, &mut ledger);
    assert_eq!(o, Outcome::CopiedAndVerified);
    assert_eq!(dest.unwrap().data, src.data);
    assert_eq!(ledger.len(), 0);
}

#[test]
fn interrupted_copy_resumes_at_confirmed_offset() {
    let src = src_file(100);
    let mut tracker = CompletionTracker::open(true);
    let mut dest_data: Vec<u8> = Vec::new();

    // a first run confirms two chunks, then dies
    let p = tracker.add_progress_file(b"f", 100).unwrap().unwrap();
    assert_eq!(p, Progress { current: 0, total: 100 });
    let done = copy_step(&src.data, &mut dest_data, &mut tracker, b"f", 0, 16);
    let done = copy_step(&src.data, &mut dest_data, &mut tracker, b"f", done, 16);
    assert_eq!(done, 32);
    assert_eq!(tracker.get_progress(b"f"), Some(Progress { current: 32, total: 100 }));
    assert_eq!(&dest_data[..32], &src.data[..32]);

    // the next run resumes from the durably confirmed offset
    let c = cli(OverwriteMode::Never, true, false, 0);
    let mut dest = Some(FsFile { data: dest_data, mtime: 0, atime: 0 });
    let mut ledger = RetryLedger::new();
    let p = tracker.add_progress_file(b"f", 100).unwrap().unwrap();
    assert_eq!(p.current, 32);
    let o = transfer(&c, &src, b"/src/f", b"f", &mut dest, &mut tracker, &mut ledger);
    assert_eq!(o, Outcome::Copied);
    let d = dest.unwrap();
    // byte-identical to an uninterrupted copy
    assert_eq!(d.data, src.data);
    assert_eq!(d.mtime, src.mtime);
    // the live record is gone and the file is completed
    assert_eq!(tracker.get_progress(b"f"), None);
    assert!(tracker.is_completed(b"f"));
}

#[test]
fn resume_size_mismatch_aborts_the_file() {
    let mut tracker = CompletionTracker::open(true);
    tracker.add_progress_file(b"f", 100).unwrap();
    tracker.write_progress(b"f", 48).unwrap();

    // the source changed size since the record was written
    let src = src_file(64);
    let c = cli(OverwriteMode::Never, true, false, 0);
    let mut dest = Some(FsFile { data: vec![0u8; 48], mtime: 0, atime: 0 });
    let mut ledger = RetryLedger::new();
    let o = transfer(&c, &src, b"/src/f", b"f", &mut dest, &mut tracker, &mut ledger);
    assert_eq!(o, Outcome::Error);
    // nothing was copied and the record survived untouched
    assert_eq!(dest.unwrap().data, vec![0u8; 48]);
    assert_eq!(tracker.get_progress(b"f"), Some(Progress { current: 48, total: 100 }));
}

#[test]
fn verification_divergence_fills_the_ledger() {
    // resumable tracking keeps a stale longer destination, so the copy
    // leaves a tail behind and verification catches it
    let c = cli(OverwriteMode::Always, true, true, 0);
    let src = src_file(40);
    let mut dest = Some(FsFile { data: vec![5u8; 60], mtime: 0, atime: 0 });
    let mut tracker = CompletionTracker::open(true);
    let mut ledger = RetryLedger::new();
    let o = transfer(&c, &src, b"/src/f", b"f", &mut dest, &mut tracker, &mut ledger);
    assert_eq!(o, Outcome::FailedVerification);
    // the destination is left as written, not deleted
    let d = dest.unwrap();
    assert_eq!(&d.data[..40], &src.data[..]);
    assert_eq!(d.data.len(), 60);
    // the source path is in the ledger; the file is not completed
    assert!(ledger.contains(b"/src/f"));
    assert!(!tracker.is_completed(b"f"));
}

#[test]
fn scenario_single_file_with_verification() {
    // one 10 MiB source file, empty destination, 1 MiB buffer,
    // verification on with one retry allowed
    let c = Cli {
        source: b"a".to_vec(),
        destinations: vec![b"dest".to_vec()],
        purge: false,
        overwrite: OverwriteMode::Never,
        move_files: false,
        threads: None,
        buf_size: ByteSize { value: 1, unit: ByteUnit::MiB },
        absolute_paths: false,
        use_progress: true,
        verification: Verification { verify: true, verify_retries: 1 },
    };
    let src = FsFile { data: vec![42u8; 10 * 1024 * 1024], mtime: 99, atime: 98 };
    let mut dest = None;
    let mut tracker = CompletionTracker::open(true);
    let mut ledger = RetryLedger::new();
    let o = transfer(&c, &src, b"a/1.bin", b"a/1.bin", &mut dest, &mut tracker, &mut ledger);
    // the copy lands and the verification pass succeeds
    assert_eq!(o, Outcome::CopiedAndVerified);
    assert_eq!(dest.unwrap().data, src.data);
    // the completed log holds the file
    assert!(tracker.is_completed(b"a/1.bin"));
    // no retry round is executed
    assert_eq!(ledger.len(), 0);
    assert_eq!(
        retry_decision(c.verification.verify, ledger.len(), c.verification.verify_retries),
        RetryDecision::Done
    );
    // teardown removes the durable state
    tracker.remove();
    assert!(!tracker.is_completed(b"a/1.bin"));
}
