use pcp::log::{append_entry, parse_completed_log};
use pcp::progress::{CompletionTracker, TrackerError};
use pcp::records::Progress;

#[test]
fn completed_log_round_trip() {
    let mut log: Vec<u8> = Vec::new();
    append_entry(&mut log, b"a/1.bin");
    append_entry(&mut log, b"a/2.bin");
    append_entry(&mut log, b"b/3.bin");
    let entries = parse_completed_log(&log);
    assert_eq!(
        entries,
        vec![b"a/1.bin".to_vec(), b"a/2.bin".to_vec(), b"b/3.bin".to_vec()]
    );
}

#[test]
fn completed_log_skips_blank_lines_and_keeps_last_unterminated() {
    let entries = parse_completed_log(b"a\n\nb\nc");
    assert_eq!(entries, vec![b"a".to_vec(), b"b".to_vec(), b"c".to_vec()]);
    assert!(parse_completed_log(b"").is_empty());
    assert!(parse_completed_log(b"\n\n").is_empty());
}

#[test]
fn disabled_store_does_nothing() {
    let mut t = CompletionTracker::open(false);
    assert_eq!(t.add_progress_file(b"a", 10), Ok(None));
    assert!(t.write_progress(b"a", 5).is_ok());
    assert!(!t.is_completed(b"a"));
    t.add_completed(b"a");
    assert!(!t.is_completed(b"a"));
}

#[test]
fn fresh_record_then_advance_then_finish() {
    let mut t = CompletionTracker::open(true);
    let p = t.add_progress_file(b"a/1.bin", 100).unwrap().unwrap();
    assert_eq!(p, Progress { current: 0, total: 100 });
    t.write_progress(b"a/1.bin", 40).unwrap();
    assert_eq!(
        t.get_progress(b"a/1.bin"),
        Some(Progress { current: 40, total: 100 })
    );
    t.remove_progress_file(b"a/1.bin");
    assert_eq!(t.get_progress(b"a/1.bin"), None);
    t.add_completed(b"a/1.bin");
    assert!(t.is_completed(b"a/1.bin"));
    assert!(!t.is_completed(b"a/2.bin"));
}

#[test]
fn existing_record_resumes_and_validates_total() {
    let mut t = CompletionTracker::open(true);
    t.add_progress_file(b"f", 100).unwrap();
    t.write_progress(b"f", 64).unwrap();
    // the same observed size resumes at the confirmed offset
    let p = t.add_progress_file(b"f", 100).unwrap().unwrap();
    assert_eq!(p, Progress { current: 64, total: 100 });
    // a disagreeing observed size is fatal for the file
    assert_eq!(t.add_progress_file(b"f", 90), Err(TrackerError::ResumeMismatch));
    // the record survived the refused attempt
    assert_eq!(t.get_progress(b"f"), Some(Progress { current: 64, total: 100 }));
}

#[test]
fn write_progress_without_record_is_refused() {
    let mut t = CompletionTracker::open(true);
    assert_eq!(t.write_progress(b"nope", 1), Err(TrackerError::NoSuchRecord));
}

#[test]
fn read_loads_completed_set_once() {
    let mut t = CompletionTracker::open(true);
    t.read(b"a/1.bin\nb/2.bin\n");
    assert!(t.is_completed(b"a/1.bin"));
    assert!(t.is_completed(b"b/2.bin"));
    assert!(!t.is_completed(b"c/3.bin"));
    // teardown deletes the completed log
    t.remove();
    assert!(!t.is_completed(b"a/1.bin"));
}

#[test]
fn reserved_layout_paths() {
    assert_eq!(
        CompletionTracker::completed_log_path(b"/dst"),
        b"/dst/.pcp/.pcp-completed.pcp".to_vec()
    );
    assert_eq!(
        CompletionTracker::progress_file_path(b"/dst", b"1.bin"),
        b"/dst/.pcp/1.bin.pcp".to_vec()
    );
    assert_eq!(CompletionTracker::progress_dir_name(), b".pcp".to_vec());
}
