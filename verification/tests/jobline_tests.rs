use pcp::jobline::{parse_job_line, trim_bytes, JobLine};
use pcp::paths::{join, strip_prefix};

#[test]
fn job_line_splits_source_and_destinations() {
    match parse_job_line(b"/data/in:/mnt/a:/mnt/b") {
        JobLine::Job(source, destinations) => {
            assert_eq!(source, b"/data/in".to_vec());
            assert_eq!(destinations, vec![b"/mnt/a".to_vec(), b"/mnt/b".to_vec()]);
        }
        other => panic!("expected a job, got {:?}", other),
    }
}

#[test]
fn job_line_trims_fields() {
    match parse_job_line(b"  /data/in : /mnt/a \t") {
        JobLine::Job(source, destinations) => {
            assert_eq!(source, b"/data/in".to_vec());
            assert_eq!(destinations, vec![b"/mnt/a".to_vec()]);
        }
        other => panic!("expected a job, got {:?}", other),
    }
}

#[test]
fn comment_and_blank_lines_are_ignored() {
    assert!(matches!(parse_job_line(b"# a comment"), JobLine::Ignored));
    assert!(matches!(parse_job_line(b"   # indented"), JobLine::Ignored));
    assert!(matches!(parse_job_line(b""), JobLine::Ignored));
    assert!(matches!(parse_job_line(b"  \t "), JobLine::Ignored));
}

#[test]
fn line_without_destination_is_refused() {
    assert!(matches!(
        parse_job_line(b"/only/a/source"),
        JobLine::MissingDestination
    ));
}

#[test]
fn filenames_with_odd_characters_round_trip() {
    // spaces, hashes and dots inside a path survive the batch format
    let src = b"/data/my files/report #3.bin".to_vec();
    let dst = b"/mnt/backup 2".to_vec();
    let mut line = src.clone();
    line.push(b':');
    line.extend_from_slice(&dst);
    match parse_job_line(&line) {
        JobLine::Job(source, destinations) => {
            assert_eq!(source, src);
            assert_eq!(destinations, vec![dst]);
        }
        other => panic!("expected a job, got {:?}", other),
    }
}

#[test]
fn trim_bytes_strips_both_ends_only() {
    assert_eq!(trim_bytes(b"  a b \t"), b"a b".to_vec());
    assert_eq!(trim_bytes(b"ab"), b"ab".to_vec());
    assert_eq!(trim_bytes(b" \t\r\n"), Vec::<u8>::new());
    assert_eq!(trim_bytes(b""), Vec::<u8>::new());
}

#[test]
fn path_helpers() {
    assert_eq!(join(b"/dst", b"a/1.bin"), b"/dst/a/1.bin".to_vec());
    assert_eq!(
        strip_prefix(b"/src/a/1.bin", b"/src"),
        Some(b"a/1.bin".to_vec())
    );
    assert_eq!(strip_prefix(b"/src", b"/src"), Some(Vec::new()));
    assert_eq!(strip_prefix(b"/other/a", b"/src"), None);
    assert_eq!(strip_prefix(b"/srcfoo/a", b"/src"), None);
}

#[test]
fn delimiter_named_files_survive_purge_matching() {
    // a destination file whose relative path holds spaces and a hash is
    // matched against the source list byte for byte
    let source = vec![b"my files/report #3.bin".to_vec()];
    let dest = vec![b"my files/report #3.bin".to_vec(), b"stray".to_vec()];
    let victims = pcp::orchestrator::purge_victims(&source, &dest);
    assert_eq!(victims, vec![b"stray".to_vec()]);
}
