//! The transfer unit: one (source file, destination path) pair.
//!
//! The unit evaluates the overwrite gate, streams the remaining bytes in
//! buffer-sized chunks — writing each chunk before durably recording the
//! new confirmed offset, so a crash never reports more than is on disk —
//! propagates timestamps, and optionally verifies the result in lock
//! step. The file contents handled here are in-memory images of what the
//! surrounding process reads and writes on disk.

use vstd::prelude::*;

use crate::config::{Cli, OverwriteMode};
use crate::ledger::RetryLedger;
use crate::log::log_entry_ok;
use crate::progress::{CompletionTracker, TrackerError};
use crate::records::Progress;

verus! {

/// The tail a destination file keeps past a given length: bytes the copy
/// never touches, present only when the file was already longer.
pub open spec fn tail_beyond(file: Seq<u8>, n: int) -> Seq<u8> {
    if file.len() > n {
        file.skip(n)
    } else {
        Seq::<u8>::empty()
    }
}

/// A durable record that can be trusted against a destination image:
/// whenever a live record for the path matches the observed source size,
/// its confirmed offset lies within both files and the destination
/// agrees with the source up to it. The chunk loop keeps this true at
/// every durable point, so a run killed anywhere leaves a state a later
/// run may resume from.
pub open spec fn resume_ok(
    t: CompletionTracker,
    rel: Seq<u8>,
    src: Seq<u8>,
    dest: Seq<u8>,
) -> bool {
    (t.spec_live_contains(rel) && t.live_map()[rel].total == src.len()) ==> {
        let cur = t.live_map()[rel].current as int;
        cur <= src.len() && cur <= dest.len() && dest.take(cur) == src.take(cur)
    }
}

/// What one transfer unit did.
#[derive(Debug, Clone, Copy, PartialEq, Eq, Structural)]
pub enum Outcome {
    /// The overwrite gate left the existing destination alone.
    Skipped,
    /// The bytes were copied; verification was not requested.
    Copied,
    /// The bytes were copied and verified equal.
    CopiedAndVerified,
    /// The copied bytes diverged from the source; the destination is
    /// left as written for the next pass to overwrite.
    FailedVerification,
    /// The unit was aborted: a persisted record's total disagreed with
    /// the observed source size.
    Error,
}

/// A file as the unit sees it: its bytes and its two timestamps.
pub struct FsFile {
    pub data: Vec<u8>,
    pub mtime: i64,
    pub atime: i64,
}

/// Whether the unit may write the destination. When progress records
/// are in use no skip happens, so a half-copied file is taken up once
/// more; without them, `Never` yields to any existing destination,
/// `SizeDiffers` yields exactly when the sizes match, and `Always`
/// never yields.
pub open spec fn spec_gate_proceed(
    mode: OverwriteMode,
    use_progress: bool,
    dest_size: Option<u64>,
    src_size: u64,
) -> bool {
    if use_progress {
        true
    } else {
        match mode {
            OverwriteMode::Always => true,
            OverwriteMode::Never => dest_size is None,
            OverwriteMode::SizeDiffers => match dest_size {
                None => true,
                Some(s) => s != src_size,
            },
        }
    }
}

/// Evaluates the overwrite gate.
pub fn overwrite_gate(
    mode: OverwriteMode,
    use_progress: bool,
    dest_size: Option<u64>,
    src_size: u64,
) -> (r: bool)
    ensures
        r == spec_gate_proceed(mode, use_progress, dest_size, src_size),
{
    if use_progress {
        true
    } else {
        match mode {
            OverwriteMode::Always => true,
            OverwriteMode::Never => match dest_size {
                None => true,
                Some(_) => false,
            },
            OverwriteMode::SizeDiffers => match dest_size {
                None => true,
                Some(s) => s != src_size,
            },
        }
    }
}

/// Compares source and destination in lock step with equal-sized
/// buffers, as the verification pass does. True exactly when the bytes
/// coincide.
pub fn verify_contents(src: &Vec<u8>, dest: &Vec<u8>, buf_size: usize) -> (r: bool)
    requires
        buf_size >= 1,
    ensures
        r == (src@ == dest@),
{
    if src.len() != dest.len() {
        // one side ends while the other still has data
        return false;
    }
    let mut off: usize = 0;
    while off < src.len()
        invariant
            buf_size >= 1,
            0 <= off <= src@.len(),
            src@.len() == dest@.len(),
            forall|j: int| 0 <= j < off ==> src@[j] == dest@[j],
        decreases src@.len() - off,
    {
        let n = if src.len() - off < buf_size {
            src.len() - off
        } else {
            buf_size
        };
        let mut k: usize = 0;
        while k < n
            invariant
                0 <= k <= n,
                off + n <= src@.len() <= usize::MAX,
                src@.len() == dest@.len(),
                forall|j: int| 0 <= j < off + k ==> src@[j] == dest@[j],
            decreases n - k,
        {
            if src[off + k] != dest[off + k] {
                return false;
            }
            k = k + 1;
        }
        off = off + n;
    }
    proof {
        assert(src@ =~= dest@);
    }
    true
}

/// A file's bytes after data lands at an offset, the rest untouched.
pub open spec fn spec_write_at(file: Seq<u8>, off: int, data: Seq<u8>) -> Seq<u8> {
    if off + data.len() >= file.len() {
        file.take(off) + data
    } else {
        file.take(off) + data + file.skip(off + data.len())
    }
}

/// Writes the next chunk: up to a buffer's worth of source bytes, placed
/// at the same offset in the destination.
pub fn write_chunk(src: &Vec<u8>, dest: &mut Vec<u8>, done: usize, buf_size: usize) -> (n: usize)
    requires
        buf_size >= 1,
        done < src.len(),
        done <= old(dest).len(),
    ensures
        n == if src@.len() - done < buf_size {
            src@.len() - done
        } else {
            buf_size as int
        },
        n >= 1,
        done + n <= src@.len(),
        final(dest)@ == spec_write_at(old(dest)@, done as int, src@.subrange(done as int, done + n)),
{
    let n = if src.len() - done < buf_size {
        src.len() - done
    } else {
        buf_size
    };
    let mut i: usize = 0;
    while i < n
        invariant
            0 <= i <= n,
            done + n <= src@.len() <= usize::MAX,
            dest@.len() == if done + i > old(dest)@.len() {
                done + i
            } else {
                old(dest)@.len() as int
            },
            forall|j: int| 0 <= j < done ==> dest@[j] == old(dest)@[j],
            forall|j: int| done <= j < done + i ==> dest@[j] == src@[j],
            forall|j: int| done + i <= j < old(dest)@.len() ==> dest@[j] == old(dest)@[j],
        decreases n - i,
    {
        if done + i < dest.len() {
            dest.set(done + i, src[done + i]);
        } else {
            dest.push(src[done + i]);
        }
        i = i + 1;
    }
    proof {
        assert(dest@ =~= spec_write_at(old(dest)@, done as int, src@.subrange(done as int, done + n as int)));
    }
    n
}

/// The overwrite policy, pinned for every size: `Never` never rewrites
/// an existing destination whatever it holds; `SizeDiffers` yields
/// exactly when the sizes match — equal-sized files of different
/// content included, since only sizes are compared; `Always` rewrites
/// unconditionally.
pub proof fn lemma_overwrite_policy(dest_size: Option<u64>, src_size: u64)
    ensures
        spec_gate_proceed(OverwriteMode::Never, false, dest_size, src_size) == (dest_size is None),
        spec_gate_proceed(OverwriteMode::SizeDiffers, false, dest_size, src_size) == (dest_size
            != Some(src_size)),
        spec_gate_proceed(OverwriteMode::Always, false, dest_size, src_size),
{
}

/// Round trip of a plain copy: a destination opened empty — created, or
/// truncated because progress tracking was off — holds exactly the
/// source's bytes when the unit finishes; the unit also sets its
/// timestamps to the source's.
pub proof fn lemma_copy_round_trip(src: Seq<u8>, opened: Seq<u8>, result: Seq<u8>)
    requires
        opened.len() == 0,
        result == src + tail_beyond(opened, src.len() as int),
    ensures
        result == src,
{
    assert(result =~= src);
}

/// Resume idempotence: a run killed after any number of bytes leaves a
/// destination no longer than the source, so resuming from the durably
/// confirmed offset ends in the same bytes an uninterrupted copy
/// produces — the source's, exactly.
pub proof fn lemma_resume_matches_fresh(
    src: Seq<u8>,
    interrupted: Seq<u8>,
    resumed: Seq<u8>,
    fresh: Seq<u8>,
)
    requires
        interrupted.len() <= src.len(),
        resumed == src + tail_beyond(interrupted, src.len() as int),
        fresh == src + tail_beyond(Seq::<u8>::empty(), src.len() as int),
    ensures
        resumed == fresh,
        resumed == src,
{
    assert(resumed =~= src);
    assert(fresh =~= src);
}

/// One chunk of the resumable copy: writes the next chunk of source
/// bytes into the destination, then durably records the new confirmed
/// offset — in that order, so the record never runs ahead of the data.
pub fn copy_step(
    src: &Vec<u8>,
    dest: &mut Vec<u8>,
    tracker: &mut CompletionTracker,
    rel: &[u8],
    done: usize,
    buf_size: usize,
) -> (new_done: usize)
    requires
        old(tracker).wf(),
        buf_size >= 1,
        done < src@.len(),
        done <= old(dest)@.len(),
        src@.len() <= u64::MAX,
        old(dest)@.take(done as int) == src@.take(done as int),
        old(tracker).enabled ==> old(tracker).spec_live_contains(rel@)
            && old(tracker).live_map()[rel@] == (Progress {
            current: done as u64,
            total: src@.len() as u64,
        }),
    ensures
        final(tracker).wf(),
        final(tracker).enabled == old(tracker).enabled,
        final(tracker).completed == old(tracker).completed,
        done < new_done <= src@.len(),
        new_done == if src@.len() - done < buf_size {
            src@.len() as int
        } else {
            done + buf_size
        },
        final(dest)@.len() == if new_done > old(dest)@.len() {
            new_done as int
        } else {
            old(dest)@.len() as int
        },
        final(dest)@.take(new_done as int) == src@.take(new_done as int),
        forall|j: int| new_done <= j < old(dest)@.len() ==> final(dest)@[j] == old(dest)@[j],
        old(tracker).enabled ==> final(tracker).spec_live_contains(rel@)
            && final(tracker).live_map() == old(tracker).live_map().insert(
            rel@,
            Progress { current: new_done as u64, total: src@.len() as u64 },
        ),
        !old(tracker).enabled ==> *final(tracker) == *old(tracker),
        resume_ok(*old(tracker), rel@, src@, final(dest)@),
        resume_ok(*final(tracker), rel@, src@, final(dest)@),
{
    let srclen = src.len();
    let n = write_chunk(src, dest, done, buf_size);
    let new_done = done + n;
    proof {
        assert(dest@.take(new_done as int) =~= src@.take(new_done as int));
        assert(dest@.take(done as int) =~= src@.take(done as int));
    }
    match tracker.write_progress(rel, new_done as u64) {
        Ok(()) => {},
        Err(_) => {
            proof {
                assert(false);
            }
        },
    }
    proof {
        if old(tracker).enabled {
            crate::progress::lemma_live_map_key(tracker.live@, rel@);
            assert(tracker.live_map().contains_key(rel@));
        }
    }
    new_done
}

/// The resumable chunked copy of one file: begins or resumes its durable
/// record, streams the remaining bytes chunk by chunk, propagates the
/// source's timestamps, and deletes the record. A persisted record whose
/// total disagrees with the observed source size aborts the file
/// untouched rather than guess.
pub fn copy_chunks(
    src: &FsFile,
    dest: &mut FsFile,
    tracker: &mut CompletionTracker,
    rel: &[u8],
    buf_size: usize,
) -> (r: Result<(), TrackerError>)
    requires
        old(tracker).wf(),
        buf_size >= 1,
        src.data@.len() <= u64::MAX,
        !old(tracker).spec_completed_contains(rel@),
        resume_ok(*old(tracker), rel@, src.data@, old(dest).data@),
    ensures
        final(tracker).wf(),
        final(tracker).enabled == old(tracker).enabled,
        final(tracker).completed == old(tracker).completed,
        match r {
            Ok(()) => {
                &&& (old(tracker).spec_live_contains(rel@) ==> old(tracker).live_map()[rel@].total
                    == src.data@.len())
                &&& final(dest).data@ == src.data@ + tail_beyond(
                    old(dest).data@,
                    src.data@.len() as int,
                )
                &&& final(dest).mtime == src.mtime
                &&& final(dest).atime == src.atime
                &&& final(tracker).live_map() == old(tracker).live_map().remove(rel@)
                &&& !final(tracker).spec_live_contains(rel@)
            },
            Err(e) => {
                &&& e == TrackerError::ResumeMismatch
                &&& *final(dest) == *old(dest)
                &&& *final(tracker) == *old(tracker)
                &&& old(tracker).enabled
                &&& old(tracker).spec_live_contains(rel@)
                &&& old(tracker).live_map()[rel@].total != src.data@.len()
            },
        },
{
    let total = src.data.len();
    let start: usize;
    match tracker.add_progress_file(rel, total as u64) {
        Err(_) => {
            return Err(TrackerError::ResumeMismatch);
        },
        Ok(None) => {
            start = 0;
        },
        Ok(Some(p)) => {
            proof {
                if old(tracker).spec_live_contains(rel@) {
                    assert(p.current <= p.total);
                } else {
                    assert(p.current == 0);
                }
            }
            start = p.current as usize;
        },
    }
    let ghost t0 = *tracker;
    let ghost dest0 = dest.data@;
    let ghost base = old(tracker).live_map();
    proof {
        assert(dest.data@.take(start as int) =~= src.data@.take(start as int));
    }
    let mut done: usize = start;
    while done < total
        invariant
            buf_size >= 1,
            total == src.data@.len() <= u64::MAX,
            0 <= done <= total,
            tracker.wf(),
            tracker.enabled == t0.enabled,
            tracker.completed == t0.completed,
            t0.enabled ==> tracker.spec_live_contains(rel@) && tracker.live_map() == base.insert(
                rel@,
                Progress { current: done as u64, total: total as u64 },
            ),
            !t0.enabled ==> *tracker == t0,
            dest.data@.len() == if done > dest0.len() {
                done as int
            } else {
                dest0.len() as int
            },
            dest.data@.take(done as int) == src.data@.take(done as int),
            forall|j: int| total <= j < dest0.len() ==> dest.data@[j] == dest0[j],
            dest.mtime == old(dest).mtime,
            dest.atime == old(dest).atime,
        decreases total - done,
    {
        let ghost before = *tracker;
        let ghost dest_before = dest.data@;
        done = copy_step(&src.data, &mut dest.data, tracker, rel, done, buf_size);
        proof {
            if t0.enabled {
                assert(tracker.live_map() =~= base.insert(
                    rel@,
                    Progress { current: done as u64, total: total as u64 },
                ));
            }
            assert forall|j: int| total <= j < dest0.len() implies dest.data@[j] == dest0[j] by {
                assert(dest.data@[j] == dest_before[j]);
            }
        }
    }
    dest.mtime = src.mtime;
    dest.atime = src.atime;
    tracker.remove_progress_file(rel);
    proof {
        assert(tracker.live_map() =~= old(tracker).live_map().remove(rel@));
        assert(dest.data@ =~= src.data@ + tail_beyond(dest0, src.data@.len() as int)) by {
            assert(forall|j: int| 0 <= j < total ==> dest.data@[j] == src.data@.take(total as int)[j]);
        }
    }
    Ok(())
}

/// What a destination slot holds before the unit runs: the file's bytes,
/// or nothing where no file exists yet.
pub open spec fn spec_dest_size(d: Option<FsFile>) -> Option<u64> {
    match d {
        None => None,
        Some(f) => Some(f.data@.len() as u64),
    }
}

/// The destination bytes the copy starts from: an absent file is
/// created empty, and an existing one is truncated unless resumable
/// progress tracking re-enters it.
pub open spec fn spec_opened_data(d: Option<FsFile>, use_progress: bool) -> Seq<u8> {
    match d {
        None => Seq::<u8>::empty(),
        Some(f) => if use_progress {
            f.data@
        } else {
            Seq::<u8>::empty()
        },
    }
}

/// A persisted record for this path contradicts the observed source
/// size: the unit must abort rather than guess.
pub open spec fn spec_resume_mismatch(t: CompletionTracker, rel: Seq<u8>, src_len: nat) -> bool {
    t.spec_live_contains(rel) && t.live_map()[rel].total != src_len
}

/// Transfers exactly one (source file, destination path) pair: gate,
/// open, resumable chunked copy, timestamp propagation, and optional
/// verification, reporting what happened. A verification divergence
/// leaves the destination as written and records the source path in the
/// retry ledger; it never deletes anything.
pub fn transfer(
    cli: &Cli,
    src: &FsFile,
    src_path: &[u8],
    rel: &[u8],
    dest: &mut Option<FsFile>,
    tracker: &mut CompletionTracker,
    ledger: &mut RetryLedger,
) -> (o: Outcome)
    requires
        old(tracker).wf(),
        old(tracker).enabled == cli.use_progress,
        cli.buf_size.fits(),
        cli.buf_size.spec_bytes() >= 1,
        log_entry_ok(rel@),
        !old(tracker).spec_completed_contains(rel@),
        src.data@.len() <= u64::MAX,
        (match *old(dest) {
            Some(f) => f.data@.len() <= u64::MAX,
            None => true,
        }),
        resume_ok(*old(tracker), rel@, src.data@, spec_opened_data(*old(dest), cli.use_progress)),
    ensures
        final(tracker).wf(),
        final(tracker).enabled == old(tracker).enabled,
        match o {
            Outcome::Skipped => {
                &&& !spec_gate_proceed(
                    cli.overwrite,
                    cli.use_progress,
                    spec_dest_size(*old(dest)),
                    src.data@.len() as u64,
                )
                &&& *final(dest) == *old(dest)
                &&& *final(tracker) == *old(tracker)
                &&& final(ledger).view_paths() == old(ledger).view_paths()
            },
            Outcome::Error => {
                &&& spec_gate_proceed(
                    cli.overwrite,
                    cli.use_progress,
                    spec_dest_size(*old(dest)),
                    src.data@.len() as u64,
                )
                &&& spec_resume_mismatch(*old(tracker), rel@, src.data@.len())
                &&& *final(tracker) == *old(tracker)
                &&& final(ledger).view_paths() == old(ledger).view_paths()
                &&& (match (*old(dest), *final(dest)) {
                    (Some(f0), Some(f1)) => f1.data@ == f0.data@ && f1.mtime == f0.mtime
                        && f1.atime == f0.atime,
                    (None, Some(f1)) => f1.data@.len() == 0,
                    _ => false,
                })
            },
            Outcome::Copied => {
                &&& spec_gate_proceed(
                    cli.overwrite,
                    cli.use_progress,
                    spec_dest_size(*old(dest)),
                    src.data@.len() as u64,
                )
                &&& !spec_resume_mismatch(*old(tracker), rel@, src.data@.len())
                &&& !cli.verification.verify
                &&& (match *final(dest) {
                    Some(f1) => f1.data@ == src.data@ + tail_beyond(
                        spec_opened_data(*old(dest), cli.use_progress),
                        src.data@.len() as int,
                    ) && f1.mtime == src.mtime && f1.atime == src.atime,
                    None => false,
                })
                &&& final(tracker).live_map() == old(tracker).live_map().remove(rel@)
                &&& final(tracker).completed@.map_values(|v: Vec<u8>| v@) == if cli.use_progress {
                    old(tracker).completed@.map_values(|v: Vec<u8>| v@).push(rel@)
                } else {
                    old(tracker).completed@.map_values(|v: Vec<u8>| v@)
                }
                &&& final(ledger).view_paths() == old(ledger).view_paths()
            },
            Outcome::CopiedAndVerified => {
                &&& spec_gate_proceed(
                    cli.overwrite,
                    cli.use_progress,
                    spec_dest_size(*old(dest)),
                    src.data@.len() as u64,
                )
                &&& !spec_resume_mismatch(*old(tracker), rel@, src.data@.len())
                &&& cli.verification.verify
                &&& (match *final(dest) {
                    Some(f1) => f1.data@ == src.data@ && f1.mtime == src.mtime && f1.atime
                        == src.atime,
                    None => false,
                })
                &&& tail_beyond(
                    spec_opened_data(*old(dest), cli.use_progress),
                    src.data@.len() as int,
                ).len() == 0
                &&& final(tracker).live_map() == old(tracker).live_map().remove(rel@)
                &&& final(tracker).completed@.map_values(|v: Vec<u8>| v@) == if cli.use_progress {
                    old(tracker).completed@.map_values(|v: Vec<u8>| v@).push(rel@)
                } else {
                    old(tracker).completed@.map_values(|v: Vec<u8>| v@)
                }
                &&& final(ledger).view_paths() == old(ledger).view_paths()
            },
            Outcome::FailedVerification => {
                &&& spec_gate_proceed(
                    cli.overwrite,
                    cli.use_progress,
                    spec_dest_size(*old(dest)),
                    src.data@.len() as u64,
                )
                &&& !spec_resume_mismatch(*old(tracker), rel@, src.data@.len())
                &&& cli.verification.verify
                &&& tail_beyond(
                    spec_opened_data(*old(dest), cli.use_progress),
                    src.data@.len() as int,
                ).len() > 0
                &&& (match *final(dest) {
                    Some(f1) => f1.data@ == src.data@ + tail_beyond(
                        spec_opened_data(*old(dest), cli.use_progress),
                        src.data@.len() as int,
                    ) && f1.mtime == src.mtime && f1.atime == src.atime,
                    None => false,
                })
                &&& final(tracker).live_map() == old(tracker).live_map().remove(rel@)
                &&& final(tracker).completed == old(tracker).completed
                &&& final(ledger).view_paths() == old(ledger).view_paths().push(src_path@)
            },
        },
{
    let total = src.data.len();
    let dest_size: Option<u64> = match dest {
        None => None,
        Some(f) => Some(f.data.len() as u64),
    };
    let proceed = overwrite_gate(cli.overwrite, cli.use_progress, dest_size, total as u64);
    if !proceed {
        return Outcome::Skipped;
    }
    // open or create the destination, truncating unless progress
    // tracking re-enters an in-flight file
    match dest {
        None => {
            *dest = Some(FsFile { data: Vec::new(), mtime: 0, atime: 0 });
        },
        Some(f) => {
            if !cli.use_progress {
                f.data = Vec::new();
            }
        },
    }
    let buf_size = cli.buf_size.to_bytes();
    match dest {
        Some(f) => {
            proof {
                assert(f.data@ == spec_opened_data(*old(dest), cli.use_progress));
            }
            match copy_chunks(src, f, tracker, rel, buf_size) {
                Err(_) => Outcome::Error,
                Ok(()) => {
                    if cli.verification.verify {
                        if verify_contents(&src.data, &f.data, buf_size) {
                            tracker.add_completed(rel);
                            proof {
                                assert(tail_beyond(
                                    spec_opened_data(*old(dest), cli.use_progress),
                                    src.data@.len() as int,
                                ).len() == 0);
                            }
                            Outcome::CopiedAndVerified
                        } else {
                            ledger.push(src_path);
                            Outcome::FailedVerification
                        }
                    } else {
                        tracker.add_completed(rel);
                        Outcome::Copied
                    }
                },
            }
        },
        None => vstd::pervasive::unreached(),
    }
}

} // verus!

