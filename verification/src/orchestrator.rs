//! The decisions of a destination pass: which files still need work,
//! whether a move may rename, when a source file may be deleted, what the
//! retry protocol does after the copy fan-out joins, and which
//! destination files a mirror purge removes.

use vstd::prelude::*;

use crate::ledger::RetryLedger;
use crate::paths::list_contains;
use crate::progress::CompletionTracker;
use crate::unit::{FsFile, Outcome};

verus! {

/// One discovered file: its absolute path and its size at enumeration.
pub struct FileRecord {
    pub path: Vec<u8>,
    pub size: u64,
}

/// What the orchestrator does once the copy fan-out has joined.
#[derive(Debug, Clone, Copy, PartialEq, Eq, Structural)]
pub enum RetryDecision {
    /// The destination is done: verification was off, or nothing failed.
    Done,
    /// Failures remain and no retry budget exists: report every failed
    /// path and stop the run with a failure, a hard stop.
    Abort,
    /// Failures remain and budget exists: run one retry round with
    /// overwriting forced and a fresh ledger.
    Retry,
}

/// The retry protocol after a pass: done when verification was off or
/// nothing failed; a hard stop when failures met an exhausted budget;
/// otherwise exactly one forced retry round. The budget acts as a
/// zero-or-nonzero switch, not as a round count.
pub open spec fn spec_retry_decision(verify: bool, failed: nat, budget: u8) -> RetryDecision {
    if !verify {
        RetryDecision::Done
    } else if failed == 0 {
        RetryDecision::Done
    } else if budget == 0 {
        RetryDecision::Abort
    } else {
        RetryDecision::Retry
    }
}

/// Decides what follows the joined pass.
pub fn retry_decision(verify: bool, failed: usize, budget: u8) -> (r: RetryDecision)
    ensures
        r == spec_retry_decision(verify, failed as nat, budget),
{
    if !verify {
        RetryDecision::Done
    } else if failed == 0 {
        RetryDecision::Done
    } else if budget == 0 {
        RetryDecision::Abort
    } else {
        RetryDecision::Retry
    }
}

/// With verification on and at least one failure, a zero budget is a
/// hard stop and a nonzero budget buys exactly one retry round.
pub proof fn lemma_retry_boundary(failed: nat, budget: u8)
    requires
        failed >= 1,
    ensures
        budget == 0 ==> spec_retry_decision(true, failed, budget) == RetryDecision::Abort,
        budget >= 1 ==> spec_retry_decision(true, failed, budget) == RetryDecision::Retry,
{
}

/// A move tries one atomic rename of the whole tree first, and only
/// when the job has exactly one destination.
pub fn should_attempt_rename(move_files: bool, n_destinations: usize) -> (r: bool)
    ensures
        r == (move_files && n_destinations == 1),
{
    move_files && n_destinations == 1
}

/// After a move's per-file copy, the source may be deleted only if the
/// file is absent from the retry ledger: a file that failed
/// verification must never lose its only remaining copy.
pub fn may_delete_source(ledger: &RetryLedger, path: &[u8]) -> (r: bool)
    ensures
        r == !ledger.view_paths().contains(path@),
{
    !ledger.contains(path)
}

/// A path just pushed into the ledger is in the ledger, so the source
/// file behind a failed verification is never deleted by the move pass.
pub proof fn lemma_failed_file_never_deleted(before: Seq<Seq<u8>>, src_path: Seq<u8>)
    ensures
        before.push(src_path).contains(src_path),
{
    assert(before.push(src_path)[before.len() as int] == src_path);
}

/// The unit confirmed the destination settled: copied, copied and
/// verified, or left alone by the overwrite policy.
pub open spec fn outcome_completed(o: Outcome) -> bool {
    o == Outcome::Copied || o == Outcome::CopiedAndVerified || o == Outcome::Skipped
}

/// The move pass's deletion step for one source file, after its unit
/// ran: the source is deleted exactly when the unit confirmed the
/// destination settled and the file is absent from the retry ledger.
/// A file named in the ledger always keeps its source copy.
pub fn apply_move_deletion(
    src_slot: &mut Option<FsFile>,
    src_path: &[u8],
    outcome: Outcome,
    ledger: &RetryLedger,
)
    ensures
        (*final(src_slot) is None) == (*old(src_slot) is None || (outcome_completed(outcome)
            && !ledger.view_paths().contains(src_path@))),
        !(outcome_completed(outcome) && !ledger.view_paths().contains(src_path@))
            ==> *final(src_slot) == *old(src_slot),
        ledger.view_paths().contains(src_path@) ==> *final(src_slot) == *old(src_slot),
{
    let settled = match outcome {
        Outcome::Copied => true,
        Outcome::CopiedAndVerified => true,
        Outcome::Skipped => true,
        Outcome::FailedVerification => false,
        Outcome::Error => false,
    };
    if settled && may_delete_source(ledger, src_path) {
        *src_slot = None;
    }
}

/// The relative paths, in order, whose transfer has not already
/// completed in an earlier run.
pub open spec fn spec_pending(tracker: CompletionTracker, rels: Seq<Seq<u8>>) -> Seq<Seq<u8>> {
    rels.filter(|p: Seq<u8>| !tracker.spec_completed_contains(p))
}

/// The work list for one destination: the relative paths whose transfer
/// has not already completed in an earlier run.
pub fn filter_pending(rels: &Vec<Vec<u8>>, tracker: &CompletionTracker) -> (r: Vec<Vec<u8>>)
    ensures
        r.deep_view() == spec_pending(*tracker, rels.deep_view()),
{
    let ghost pred = |p: Seq<u8>| !tracker.spec_completed_contains(p);
    let mut r: Vec<Vec<u8>> = Vec::new();
    proof {
        reveal(Seq::filter);
        assert(rels.deep_view().take(0) =~~= Seq::<Seq<u8>>::empty());
        assert(r.deep_view() =~~= rels.deep_view().take(0).filter(pred));
    }
    let mut i: usize = 0;
    while i < rels.len()
        invariant
            0 <= i <= rels@.len(),
            rels.deep_view().len() == rels@.len(),
            r.deep_view() == rels.deep_view().take(i as int).filter(pred),
            pred == (|p: Seq<u8>| !tracker.spec_completed_contains(p)),
        decreases rels@.len() - i,
    {
        let ghost prev = r.deep_view();
        let keep = !tracker.is_completed(rels[i].as_slice());
        if keep {
            let mut item: Vec<u8> = Vec::new();
            let mut k: usize = 0;
            while k < rels[i].len()
                invariant
                    0 <= k <= rels@[i as int]@.len(),
                    i < rels@.len(),
                    item@ == rels@[i as int]@.take(k as int),
                decreases rels@[i as int]@.len() - k,
            {
                item.push(rels[i][k]);
                assert(item@ =~= rels@[i as int]@.take(k + 1));
                k = k + 1;
            }
            assert(item@ =~= rels@[i as int]@);
            r.push(item);
            proof {
                assert(r.deep_view() =~~= prev.push(rels.deep_view()[i as int]));
            }
        }
        proof {
            reveal(Seq::filter);
            assert(rels.deep_view()[i as int] =~= rels@[i as int]@);
            let t = rels.deep_view().take(i + 1);
            assert(t.drop_last() =~~= rels.deep_view().take(i as int));
            assert(t.last() == rels.deep_view()[i as int]);
            assert(r.deep_view() =~~= rels.deep_view().take(i + 1).filter(pred));
        }
        i = i + 1;
    }
    proof {
        assert(rels.deep_view().take(i as int) =~~= rels.deep_view());
    }
    r
}

/// A file once completed is never dispatched again: no path in the
/// work list passes the completed test, so a run repeated after full
/// completion copies nothing.
pub proof fn lemma_no_recopy_after_completion(tracker: CompletionTracker, rels: Seq<Seq<u8>>)
    ensures
        forall|i: int|
            0 <= i < spec_pending(tracker, rels).len() ==> !tracker.spec_completed_contains(
                #[trigger] spec_pending(tracker, rels)[i],
            ),
{
    let pred = |p: Seq<u8>| !tracker.spec_completed_contains(p);
    assert forall|i: int| 0 <= i < spec_pending(tracker, rels).len() implies !tracker
        .spec_completed_contains(#[trigger] spec_pending(tracker, rels)[i]) by {
        Seq::<Seq<u8>>::lemma_filter_pred(rels, pred, i);
    }
}

/// What the mirror purge removes: the destination files, in order, whose
/// relative path is absent from the source list.
pub open spec fn spec_purge(source: Seq<Seq<u8>>, dest: Seq<Seq<u8>>) -> Seq<Seq<u8>> {
    dest.filter(|d: Seq<u8>| !source.contains(d))
}

/// The mirror purge's victims: every destination file whose relative
/// path has no counterpart among the source files discovered before the
/// transfer. The purge never touches the source tree.
pub fn purge_victims(source_rels: &Vec<Vec<u8>>, dest_rels: &Vec<Vec<u8>>) -> (r: Vec<Vec<u8>>)
    ensures
        r.deep_view() == spec_purge(source_rels.deep_view(), dest_rels.deep_view()),
{
    let ghost pred = |d: Seq<u8>| !source_rels.deep_view().contains(d);
    let mut r: Vec<Vec<u8>> = Vec::new();
    proof {
        reveal(Seq::filter);
        assert(dest_rels.deep_view().take(0) =~~= Seq::<Seq<u8>>::empty());
        assert(r.deep_view() =~~= dest_rels.deep_view().take(0).filter(pred));
    }
    let mut i: usize = 0;
    while i < dest_rels.len()
        invariant
            0 <= i <= dest_rels@.len(),
            dest_rels.deep_view().len() == dest_rels@.len(),
            r.deep_view() == dest_rels.deep_view().take(i as int).filter(pred),
            pred == (|d: Seq<u8>| !source_rels.deep_view().contains(d)),
        decreases dest_rels@.len() - i,
    {
        let ghost prev = r.deep_view();
        let present = list_contains(source_rels, dest_rels[i].as_slice());
        proof {
            assert(present == source_rels.deep_view().contains(dest_rels.deep_view()[i as int]))
                by {
                if present {
                    let j = choose|j: int|
                        0 <= j < source_rels@.len() && (#[trigger] source_rels@[j])@
                            == dest_rels@[i as int]@;
                    assert(source_rels.deep_view()[j] =~= (source_rels@[j])@);
                    assert(dest_rels.deep_view()[i as int] =~= dest_rels@[i as int]@);
                    assert(source_rels.deep_view()[j] == dest_rels.deep_view()[i as int]);
                } else {
                    if source_rels.deep_view().contains(dest_rels.deep_view()[i as int]) {
                        let j = choose|j: int|
                            0 <= j < source_rels.deep_view().len()
                                && source_rels.deep_view()[j] == dest_rels.deep_view()[i as int];
                        assert(source_rels.deep_view()[j] =~= (source_rels@[j])@);
                        assert(dest_rels.deep_view()[i as int] =~= dest_rels@[i as int]@);
                        assert((source_rels@[j])@ == dest_rels@[i as int]@);
                    }
                }
            }
        }
        if !present {
            let mut item: Vec<u8> = Vec::new();
            let mut k: usize = 0;
            while k < dest_rels[i].len()
                invariant
                    0 <= k <= dest_rels@[i as int]@.len(),
                    i < dest_rels@.len(),
                    item@ == dest_rels@[i as int]@.take(k as int),
                decreases dest_rels@[i as int]@.len() - k,
            {
                item.push(dest_rels[i][k]);
                assert(item@ =~= dest_rels@[i as int]@.take(k + 1));
                k = k + 1;
            }
            assert(item@ =~= dest_rels@[i as int]@);
            r.push(item);
            proof {
                assert(r.deep_view() =~~= prev.push(dest_rels.deep_view()[i as int]));
            }
        }
        proof {
            reveal(Seq::filter);
            assert(dest_rels.deep_view()[i as int] =~= dest_rels@[i as int]@);
            let t = dest_rels.deep_view().take(i + 1);
            assert(t.drop_last() =~~= dest_rels.deep_view().take(i as int));
            assert(t.last() == dest_rels.deep_view()[i as int]);
            assert(r.deep_view() =~~= dest_rels.deep_view().take(i + 1).filter(pred));
        }
        i = i + 1;
    }
    proof {
        assert(dest_rels.deep_view().take(i as int) =~~= dest_rels.deep_view());
    }
    r
}

/// Purge is exact: every victim is a destination file missing from the
/// source list, and every destination file missing from the source list
/// is a victim.
pub proof fn lemma_purge_correct(source: Seq<Seq<u8>>, dest: Seq<Seq<u8>>)
    ensures
        forall|i: int|
            0 <= i < spec_purge(source, dest).len() ==> dest.contains(
                #[trigger] spec_purge(source, dest)[i],
            ) && !source.contains(spec_purge(source, dest)[i]),
        forall|i: int|
            0 <= i < dest.len() && !source.contains(#[trigger] dest[i]) ==> spec_purge(
                source,
                dest,
            ).contains(dest[i]),
{
    let pred = |d: Seq<u8>| !source.contains(d);
    lemma_filter_members(dest, pred);
    assert forall|i: int| 0 <= i < dest.len() && !source.contains(#[trigger] dest[i]) implies
        spec_purge(source, dest).contains(dest[i]) by {
        Seq::<Seq<u8>>::lemma_filter_contains(dest, pred, i);
    }
}

/// Everything a filter keeps was in the list and satisfies the test.
proof fn lemma_filter_members(s: Seq<Seq<u8>>, pred: spec_fn(Seq<u8>) -> bool)
    ensures
        forall|i: int|
            0 <= i < s.filter(pred).len() ==> {
                let p = #[trigger] s.filter(pred)[i];
                s.contains(p) && pred(p)
            },
    decreases s.len(),
{
    reveal(Seq::filter);
    if s.len() > 0 {
        lemma_filter_members(s.drop_last(), pred);
        assert forall|i: int| 0 <= i < s.filter(pred).len() implies {
            let p = #[trigger] s.filter(pred)[i];
            s.contains(p) && pred(p)
        } by {
            let sub = s.drop_last().filter(pred);
            if i < sub.len() {
                assert(s.filter(pred)[i] == sub[i]);
                let p = sub[i];
                assert(s.drop_last().contains(p) && pred(p));
                let j = choose|j: int| 0 <= j < s.drop_last().len() && s.drop_last()[j] == p;
                assert(s[j] == p);
            } else {
                assert(s.filter(pred)[i] == s.last());
                assert(s[s.len() - 1] == s.last());
            }
        }
    }
}

/// The total size of the discovered files, saturating at the largest
/// representable count.
pub fn calculate_total_size(files: &Vec<FileRecord>) -> (r: u64)
    ensures
        r == if spec_total_size(files@) <= u64::MAX {
            spec_total_size(files@)
        } else {
            u64::MAX as int
        },
{
    let mut acc: u64 = 0;
    let mut i: usize = 0;
    while i < files.len()
        invariant
            0 <= i <= files@.len(),
            acc == if spec_total_size(files@.take(i as int)) <= u64::MAX {
                spec_total_size(files@.take(i as int))
            } else {
                u64::MAX as int
            },
        decreases files@.len() - i,
    {
        proof {
            assert(files@.take(i + 1).drop_last() =~= files@.take(i as int));
            lemma_total_size_nonneg(files@.take(i as int));
        }
        let s = files[i].size;
        if acc > u64::MAX - s {
            acc = u64::MAX;
        } else {
            acc = acc + s;
        }
        i = i + 1;
    }
    proof {
        assert(files@.take(i as int) =~= files@);
    }
    acc
}

/// What the sizes of the discovered files add up to.
pub open spec fn spec_total_size(files: Seq<FileRecord>) -> int
    decreases files.len(),
{
    if files.len() == 0 {
        0
    } else {
        spec_total_size(files.drop_last()) + files.last().size
    }
}

/// A sum of sizes is never negative.
proof fn lemma_total_size_nonneg(files: Seq<FileRecord>)
    ensures
        spec_total_size(files) >= 0,
    decreases files.len(),
{
    if files.len() > 0 {
        lemma_total_size_nonneg(files.drop_last());
    }
}

} // verus!
