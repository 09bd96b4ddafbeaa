//! The per-destination progress store.
//!
//! One store serves one destination root. It holds the completed set —
//! relative destination paths already fully transferred, appended to as
//! files finish — and the live progress table: one durable record per
//! in-flight file. The two are disjoint: a path stands in at most one.

use vstd::prelude::*;

use crate::log::{log_entry_ok, spec_parse_log, parse_completed_log};
use crate::paths::{bytes_eq, spec_join};
use crate::records::Progress;

verus! {

/// The reserved subdirectory's name, also the record extension.
pub open spec fn spec_progress_dir_name() -> Seq<u8> {
    seq![46u8, 112u8, 99u8, 112u8]
}

/// The completed log's file name inside the reserved subdirectory.
pub open spec fn spec_completed_log_name() -> Seq<u8> {
    seq![
        46u8,
        112u8,
        99u8,
        112u8,
        45u8,
        99u8,
        111u8,
        109u8,
        112u8,
        108u8,
        101u8,
        116u8,
        101u8,
        100u8,
        46u8,
        112u8,
        99u8,
        112u8,
    ]
}

/// Why a store operation failed.
#[derive(Debug, Clone, Copy, PartialEq, Eq, Structural)]
pub enum TrackerError {
    /// A persisted record's total disagrees with the freshly observed
    /// source size: fatal for that file, never silently resized.
    ResumeMismatch,
    /// No live record exists for the path.
    NoSuchRecord,
}

/// The live progress table as a map from relative path to record.
pub open spec fn live_map_of(s: Seq<(Vec<u8>, Progress)>) -> Map<Seq<u8>, Progress>
    decreases s.len(),
{
    if s.len() == 0 {
        Map::<Seq<u8>, Progress>::empty()
    } else {
        live_map_of(s.drop_last()).insert(s.last().0@, s.last().1)
    }
}

/// No two live entries share a path.
pub open spec fn keys_unique(s: Seq<(Vec<u8>, Progress)>) -> bool {
    forall|i: int, j: int| 0 <= i < j < s.len() ==> (#[trigger] s[i]).0@ != (#[trigger] s[j]).0@
}

/// A key is in the table's map exactly when some entry carries it.
pub proof fn lemma_live_map_key(s: Seq<(Vec<u8>, Progress)>, k: Seq<u8>)
    ensures
        live_map_of(s).contains_key(k) <==> exists|i: int|
            0 <= i < s.len() && (#[trigger] s[i]).0@ == k,
    decreases s.len(),
{
    if s.len() > 0 {
        lemma_live_map_key(s.drop_last(), k);
        if live_map_of(s).contains_key(k) && s.last().0@ != k {
            let i = choose|i: int| 0 <= i < s.drop_last().len() && (#[trigger] s.drop_last()[i]).0@ == k;
            assert(s[i].0@ == k);
        }
        if exists|i: int| 0 <= i < s.len() && (#[trigger] s[i]).0@ == k {
            let i = choose|i: int| 0 <= i < s.len() && (#[trigger] s[i]).0@ == k;
            if i < s.len() - 1 {
                assert(s.drop_last()[i].0@ == k);
            }
        }
    }
}

/// With unique keys, the map reads each entry's record at its path.
pub proof fn lemma_live_map_at(s: Seq<(Vec<u8>, Progress)>, i: int)
    requires
        keys_unique(s),
        0 <= i < s.len(),
    ensures
        live_map_of(s).contains_key(s[i].0@),
        live_map_of(s)[s[i].0@] == s[i].1,
    decreases s.len(),
{
    lemma_live_map_key(s, s[i].0@);
    if i < s.len() - 1 {
        assert(s.last().0@ != s[i].0@);
        assert(s.drop_last()[i] == s[i]);
        assert(keys_unique(s.drop_last())) by {
            assert(forall|a: int, b: int|
                0 <= a < b < s.drop_last().len() ==> (#[trigger] s.drop_last()[a]).0@ != (
                #[trigger] s.drop_last()[b]).0@) by {
                assert(forall|a: int|
                    0 <= a < s.drop_last().len() ==> #[trigger] s.drop_last()[a] == s[a]);
            }
        }
        lemma_live_map_at(s.drop_last(), i);
    }
}

/// Appending a fresh path inserts it into the map.
pub proof fn lemma_live_map_push(s: Seq<(Vec<u8>, Progress)>, e: (Vec<u8>, Progress))
    ensures
        live_map_of(s.push(e)) == live_map_of(s).insert(e.0@, e.1),
{
    assert(s.push(e).drop_last() =~= s);
    assert(s.push(e).last() == e);
}

/// Removing one entry removes its path from the map.
pub proof fn lemma_live_map_remove(s: Seq<(Vec<u8>, Progress)>, i: int)
    requires
        keys_unique(s),
        0 <= i < s.len(),
    ensures
        live_map_of(s.remove(i)) == live_map_of(s).remove(s[i].0@),
    decreases s.len(),
{
    let t = s.remove(i);
    lemma_live_map_key(s.drop_last(), s[i].0@);
    if i == s.len() - 1 {
        assert(t =~= s.drop_last());
        assert(!live_map_of(s.drop_last()).contains_key(s[i].0@)) by {
            if live_map_of(s.drop_last()).contains_key(s[i].0@) {
                let j = choose|j: int|
                    0 <= j < s.drop_last().len() && (#[trigger] s.drop_last()[j]).0@ == s[i].0@;
                assert(s[j].0@ == s[i].0@);
            }
        }
        assert(live_map_of(t) =~= live_map_of(s).remove(s[i].0@));
    } else {
        assert(t.drop_last() =~= s.drop_last().remove(i));
        assert(t.last() == s.last());
        assert(s.drop_last()[i] == s[i]);
        assert(keys_unique(s.drop_last())) by {
            assert(forall|a: int|
                0 <= a < s.drop_last().len() ==> #[trigger] s.drop_last()[a] == s[a]);
        }
        lemma_live_map_remove(s.drop_last(), i);
        assert(s[i].0@ != s.last().0@);
        assert(live_map_of(t) =~= live_map_of(s).remove(s[i].0@));
    }
}

/// The progress store for one destination root. When disabled, every
/// operation is a no-op and every copy starts at offset zero.
pub struct CompletionTracker {
    pub enabled: bool,
    pub completed: Vec<Vec<u8>>,
    pub live: Vec<(Vec<u8>, Progress)>,
}

impl CompletionTracker {
    /// The live table as a map from relative path to record.
    pub open spec fn live_map(self) -> Map<Seq<u8>, Progress> {
        live_map_of(self.live@)
    }

    /// The completed set holds this relative path.
    pub open spec fn spec_completed_contains(self, rel: Seq<u8>) -> bool {
        exists|i: int| 0 <= i < self.completed@.len() && (#[trigger] self.completed@[i])@ == rel
    }

    /// The live table holds this relative path.
    pub open spec fn spec_live_contains(self, rel: Seq<u8>) -> bool {
        exists|i: int| 0 <= i < self.live@.len() && (#[trigger] self.live@[i]).0@ == rel
    }

    /// The store's invariant: live paths are unique, every confirmed
    /// offset is within its total, each logged path is a fit log entry,
    /// the completed set and the live table are disjoint, and a disabled
    /// store is empty.
    pub open spec fn wf(self) -> bool {
        &&& keys_unique(self.live@)
        &&& forall|i: int|
            0 <= i < self.live@.len() ==> (#[trigger] self.live@[i]).1.current
                <= self.live@[i].1.total
        &&& forall|i: int| 0 <= i < self.completed@.len() ==> log_entry_ok((#[trigger] self.completed@[i])@)
        &&& forall|i: int, j: int|
            0 <= i < self.completed@.len() && 0 <= j < self.live@.len() ==> (
            #[trigger] self.completed@[i])@ != (#[trigger] self.live@[j]).0@
        &&& (!self.enabled ==> self.completed@.len() == 0 && self.live@.len() == 0)
    }

    /// Opens a fresh store; a disabled one stays empty forever.
    pub fn open(enabled: bool) -> (t: CompletionTracker)
        ensures
            t.wf(),
            t.enabled == enabled,
            t.completed@.len() == 0,
            t.live@.len() == 0,
    {
        CompletionTracker { enabled, completed: Vec::new(), live: Vec::new() }
    }

    /// Loads the completed set from the completed log's bytes, read once
    /// at startup before any transfer begins.
    pub fn read(&mut self, log_bytes: &[u8])
        requires
            old(self).wf(),
            old(self).live@.len() == 0,
            old(self).enabled ==> forall|i: int|
                0 <= i < spec_parse_log(log_bytes@).len() ==> log_entry_ok(
                    #[trigger] spec_parse_log(log_bytes@)[i],
                ),
        ensures
            final(self).wf(),
            final(self).enabled == old(self).enabled,
            final(self).live == old(self).live,
            final(self).completed.deep_view() == if old(self).enabled {
                spec_parse_log(log_bytes@)
            } else {
                Seq::<Seq<u8>>::empty()
            },
    {
        if !self.enabled {
            return ;
        }
        let entries = parse_completed_log(log_bytes);
        self.completed = entries;
        proof {
            assert(forall|i: int|
                0 <= i < self.completed@.len() ==> (#[trigger] self.completed@[i])@
                    == self.completed.deep_view()[i]);
        }
    }

    /// Whether a file already finished in an earlier run, used to filter
    /// the work list before dispatch.
    pub fn is_completed(&self, rel: &[u8]) -> (r: bool)
        ensures
            r == self.spec_completed_contains(rel@),
    {
        let mut i: usize = 0;
        while i < self.completed.len()
            invariant
                0 <= i <= self.completed@.len(),
                forall|j: int| 0 <= j < i ==> (#[trigger] self.completed@[j])@ != rel@,
            decreases self.completed@.len() - i,
        {
            if bytes_eq(self.completed[i].as_slice(), rel) {
                return true;
            }
            i = i + 1;
        }
        false
    }

    /// The index of a live record, if one exists.
    fn find_live(&self, rel: &[u8]) -> (r: Option<usize>)
        ensures
            match r {
                Some(i) => i < self.live@.len() && self.live@[i as int].0@ == rel@,
                None => !self.spec_live_contains(rel@),
            },
    {
        let mut i: usize = 0;
        while i < self.live.len()
            invariant
                0 <= i <= self.live@.len(),
                forall|j: int| 0 <= j < i ==> (#[trigger] self.live@[j]).0@ != rel@,
            decreases self.live@.len() - i,
        {
            if bytes_eq(self.live[i].0.as_slice(), rel) {
                return Some(i);
            }
            i = i + 1;
        }
        None
    }

    /// Reads one file's live record, if any.
    pub fn get_progress(&self, rel: &[u8]) -> (r: Option<Progress>)
        requires
            self.wf(),
        ensures
            match r {
                Some(p) => self.spec_live_contains(rel@) && p == self.live_map()[rel@],
                None => !self.spec_live_contains(rel@),
            },
    {
        match self.find_live(rel) {
            Some(i) => {
                proof {
                    lemma_live_map_at(self.live@, i as int);
                }
                Some(self.live[i].1)
            },
            None => None,
        }
    }

    /// Marks a file fully transferred: appends it durably to the
    /// completed set. Its live record must already be gone.
    pub fn add_completed(&mut self, rel: &[u8])
        requires
            old(self).wf(),
            log_entry_ok(rel@),
            !old(self).spec_live_contains(rel@),
        ensures
            final(self).wf(),
            final(self).enabled == old(self).enabled,
            final(self).live == old(self).live,
            final(self).completed@.map_values(|v: Vec<u8>| v@) == if old(self).enabled {
                old(self).completed@.map_values(|v: Vec<u8>| v@).push(rel@)
            } else {
                old(self).completed@.map_values(|v: Vec<u8>| v@)
            },
    {
        if !self.enabled {
            assert(self.completed@.map_values(|v: Vec<u8>| v@) =~= old(self).completed@.map_values(
                |v: Vec<u8>| v@));
            return ;
        }
        let mut entry: Vec<u8> = Vec::new();
        let mut i: usize = 0;
        while i < rel.len()
            invariant
                0 <= i <= rel@.len(),
                entry@ == rel@.take(i as int),
            decreases rel@.len() - i,
        {
            entry.push(rel[i]);
            assert(entry@ =~= rel@.take(i + 1));
            i = i + 1;
        }
        assert(entry@ =~= rel@);
        self.completed.push(entry);
        proof {
            assert(self.completed@.map_values(|v: Vec<u8>| v@) =~= old(self).completed@.map_values(
                |v: Vec<u8>| v@).push(rel@));
            assert(forall|j: int|
                0 <= j < self.completed@.len() - 1 ==> #[trigger] self.completed@[j] == old(
                    self,
                ).completed@[j]);
        }
    }

    /// Begins or resumes tracking one file. Disabled stores report
    /// nothing. A fresh file gets a durable record at offset zero; a file
    /// with a persisted record is handed that record for resume — unless
    /// the record's total disagrees with the freshly observed size, which
    /// is fatal for that file and changes nothing.
    pub fn add_progress_file(&mut self, rel: &[u8], total_bytes: u64) -> (r: Result<
        Option<Progress>,
        TrackerError,
    >)
        requires
            old(self).wf(),
            !old(self).spec_completed_contains(rel@),
        ensures
            final(self).wf(),
            final(self).enabled == old(self).enabled,
            final(self).completed == old(self).completed,
            match r {
                Ok(None) => !old(self).enabled && *final(self) == *old(self),
                Ok(Some(p)) => {
                    &&& old(self).enabled
                    &&& p.total == total_bytes
                    &&& final(self).live_map() == old(self).live_map().insert(rel@, p)
                    &&& (old(self).spec_live_contains(rel@) ==> old(self).live_map()[rel@] == p)
                    &&& (!old(self).spec_live_contains(rel@) ==> p == (Progress {
                        current: 0,
                        total: total_bytes,
                    }))
                    &&& final(self).spec_live_contains(rel@)
                },
                Err(e) => {
                    &&& e == TrackerError::ResumeMismatch
                    &&& *final(self) == *old(self)
                    &&& old(self).spec_live_contains(rel@)
                    &&& old(self).live_map()[rel@].total != total_bytes
                },
            },
    {
        if !self.enabled {
            return Ok(None);
        }
        match self.find_live(rel) {
            Some(i) => {
                let p = self.live[i].1;
                proof {
                    lemma_live_map_at(self.live@, i as int);
                }
                if p.total != total_bytes {
                    Err(TrackerError::ResumeMismatch)
                } else {
                    proof {
                        assert(self.live_map().insert(rel@, p) =~= self.live_map());
                    }
                    Ok(Some(p))
                }
            },
            None => {
                let p = Progress { current: 0, total: total_bytes };
                let mut key: Vec<u8> = Vec::new();
                let mut i: usize = 0;
                while i < rel.len()
                    invariant
                        0 <= i <= rel@.len(),
                        key@ == rel@.take(i as int),
                    decreases rel@.len() - i,
                {
                    key.push(rel[i]);
                    assert(key@ =~= rel@.take(i + 1));
                    i = i + 1;
                }
                assert(key@ =~= rel@);
                proof {
                    lemma_live_map_push(self.live@, (key, p));
                }
                self.live.push((key, p));
                proof {
                    assert(forall|j: int|
                        0 <= j < self.live@.len() - 1 ==> #[trigger] self.live@[j] == old(
                            self,
                        ).live@[j]);
                    assert(self.live@[self.live@.len() - 1].0@ == rel@);
                }
                Ok(Some(p))
            },
        }
    }

    /// Durably rewrites one live record's confirmed offset. The offset
    /// never moves backwards and never passes the total.
    pub fn write_progress(&mut self, rel: &[u8], current_bytes: u64) -> (r: Result<
        (),
        TrackerError,
    >)
        requires
            old(self).wf(),
            old(self).enabled && old(self).spec_live_contains(rel@) ==> old(self).live_map()[rel@].current
                <= current_bytes <= old(self).live_map()[rel@].total,
        ensures
            final(self).wf(),
            final(self).enabled == old(self).enabled,
            final(self).completed == old(self).completed,
            match r {
                Ok(()) => if old(self).enabled {
                    &&& old(self).spec_live_contains(rel@)
                    &&& final(self).live_map() == old(self).live_map().insert(
                        rel@,
                        Progress {
                            current: current_bytes,
                            total: old(self).live_map()[rel@].total,
                        },
                    )
                } else {
                    *final(self) == *old(self)
                },
                Err(e) => {
                    &&& e == TrackerError::NoSuchRecord
                    &&& *final(self) == *old(self)
                    &&& old(self).enabled
                    &&& !old(self).spec_live_contains(rel@)
                },
            },
    {
        if !self.enabled {
            return Ok(());
        }
        match self.find_live(rel) {
            Some(i) => {
                proof {
                    lemma_live_map_at(self.live@, i as int);
                    lemma_live_map_remove(self.live@, i as int);
                }
                let ghost prev = self.live@;
                let entry = self.live.remove(i);
                let total = entry.1.total;
                proof {
                    assert(self.live@ =~= prev.remove(i as int));
                    assert(forall|a: int|
                        0 <= a < self.live@.len() ==> #[trigger] self.live@[a] == if a < i as int {
                            prev[a]
                        } else {
                            prev[a + 1]
                        });
                    assert(keys_unique(self.live@));
                    assert(forall|a: int| 0 <= a < self.live@.len() ==> (#[trigger] self.live@[a]).0@ != rel@);
                    lemma_live_map_push(
                        self.live@,
                        (entry.0, Progress { current: current_bytes, total }),
                    );
                }
                let ghost mid = self.live@;
                self.live.push((entry.0, Progress { current: current_bytes, total }));
                proof {
                    assert(self.live@ == mid.push(
                        (prev[i as int].0, Progress { current: current_bytes, total }),
                    ));
                    assert(live_map_of(self.live@) =~= live_map_of(prev).insert(
                        rel@,
                        Progress { current: current_bytes, total },
                    ));
                    assert(keys_unique(self.live@)) by {
                        assert(forall|a: int|
                            0 <= a < mid.len() ==> (#[trigger] self.live@[a]) == mid[a]);
                        assert(self.live@[self.live@.len() - 1].0@ == rel@);
                    }
                    assert(forall|a: int|
                        0 <= a < mid.len() ==> (#[trigger] mid[a]).1.current <= mid[a].1.total);
                }
                Ok(())
            },
            None => Err(TrackerError::NoSuchRecord),
        }
    }

    /// Deletes one file's live record once the file is fully transferred.
    pub fn remove_progress_file(&mut self, rel: &[u8])
        requires
            old(self).wf(),
        ensures
            final(self).wf(),
            final(self).enabled == old(self).enabled,
            final(self).completed == old(self).completed,
            final(self).live_map() == old(self).live_map().remove(rel@),
            !final(self).spec_live_contains(rel@),
            forall|k: Seq<u8>|
                k != rel@ ==> (final(self).spec_live_contains(k) == old(self).spec_live_contains(
                    k,
                )),
    {
        let ghost prev = self.live@;
        match self.find_live(rel) {
            Some(i) => {
                proof {
                    lemma_live_map_remove(self.live@, i as int);
                }
                self.live.remove(i);
                proof {
                    assert(self.live@ =~= prev.remove(i as int));
                    assert(keys_unique(self.live@)) by {
                        assert(forall|a: int|
                            0 <= a < self.live@.len() ==> #[trigger] self.live@[a] == if a < i as int {
                                prev[a]
                            } else {
                                prev[a + 1]
                            });
                    }
                    assert(!self.spec_live_contains(rel@)) by {
                        lemma_live_map_key(self.live@, rel@);
                        if self.spec_live_contains(rel@) {
                            assert(live_map_of(self.live@).contains_key(rel@));
                        }
                    }
                    assert forall|k: Seq<u8>| k != rel@ implies (self.spec_live_contains(k) == old(
                        self,
                    ).spec_live_contains(k)) by {
                        lemma_live_map_key(self.live@, k);
                        lemma_live_map_key(prev, k);
                        assert(live_map_of(self.live@) == live_map_of(prev).remove(rel@));
                        assert(live_map_of(self.live@).contains_key(k) == live_map_of(
                            prev,
                        ).contains_key(k));
                    }
                }
            },
            None => {
                proof {
                    lemma_live_map_key(self.live@, rel@);
                    assert(!live_map_of(self.live@).contains_key(rel@));
                    assert(self.live_map().remove(rel@) =~= self.live_map());
                }
            },
        }
    }

    /// The name of the reserved subdirectory under a destination root.
    pub fn progress_dir_name() -> (r: Vec<u8>)
        ensures
            r@ == spec_progress_dir_name(),
    {
        let mut v: Vec<u8> = Vec::new();
        v.push(46);
        v.push(112);
        v.push(99);
        v.push(112);
        proof {
            assert(v@ =~= spec_progress_dir_name());
        }
        v
    }

    /// The completed log's path under a destination root.
    pub fn completed_log_path(dest: &[u8]) -> (r: Vec<u8>)
        ensures
            r@ == spec_join(
                spec_join(dest@, spec_progress_dir_name()),
                spec_completed_log_name(),
            ),
    {
        let dir_name = Self::progress_dir_name();
        let dir = crate::paths::join(dest, dir_name.as_slice());
        let mut name: Vec<u8> = Vec::new();
        name.push(46);
        name.push(112);
        name.push(99);
        name.push(112);
        name.push(45);
        name.push(99);
        name.push(111);
        name.push(109);
        name.push(112);
        name.push(108);
        name.push(101);
        name.push(116);
        name.push(101);
        name.push(100);
        name.push(46);
        name.push(112);
        name.push(99);
        name.push(112);
        proof {
            assert(name@ =~= spec_completed_log_name());
        }
        crate::paths::join(dir.as_slice(), name.as_slice())
    }

    /// The path of one file's durable progress record: the file's name
    /// with the record extension, inside the reserved subdirectory.
    pub fn progress_file_path(dest: &[u8], file_name: &[u8]) -> (r: Vec<u8>)
        ensures
            r@ == spec_join(
                spec_join(dest@, spec_progress_dir_name()),
                file_name@ + spec_progress_dir_name(),
            ),
    {
        let dir_name = Self::progress_dir_name();
        let dir = crate::paths::join(dest, dir_name.as_slice());
        let mut name: Vec<u8> = Vec::new();
        let mut i: usize = 0;
        while i < file_name.len()
            invariant
                0 <= i <= file_name@.len(),
                name@ == file_name@.take(i as int),
            decreases file_name@.len() - i,
        {
            name.push(file_name[i]);
            assert(name@ =~= file_name@.take(i + 1));
            i = i + 1;
        }
        name.push(46);
        name.push(112);
        name.push(99);
        name.push(112);
        proof {
            assert(name@ =~= file_name@ + spec_progress_dir_name());
        }
        crate::paths::join(dir.as_slice(), name.as_slice())
    }

    /// Tears the store down at the end of a destination's pass: the
    /// completed log is deleted.
    pub fn remove(&mut self)
        requires
            old(self).wf(),
        ensures
            final(self).wf(),
            final(self).enabled == old(self).enabled,
            final(self).live == old(self).live,
            final(self).completed@.len() == 0,
    {
        self.completed = Vec::new();
    }
}

} // verus!
