//! The change sequencer: an ordered, exclusively-writable collection of
//! change records, optionally backed by a durable journal. Record ids are
//! assigned here, start at one, and are gapless; a record becomes visible in
//! memory only after it has been appended to the journal.

use vstd::prelude::*;
use crate::commit_log::{
    CommitLog, frame_fits, image_of, journal_frame, lemma_image_push, torn_frame_start,
    undecodable_frame, views_of,
};
use crate::error::Error;
use crate::server::{Change, ChangeView};

verus! {

/// A durably sequenced record wrapping the changes it accepted.
#[derive(Clone, Debug, PartialEq)]
pub struct Commit {
    pub id: u64,
    pub changes: Vec<Change>,
    pub timestamp: u64,
}

/// Mathematical model of a change record.
#[verifier::ext_equal]
pub struct CommitView {
    pub id: u64,
    pub changes: Seq<ChangeView>,
    pub timestamp: u64,
}

impl View for Commit {
    type V = CommitView;

    open spec fn view(&self) -> CommitView {
        CommitView {
            id: self.id,
            changes: Seq::new(self.changes@.len(), |i: int| self.changes@[i]@),
            timestamp: self.timestamp,
        }
    }
}

impl Commit {
    /// An identical copy.
    pub fn duplicate(&self) -> (r: Commit)
        ensures
            r@ == self@,
    {
        let mut changes: Vec<Change> = Vec::new();
        let n = self.changes.len();
        let mut i: usize = 0;
        while i < n
            invariant
                i <= n,
                n == self.changes@.len(),
                changes@.len() == i,
                forall|k: int| 0 <= k < i ==> #[trigger] changes@[k]@ == self.changes@[k]@,
            decreases n - i,
        {
            changes.push(self.changes[i].duplicate());
            i += 1;
        }
        let r = Commit { id: self.id, changes, timestamp: self.timestamp };
        proof {
            assert(r@ =~= self@);
        }
        r
    }
}


/// The sequencer: an ordered collection of change records with exclusive
/// write access, optionally backed by a journal. A record is appended to
/// the journal before it becomes visible in memory; if the append fails,
/// memory is unchanged.
pub struct CommitStore {
    commits: Vec<Commit>,
    poisoned: bool,
    log: Option<CommitLog>,
}

/// The consistency invariant between memory and durable storage: a store
/// whose journal holds exactly the frames of its records, in order. The
/// in-memory view is never ahead of the journal: a record is framed and
/// appended before it becomes visible.
pub open spec fn journal_synced(s: CommitStore) -> bool {
    s.has_log() ==> s.log_bytes() == image_of(s@)
}

/// Record ids are gapless and start at one.
pub open spec fn ids_wf(v: Seq<CommitView>) -> bool {
    forall|i: int| 0 <= i < v.len() ==> #[trigger] v[i].id == i + 1
}

/// Every record wraps at least one change.
pub open spec fn changes_wf(v: Seq<CommitView>) -> bool {
    forall|i: int| 0 <= i < v.len() ==> #[trigger] v[i].changes.len() > 0
}

/// The id the next accepted record gets.
pub open spec fn next_id(v: Seq<CommitView>) -> int {
    if v.len() == 0 {
        1
    } else {
        v.last().id + 1
    }
}

/// Whether a notice repeats the single change of the most recent record.
/// Such a notice is coalesced into that record rather than resequenced.
pub open spec fn dup_of_latest(v: Seq<CommitView>, c: ChangeView) -> bool {
    v.len() > 0 && v.last().changes == seq![c]
}

/// The position of the first replayed record that is not well formed (id
/// not the gapless next one, or no change wrapped), if any.
fn records_flaw(commits: &Vec<Commit>) -> (r: Option<usize>)
    ensures
        r is None ==> (forall|k: int|
            0 <= k < commits@.len() ==> #[trigger] commits@[k]@.id == k + 1),
        r is None ==> (forall|k: int|
            0 <= k < commits@.len() ==> #[trigger] commits@[k]@.changes.len() > 0),
        r matches Some(i) ==> i < commits@.len() && !(commits@[i as int]@.id == i + 1
            && commits@[i as int]@.changes.len() > 0),
{
    let n = commits.len();
    let mut i: usize = 0;
    while i < n
        invariant
            i <= n,
            n == commits@.len(),
            forall|k: int| 0 <= k < i ==> #[trigger] commits@[k]@.id == k + 1,
            forall|k: int| 0 <= k < i ==> #[trigger] commits@[k]@.changes.len() > 0,
        decreases n - i,
    {
        if commits[i].id != (i as u64) + 1 || commits[i].changes.len() == 0 {
            return Some(i);
        }
        i += 1;
    }
    None
}

impl CommitStore {
    /// The store's model: the records' models, in order.
    pub closed spec fn view(&self) -> Seq<CommitView> {
        views_of(self.commits@)
    }

    /// Whether a prior abnormal termination left the store unusable.
    pub closed spec fn is_poisoned(&self) -> bool {
        self.poisoned
    }

    /// Whether a journal backs the store.
    pub closed spec fn has_log(&self) -> bool {
        self.log is Some
    }

    /// The backing journal's byte image; empty when none is configured.
    pub closed spec fn log_bytes(&self) -> Seq<u8> {
        match self.log {
            Some(l) => l.bytes(),
            None => Seq::empty(),
        }
    }

    /// The capacity of the backing journal's medium, if one is configured
    /// and bounded.
    pub closed spec fn log_capacity(&self) -> Option<usize> {
        match self.log {
            Some(l) => l.capacity(),
            None => None,
        }
    }

    /// Well-formed: ids are gapless from one, and no record's change list
    /// is empty.
    pub open spec fn wf(&self) -> bool {
        ids_wf(self@) && changes_wf(self@)
    }

    /// An empty store without a journal.
    pub fn new() -> (s: Self)
        ensures
            s.wf(),
            s@ == Seq::<CommitView>::empty(),
            !s.is_poisoned(),
            !s.has_log(),
    {
        CommitStore { commits: Vec::new(), poisoned: false, log: None }
    }

    /// An empty store backed by the given (empty or resumed) journal.
    /// The journal's records must already be in memory; use `with_log` to
    /// replay an existing image.
    pub fn with_empty_log(log: CommitLog) -> (s: Self)
        requires
            log.bytes().len() == 0,
        ensures
            s.wf(),
            s@ == Seq::<CommitView>::empty(),
            !s.is_poisoned(),
            s.has_log(),
            s.log_bytes() == log.bytes(),
            s.log_capacity() == log.capacity(),
            journal_synced(s),
    {
        let s = CommitStore { commits: Vec::new(), poisoned: false, log: Some(log) };
        proof {
            assert(s@ =~= Seq::<CommitView>::empty());
            assert(image_of(s@) == Seq::<u8>::empty());
            assert(s.log_bytes() =~= Seq::<u8>::empty());
        }
        s
    }

    /// Replay a journal image and resume appending after it. A torn final
    /// frame (a crashed append) is discarded and reported. For every image
    /// of records followed by such a tail: the store holds exactly the
    /// replayed records and its journal exactly their frames — unless the
    /// records are not well formed (ids gapless from one, each wrapping at
    /// least one change), which is a `Validation` failure. An image ending
    /// in a whole frame that holds no record is corrupt: an `Io` failure,
    /// and no store is built.
    pub fn with_log(log: CommitLog) -> (r: Result<(Self, bool), Error>)
        ensures
            r matches Ok(p) ==> p.0.wf() && !p.0.is_poisoned() && p.0.has_log()
                && p.0.log_capacity() == log.capacity(),
            r matches Err(e) ==> e == Error::Io || e == Error::Validation,
            forall|cs: Seq<Commit>, t: Seq<u8>|
                {
                    &&& log.bytes() == image_of(views_of(cs)) + t
                    &&& (t.len() == 0 || torn_frame_start(t))
                    &&& (forall|k: int| 0 <= k < cs.len() ==> frame_fits(#[trigger] cs[k]@))
                } ==> if forall|k: int|
                    0 <= k < cs.len() ==> (#[trigger] cs[k]@.id == k + 1 && cs[k]@.changes.len()
                        > 0) {
                    r matches Ok(p) && {
                        &&& p.0@ == views_of(cs)
                        &&& p.0.log_bytes() == image_of(views_of(cs))
                        &&& journal_synced(p.0)
                        &&& p.1 == (t.len() > 0)
                    }
                } else {
                    r == Err::<(Self, bool), Error>(Error::Validation)
                },
            forall|cs: Seq<Commit>, t: Seq<u8>|
                {
                    &&& log.bytes() == image_of(views_of(cs)) + t
                    &&& undecodable_frame(t)
                    &&& (forall|k: int| 0 <= k < cs.len() ==> frame_fits(#[trigger] cs[k]@))
                } ==> r == Err::<(Self, bool), Error>(Error::Io),
    {
        let mut log = log;
        let loaded = CommitLog::load(log.raw().as_slice());
        let (commits, clean_len, torn) = match loaded {
            Ok(t) => t,
            Err(e) => {
                return Err(e);
            },
        };
        if let Some(flaw) = records_flaw(&commits) {
            proof {
                let ki = flaw as int;
                assert forall|cs: Seq<Commit>, t: Seq<u8>|
                    {
                        &&& log.bytes() == image_of(views_of(cs)) + t
                        &&& (t.len() == 0 || torn_frame_start(t))
                        &&& (forall|j: int|
                            0 <= j < cs.len() ==> frame_fits(#[trigger] cs[j]@))
                    } implies !(forall|j: int|
                    0 <= j < cs.len() ==> (#[trigger] cs[j]@.id == j + 1 && cs[j]@.changes.len()
                        > 0)) by {
                    assert(views_of(commits@) == views_of(cs));
                    assert(cs.len() == commits@.len()) by {
                        assert(views_of(commits@).len() == views_of(cs).len());
                    };
                    assert(views_of(cs)[ki] == commits@[ki]@);
                    assert(cs[ki]@ == commits@[ki]@);
                    assert(!(cs[ki]@.id == ki + 1 && cs[ki]@.changes.len() > 0));
                };
            }
            return Err(Error::Validation);
        }
        let ghost orig_bytes = log.bytes();
        log.truncate_to(clean_len);
        let s = CommitStore { commits, poisoned: false, log: Some(log) };
        proof {
            assert forall|k: int| 0 <= k < s@.len() implies #[trigger] s@[k].id == k + 1
                && s@[k].changes.len() > 0 by {
                assert(commits@[k]@.id == k + 1 && commits@[k]@.changes.len() > 0);
                assert(s@[k] == commits@[k]@);
            };
            assert forall|cs: Seq<Commit>, t: Seq<u8>|
                {
                    &&& orig_bytes == image_of(views_of(cs)) + t
                    &&& (t.len() == 0 || torn_frame_start(t))
                    &&& (forall|k: int|
                        0 <= k < cs.len() ==> frame_fits(#[trigger] cs[k]@))
                } implies {
                &&& (forall|k: int|
                    0 <= k < cs.len() ==> (#[trigger] cs[k]@.id == k + 1
                        && cs[k]@.changes.len() > 0))
                &&& s@ == views_of(cs)
                &&& s.log_bytes() == image_of(views_of(cs))
                &&& journal_synced(s)
                &&& torn == (t.len() > 0)
            } by {
                assert(views_of(commits@) == views_of(cs));
                assert forall|k: int|
                    0 <= k < cs.len() implies (#[trigger] cs[k]@.id == k + 1
                        && cs[k]@.changes.len() > 0) by {
                    assert(views_of(cs)[k] == commits@[k]@);
                };
                assert(s@ =~= views_of(cs));
                assert(clean_len == image_of(views_of(cs)).len());
                assert(s.log_bytes() =~= image_of(views_of(cs))) by {
                    assert forall|m: int|
                        0 <= m < clean_len implies #[trigger] orig_bytes.take(
                        clean_len as int,
                    )[m] == image_of(views_of(cs))[m] by {
                        assert(orig_bytes[m] == (image_of(views_of(cs)) + t)[m]);
                    };
                };
                assert(image_of(s@) == image_of(views_of(cs)));
            };
        }
        Ok((s, torn))
    }

    /// Mark the store poisoned, as an abnormal termination while holding
    /// exclusive access would; every later operation fails.
    pub fn mark_poisoned(&mut self)
        ensures
            final(self).is_poisoned(),
            final(self)@ == old(self)@,
            final(self).log_bytes() == old(self).log_bytes(),
            final(self).has_log() == old(self).has_log(),
    {
        self.poisoned = true;
    }

    /// Sequence one change: assign the next id, append the record durably
    /// to the journal if one is configured, and only then make it visible.
    /// A notice equal to the latest record's single change is coalesced:
    /// the existing record is returned and nothing is written.
    pub fn add_commit(&mut self, change: Change, timestamp: u64) -> (r: Result<Commit, Error>)
        requires
            old(self).wf(),
        ensures
            final(self).wf(),
            final(self).is_poisoned() == old(self).is_poisoned(),
            final(self).has_log() == old(self).has_log(),
            old(self).is_poisoned() ==> r == Err::<Commit, Error>(Error::LockFailure),
            r is Err ==> final(self)@ == old(self)@ && final(self).log_bytes() == old(
                self,
            ).log_bytes(),
            !old(self).is_poisoned() && dup_of_latest(old(self)@, change@) ==> (r matches Ok(c)
                && c@ == old(self)@.last() && final(self)@ == old(self)@
                && final(self).log_bytes() == old(self).log_bytes()),
            !old(self).is_poisoned() && !dup_of_latest(old(self)@, change@) && r is Ok ==> (
            r matches Ok(c) && {
                &&& c@ == (CommitView {
                    id: next_id(old(self)@) as u64,
                    changes: seq![change@],
                    timestamp,
                })
                &&& final(self)@ == old(self)@.push(c@)
                &&& (old(self).has_log() ==> final(self).log_bytes() == old(self).log_bytes()
                    + journal_frame(c@))
                &&& (!old(self).has_log() ==> final(self).log_bytes() == old(
                    self,
                ).log_bytes())
            }),
            !old(self).is_poisoned() && !dup_of_latest(old(self)@, change@) && !old(
                self,
            ).has_log() && next_id(old(self)@) <= u64::MAX ==> r is Ok,
            !old(self).is_poisoned() && r is Err ==> r == Err::<Commit, Error>(Error::Io)
                || r == Err::<Commit, Error>(Error::Encode),
            !old(self).is_poisoned() && !dup_of_latest(old(self)@, change@) && next_id(
                old(self)@,
            ) <= u64::MAX && (old(self).log_capacity() matches Some(limit)
                && old(self).log_bytes().len() + journal_frame(
                CommitView {
                    id: next_id(old(self)@) as u64,
                    changes: seq![change@],
                    timestamp,
                },
            ).len() > limit) ==> r is Err,
            final(self).log_capacity() == old(self).log_capacity(),
            journal_synced(*old(self)) ==> journal_synced(*final(self)),
    {
        if self.poisoned {
            return Err(Error::LockFailure);
        }
        let n = self.commits.len();
        if n > 0 {
            let last = &self.commits[n - 1];
            if last.changes.len() == 1 && last.changes[0].same_as(&change) {
                proof {
                    assert(old(self)@.last().changes =~= seq![change@]);
                }
                let copy = self.commits[n - 1].duplicate();
                return Ok(copy);
            }
            proof {
                assert(!dup_of_latest(old(self)@, change@)) by {
                    if dup_of_latest(old(self)@, change@) {
                        assert(old(self)@.last().changes[0] == change@);
                    }
                };
            }
        }
        let id: u64 = if n == 0 {
            1
        } else {
            let last_id = self.commits[n - 1].id;
            if last_id == u64::MAX {
                return Err(Error::Io);
            }
            last_id + 1
        };
        let mut changes: Vec<Change> = Vec::new();
        changes.push(change);
        let rec = Commit { id, changes, timestamp };
        proof {
            assert(rec@.changes =~= seq![change@]);
        }
        if self.log.is_some() {
            let mut l = self.log.take().unwrap();
            let res = l.append(&rec);
            self.log = Some(l);
            if let Err(e) = res {
                proof {
                    assert(final(self)@ =~= old(self)@);
                }
                return Err(e);
            }
        }
        let copy = rec.duplicate();
        self.commits.push(rec);
        proof {
            assert(final(self)@ =~= old(self)@.push(copy@));
            if journal_synced(*old(self)) && old(self).has_log() {
                lemma_image_push(old(self)@, copy@);
            }
        }
        Ok(copy)
    }

    /// A consistent snapshot of all records, in order.
    pub fn all(&self) -> (r: Result<Vec<Commit>, Error>)
        ensures
            self.is_poisoned() ==> r == Err::<Vec<Commit>, Error>(Error::LockFailure),
            !self.is_poisoned() ==> (r matches Ok(v) && views_of(v@) == self@),
    {
        if self.poisoned {
            return Err(Error::LockFailure);
        }
        let n = self.commits.len();
        let mut v: Vec<Commit> = Vec::new();
        let mut i: usize = 0;
        while i < n
            invariant
                i <= n,
                n == self.commits@.len(),
                v@.len() == i,
                forall|k: int| 0 <= k < i ==> #[trigger] v@[k]@ == self.commits@[k]@,
            decreases n - i,
        {
            v.push(self.commits[i].duplicate());
            i += 1;
        }
        proof {
            assert(views_of(v@) =~= self@);
        }
        Ok(v)
    }

    /// The most recently appended record, or none.
    pub fn latest(&self) -> (r: Result<Option<Commit>, Error>)
        ensures
            self.is_poisoned() ==> r == Err::<Option<Commit>, Error>(Error::LockFailure),
            !self.is_poisoned() && self@.len() == 0 ==> r == Ok::<Option<Commit>, Error>(None),
            !self.is_poisoned() && self@.len() > 0 ==> (r matches Ok(o) && o matches Some(c)
                && c@ == self@.last()),
    {
        if self.poisoned {
            return Err(Error::LockFailure);
        }
        let n = self.commits.len();
        if n == 0 {
            Ok(None)
        } else {
            Ok(Some(self.commits[n - 1].duplicate()))
        }
    }

    /// The record the next accepted change would get, without admitting it:
    /// the caller persists its frame durably, then calls `confirm_commit`.
    /// Returns `None` when the change coalesces into the latest record.
    pub fn next_commit(&self, change: &Change, timestamp: u64) -> (r: Result<
        Option<Commit>,
        Error,
    >)
        requires
            self.wf(),
        ensures
            self.is_poisoned() ==> r == Err::<Option<Commit>, Error>(Error::LockFailure),
            !self.is_poisoned() && dup_of_latest(self@, change@) ==> r == Ok::<
                Option<Commit>,
                Error,
            >(None),
            !self.is_poisoned() && !dup_of_latest(self@, change@) ==> match r {
                Ok(o) => o matches Some(c) && c@ == (CommitView {
                    id: next_id(self@) as u64,
                    changes: seq![change@],
                    timestamp,
                }),
                Err(e) => e == Error::Io && next_id(self@) > u64::MAX,
            },
    {
        if self.poisoned {
            return Err(Error::LockFailure);
        }
        let n = self.commits.len();
        if n > 0 {
            let last = &self.commits[n - 1];
            if last.changes.len() == 1 && last.changes[0].same_as(change) {
                proof {
                    assert(self@.last().changes =~= seq![change@]);
                }
                return Ok(None);
            }
            proof {
                assert(!dup_of_latest(self@, change@)) by {
                    if dup_of_latest(self@, change@) {
                        assert(self@.last().changes[0] == change@);
                    }
                };
            }
        }
        let id: u64 = if n == 0 {
            1
        } else {
            let last_id = self.commits[n - 1].id;
            if last_id == u64::MAX {
                return Err(Error::Io);
            }
            last_id + 1
        };
        let mut changes: Vec<Change> = Vec::new();
        changes.push(change.duplicate());
        let rec = Commit { id, changes, timestamp };
        proof {
            assert(rec@.changes =~= seq![change@]);
        }
        Ok(Some(rec))
    }

    /// Admit a record that `next_commit` produced and whose frame the
    /// caller has durably persisted. The id must still be the next one, and
    /// the record must wrap at least one change.
    pub fn confirm_commit(&mut self, rec: Commit) -> (r: Result<Commit, Error>)
        requires
            old(self).wf(),
        ensures
            final(self).wf(),
            old(self).is_poisoned() ==> r == Err::<Commit, Error>(Error::LockFailure),
            r is Err ==> final(self)@ == old(self)@,
            !old(self).is_poisoned() && rec@.id == next_id(old(self)@) && rec@.changes.len()
                > 0 ==> (r matches Ok(c) && c@ == rec@ && final(self)@ == old(self)@.push(
                rec@,
            )),
            !old(self).is_poisoned() && (rec@.id != next_id(old(self)@) || rec@.changes.len()
                == 0) ==> r == Err::<Commit, Error>(Error::Validation),
    {
        if self.poisoned {
            return Err(Error::LockFailure);
        }
        if rec.changes.len() == 0 {
            return Err(Error::Validation);
        }
        let n = self.commits.len();
        let expected_ok: bool = if n == 0 {
            rec.id == 1
        } else {
            let last_id = self.commits[n - 1].id;
            last_id < u64::MAX && rec.id == last_id + 1
        };
        if !expected_ok {
            return Err(Error::Validation);
        }
        let copy = rec.duplicate();
        self.commits.push(rec);
        proof {
            assert(final(self)@ =~= old(self)@.push(copy@));
            assert forall|i: int|
                0 <= i < final(self)@.len() implies #[trigger] final(self)@[i].id == i + 1
                && final(self)@[i].changes.len() > 0 by {
                if i < old(self)@.len() {
                    assert(final(self)@[i] == old(self)@[i]);
                } else {
                    assert(final(self)@[i] == copy@);
                    assert(old(self)@.len() > 0 ==> old(self)@[old(self)@.len() - 1].id
                        == old(self)@.len());
                }
            };
        }
        Ok(copy)
    }
}

impl Default for CommitStore {
    /// An empty store without a journal.
    fn default() -> (s: Self)
        ensures
            s.wf(),
            s@ == Seq::<CommitView>::empty(),
            !s.is_poisoned(),
            !s.has_log(),
    {
        CommitStore::new()
    }
}


/// Sequencer ordering: in a well-formed store the record ids are exactly
/// one through the record count, in submission order, so the most recently
/// appended record carries the maximum id.
pub proof fn lemma_sequencer_ordering(v: Seq<CommitView>)
    requires
        ids_wf(v),
    ensures
        forall|i: int| 0 <= i < v.len() ==> #[trigger] v[i].id == i + 1,
        v.len() > 0 ==> forall|i: int| 0 <= i < v.len() ==> #[trigger] v[i].id <= v.last().id,
{
    if v.len() > 0 {
        assert(v.last().id == v.len());
    }
}

} // verus!
