//! The ingestion surface: the change notice and broadcast event types, and
//! the verified decision logic behind the request handlers — sequencing a
//! change, the hash-integrity gate for stored objects, and serving objects
//! back by hash.

use vstd::prelude::*;
use crate::codec;
use crate::commit::{Commit, CommitStore, CommitView, dup_of_latest, next_id};
use crate::error::Error;
use crate::hashing;
use crate::object::{Object, Hashable};
use crate::storage::ObjectStore;

verus! {

/// A report that a path now has content identified by a hash.
#[derive(Clone, Debug, PartialEq)]
pub struct Change {
    pub hash: String,
    pub path: String,
    pub timestamp: u64,
}

/// Mathematical model of a change notice.
#[verifier::ext_equal]
pub struct ChangeView {
    pub hash: Seq<char>,
    pub path: Seq<char>,
    pub timestamp: u64,
}

impl View for Change {
    type V = ChangeView;

    open spec fn view(&self) -> ChangeView {
        ChangeView { hash: self.hash@, path: self.path@, timestamp: self.timestamp }
    }
}

impl Change {
    /// An identical copy.
    pub fn duplicate(&self) -> (r: Change)
        ensures
            r@ == self@,
    {
        Change { hash: self.hash.clone(), path: self.path.clone(), timestamp: self.timestamp }
    }

    /// Whether two notices carry the same hash, path and timestamp.
    pub fn same_as(&self, other: &Change) -> (r: bool)
        ensures
            r == (self@ == other@),
    {
        let same = crate::codec::str_eq(self.hash.as_str(), other.hash.as_str())
            && crate::codec::str_eq(self.path.as_str(), other.path.as_str())
            && self.timestamp == other.timestamp;
        proof {
            if same {
                assert(self@ =~= other@);
            }
        }
        same
    }
}

/// The ephemeral broadcast payload: a change notice paired with the id of
/// the record that sequenced it. Never persisted.
#[derive(Clone, Debug, PartialEq)]
pub struct ChangeEvent {
    pub change: Change,
    pub commit_id: u64,
}

/// Mathematical model of a broadcast event.
#[verifier::ext_equal]
pub struct ChangeEventView {
    pub change: ChangeView,
    pub commit_id: u64,
}

impl View for ChangeEvent {
    type V = ChangeEventView;

    open spec fn view(&self) -> ChangeEventView {
        ChangeEventView { change: self.change@, commit_id: self.commit_id }
    }
}


/// The outcome of ingesting a change notice: a fresh record together with
/// the event to broadcast, or the existing record a repeated notice
/// coalesced into — a duplicate is acknowledged but never re-broadcast.
pub enum IngestOutcome {
    Accepted(Commit, ChangeEvent),
    Duplicate(Commit),
}

/// Accept one change notice: sequence it through the store (appending to
/// the journal first, when one is configured) and construct the event to
/// fan out. A notice equal to the latest record's single change coalesces
/// into that record and produces no event.
pub fn ingest_change(store: &mut CommitStore, change: Change, timestamp: u64) -> (r: Result<
    IngestOutcome,
    Error,
>)
    requires
        old(store).wf(),
    ensures
        final(store).wf(),
        r is Err ==> final(store)@ == old(store)@ && final(store).log_bytes() == old(
            store,
        ).log_bytes(),
        old(store).is_poisoned() ==> r == Err::<IngestOutcome, Error>(Error::LockFailure),
        !old(store).is_poisoned() && dup_of_latest(old(store)@, change@) && r is Ok ==> (
        r matches Ok(o) && o matches IngestOutcome::Duplicate(c) && c@ == old(store)@.last()
            && final(store)@ == old(store)@),
        !old(store).is_poisoned() && !dup_of_latest(old(store)@, change@) && r is Ok ==> (
        r matches Ok(o) && o matches IngestOutcome::Accepted(c, ev) && {
            &&& c@ == (CommitView {
                id: next_id(old(store)@) as u64,
                changes: seq![change@],
                timestamp,
            })
            &&& ev@ == (ChangeEventView { change: change@, commit_id: c@.id })
            &&& final(store)@ == old(store)@.push(c@)
        }),
        !old(store).is_poisoned() && !dup_of_latest(old(store)@, change@) && !old(
            store,
        ).has_log() && next_id(old(store)@) <= u64::MAX ==> r is Ok,
        !old(store).is_poisoned() && r is Err ==> r == Err::<IngestOutcome, Error>(Error::Io)
            || r == Err::<IngestOutcome, Error>(Error::Encode),
{
    let latest = match store.latest() {
        Ok(l) => l,
        Err(e) => {
            return Err(e);
        },
    };
    let is_dup = match &latest {
        Some(l) => l.changes.len() == 1 && l.changes[0].same_as(&change),
        None => false,
    };
    proof {
        if is_dup {
            assert(store@.last().changes =~= seq![change@]);
        } else if dup_of_latest(store@, change@) {
            assert(store@.len() > 0);
            match latest {
                Some(l) => {
                    assert(l@ == store@.last());
                    assert(l@.changes == seq![change@]);
                    assert(l.changes@.len() == 1);
                    assert(l@.changes[0] == change@);
                    assert(l.changes@[0]@ == change@);
                    assert(false);
                },
                None => {
                    assert(false);
                },
            }
        }
    }
    let ev_change = change.duplicate();
    let commit = match store.add_commit(change, timestamp) {
        Ok(c) => c,
        Err(e) => {
            return Err(e);
        },
    };
    if is_dup {
        Ok(IngestOutcome::Duplicate(commit))
    } else {
        let event = ChangeEvent { change: ev_change, commit_id: commit.id };
        Ok(IngestOutcome::Accepted(commit, event))
    }
}

/// Store serialized object bytes under the hash the client claims for them.
/// The hash of the bytes is recomputed, and a mismatch — or bytes that are
/// not a canonical object encoding — is rejected as a `Validation` failure
/// before anything is stored: the integrity gate against hash confusion.
pub fn store_object(store: &mut ObjectStore, hash: &str, body: &[u8]) -> (r: Result<(), Error>)
    requires
        old(store).wf(),
    ensures
        final(store).wf(),
        r is Err ==> r == Err::<(), Error>(Error::Validation) && *final(store) == *old(store),
        r is Ok <==> (exists|o: Object| body@ == codec::enc_object_v(o@)) && hash@
            == hashing::hash_of_bytes(body@),
        r is Ok ==> final(store)@ == crate::sync::put_bytes_spec(old(store)@, body@),
{
    let obj = match codec::decode_object(body) {
        Some(o) => o,
        None => {
            proof {
                assert forall|o: Object|
                    body@ == codec::enc_object_v(o@) implies false by {};
            }
            return Err(Error::Validation);
        },
    };
    let computed = obj.hash();
    if !codec::str_eq(computed.as_str(), hash) {
        return Err(Error::Validation);
    }
    store.put(&obj);
    Ok(())
}

/// Serve the canonical bytes of the object stored under `hash`, or
/// `NotFound` when no such object is stored.
pub fn fetch_object<'a>(store: &'a ObjectStore, hash: &str) -> (r: Result<&'a Vec<u8>, Error>)
    requires
        store.wf(),
    ensures
        r matches Ok(b) ==> store@.contains_key(hash@) && b@ == store@[hash@],
        r is Err ==> r == Err::<&'a Vec<u8>, Error>(Error::NotFound) && !store@.contains_key(
            hash@,
        ),
{
    match store.get_bytes(hash) {
        Some(b) => Ok(b),
        None => Err(Error::NotFound),
    }
}

} // verus!
