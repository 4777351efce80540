//! The sync client's verified core: the security boundary on target paths,
//! the apply step for a fetched object (store idempotently, accept blobs
//! only, back up an existing target before it is overwritten), and the
//! reconnect backoff schedule.

use vstd::prelude::*;
use vstd::slice::slice_index_get;
use vstd::utf8::{encode_utf8, valid_utf8};
use crate::codec;
use crate::error::Error;
use crate::hashing::hash_of_bytes;
use crate::object::{Object, ObjectView};
use crate::storage::ObjectStore;

verus! {

/// An absolute path: one that starts with a separator.
pub open spec fn is_absolute_path(b: Seq<u8>) -> bool {
    b.len() > 0 && b[0] == 47u8
}

/// A parent-directory component `..` stands at byte position `i`.
pub open spec fn dotdot_at(b: Seq<u8>, i: int) -> bool {
    &&& 0 <= i
    &&& i + 2 <= b.len()
    &&& b[i] == 46u8
    &&& b[i + 1] == 46u8
    &&& (i == 0 || b[i - 1] == 47u8)
    &&& (i + 2 == b.len() || b[i + 2] == 47u8)
}

/// Whether any component of the path is `..`.
pub open spec fn has_parent_component(b: Seq<u8>) -> bool {
    exists|i: int| dotdot_at(b, i)
}

/// A path that stays inside the repository root: relative, and free of
/// parent-directory components.
pub open spec fn path_is_safe(b: Seq<u8>) -> bool {
    !is_absolute_path(b) && !has_parent_component(b)
}

/// Check that a target path stays inside the repository root, rejecting an
/// absolute path or one with a parent-directory traversal component. The
/// caller joins an accepted path to the repository root; a rejected path is
/// never applied, whatever content it names.
pub fn resolve_repo_path(rel: &str) -> (r: Result<(), Error>)
    ensures
        r is Ok <==> path_is_safe(encode_utf8(rel@)),
        r matches Err(e) ==> e == Error::Security,
{
    let b = rel.as_bytes();
    let n = b.len();
    if n > 0 && *slice_index_get(b, 0) == 47 {
        return Err(Error::Security);
    }
    let mut i: usize = 0;
    while i < n
        invariant
            i <= n,
            n == b@.len(),
            b@ == encode_utf8(rel@),
            forall|k: int| 0 <= k < i ==> !dotdot_at(b@, k),
        decreases n - i,
    {
        if *slice_index_get(b, i) == 46 && i + 1 < n && *slice_index_get(b, i + 1) == 46 {
            let pre = i == 0 || *slice_index_get(b, i - 1) == 47;
            let post = i + 2 == n || *slice_index_get(b, i + 2) == 47;
            if pre && post {
                proof {
                    assert(dotdot_at(b@, i as int));
                }
                return Err(Error::Security);
            }
        }
        proof {
            assert(!dotdot_at(b@, i as int));
        }
        i += 1;
    }
    proof {
        assert(!has_parent_component(b@)) by {
            if has_parent_component(b@) {
                let k = choose|k: int| dotdot_at(b@, k);
                assert(0 <= k < n);
            }
        };
    }
    Ok(())
}

/// Position right after the last separator in `b`: where its final
/// component starts.
pub open spec fn comp_start(b: Seq<u8>) -> int
    decreases b.len(),
{
    if b.len() == 0 {
        0
    } else if b[b.len() - 1] == 47u8 {
        b.len() as int
    } else {
        comp_start(b.drop_last())
    }
}

/// The position of the dot starting the final component's extension,
/// scanning down from `i`; the path's length when there is none at or
/// below `i`.
pub open spec fn ext_dot_from(b: Seq<u8>, i: int) -> int
    decreases
            (if i >= 0 {
                i + 1
            } else {
                0
            }),
{
    if i <= comp_start(b) || i < 0 || i >= b.len() {
        b.len() as int
    } else if b[i] == 46u8 {
        i
    } else {
        ext_dot_from(b, i - 1)
    }
}

/// Where the final component's stem ends: at its extension dot, or at the
/// end of the path when it has no extension.
pub open spec fn stem_end(b: Seq<u8>) -> int {
    ext_dot_from(b, b.len() - 1)
}

/// The sibling path an existing file is copied to before being overwritten:
/// the final component's extension (if any) is replaced by `bak`.
pub open spec fn backup_bytes(b: Seq<u8>) -> Seq<u8> {
    b.take(stem_end(b)) + encode_utf8(".bak"@)
}

/// Bounds of `comp_start`.
proof fn lemma_comp_start_bounds(b: Seq<u8>)
    ensures
        0 <= comp_start(b) <= b.len(),
    decreases b.len(),
{
    if b.len() > 0 && b[b.len() - 1] != 47u8 {
        lemma_comp_start_bounds(b.drop_last());
    }
}

/// Bounds of `ext_dot_from`.
proof fn lemma_ext_dot_bounds(b: Seq<u8>, i: int)
    requires
        i < b.len(),
    ensures
        comp_start(b) <= ext_dot_from(b, i) <= b.len(),
        ext_dot_from(b, i) < b.len() ==> b[ext_dot_from(b, i)] == 46u8,
    decreases
            (if i >= 0 {
                i + 1
            } else {
                0
            }),
{
    lemma_comp_start_bounds(b);
    if !(i <= comp_start(b) || i < 0) {
        if b[i] != 46u8 {
            lemma_ext_dot_bounds(b, i - 1);
        }
    }
}

/// The backup sibling path: the final component's extension is replaced by
/// `bak` (appended, when the component has no extension).
pub fn backup_path(path: &str) -> (r: Option<String>)
    ensures
        r matches Some(s) ==> encode_utf8(s@) == backup_bytes(encode_utf8(path@)),
        r is Some,
{
    let b = path.as_bytes();
    let n = b.len();
    proof {
        vstd::utf8::encode_utf8_valid_utf8(path@);
        lemma_comp_start_bounds(b@);
        assert(b@.take(n as int) =~= b@);
    }
    // find the start of the final component
    let mut cs: usize = n;
    while cs > 0 && *slice_index_get(b, cs - 1) != 47
        invariant
            cs <= n,
            n == b@.len(),
            b@ == encode_utf8(path@),
            comp_start(b@) == comp_start(b@.take(cs as int)),
        decreases cs,
    {
        proof {
            assert(b@.take(cs as int).drop_last() =~= b@.take(cs as int - 1));
        }
        cs -= 1;
    }
    proof {
        assert(comp_start(b@) == cs) by {
            if cs > 0 {
                assert(b@.take(cs as int)[cs - 1] == b@[cs - 1]);
                assert(comp_start(b@.take(cs as int)) == cs);
            } else {
                assert(b@.take(0int) =~= Seq::<u8>::empty());
            }
        };
    }
    // find the extension dot: the last dot strictly inside the component
    let mut j: usize = n;
    while j >= 1 && j - 1 > cs && *slice_index_get(b, j - 1) != 46
        invariant
            cs <= j <= n || (j <= cs + 1 && j <= n),
            n == b@.len(),
            b@ == encode_utf8(path@),
            comp_start(b@) == cs,
            ext_dot_from(b@, n - 1) == ext_dot_from(b@, j - 1),
        decreases j,
    {
        j -= 1;
    }
    let se: usize = if j >= 1 && j - 1 > cs {
        j - 1
    } else {
        proof {
            assert(ext_dot_from(b@, j - 1) == n);
        }
        n
    };
    proof {
        assert(se == stem_end(b@));
    }
    let mut out: Vec<u8> = Vec::new();
    let head = slice_subrange_bytes(b, 0, se);
    let mut head = head;
    out.append(&mut head);
    let suffix = ".bak";
    let mut tail = suffix_bytes(suffix);
    out.append(&mut tail);
    proof {
        assert(out@ == backup_bytes(encode_utf8(path@)));
        assert(valid_utf8(out@)) by {
            lemma_ext_dot_bounds(b@, n - 1);
            vstd::utf8::is_char_boundary_start_end_of_seq(b@);
            if se < n {
                let bb = b@[se as int];
                assert(bb == 46u8);
                assert(!vstd::utf8::is_continuation_byte(bb)) by (bit_vector)
                    requires
                        bb == 46u8,
                ;
                vstd::utf8::is_char_boundary_iff_not_is_continuation_byte(b@, se as int);
            }
            vstd::utf8::valid_utf8_split(b@, se as int);
            assert(b@.subrange(0, se as int) == b@.take(se as int));
            vstd::utf8::encode_utf8_valid_utf8(".bak"@);
            vstd::utf8::valid_utf8_concat(b@.take(se as int), encode_utf8(".bak"@));
        };
    }
    codec::string_from_utf8(out)
}

/// A copy of a slice's subrange.
fn slice_subrange_bytes(b: &[u8], from: usize, to: usize) -> (r: Vec<u8>)
    requires
        from <= to <= b@.len(),
    ensures
        r@ == b@.subrange(from as int, to as int),
{
    vstd::slice::slice_to_vec(vstd::slice::slice_subrange(b, from, to))
}

/// The bytes of a suffix string.
fn suffix_bytes(s: &str) -> (r: Vec<u8>)
    ensures
        r@ == encode_utf8(s@),
{
    <str as vstd::string::StrSliceExecFns>::as_bytes_vec(s)
}

/// What the map of stored objects becomes once these canonical bytes are
/// stored under their hash (a no-op when that hash is already present).
pub open spec fn put_bytes_spec(m: Map<Seq<char>, Seq<u8>>, b: Seq<u8>) -> Map<
    Seq<char>,
    Seq<u8>,
> {
    if m.contains_key(hash_of_bytes(b)) {
        m
    } else {
        m.insert(hash_of_bytes(b), b)
    }
}

/// What applying a fetched blob comes to: write `content` to `target`,
/// first copying the existing file, if any, to `backup`.
#[derive(Debug)]
pub struct ApplyPlan {
    pub content: Vec<u8>,
    pub target: String,
    pub backup: Option<String>,
}

/// The apply step for one fetched object: reject a target path that
/// escapes the repository root without touching anything; store the object idempotently; accept only a
/// blob, whose bytes are then written to the target — after the existing
/// file, when `target_exists`, is preserved at the backup sibling path.
pub fn apply_fetched(
    store: &mut ObjectStore,
    path: &str,
    bytes: &[u8],
    target_exists: bool,
) -> (r: Result<ApplyPlan, Error>)
    requires
        old(store).wf(),
    ensures
        final(store).wf(),
        r == Err::<ApplyPlan, Error>(Error::Security) <==> !path_is_safe(encode_utf8(path@)),
        !path_is_safe(encode_utf8(path@)) ==> *final(store) == *old(store),
        r matches Err(e) ==> e == Error::Security || e == Error::Decode || e
            == Error::Validation,
        r == Err::<ApplyPlan, Error>(Error::Decode) ==> *final(store) == *old(store) && !(
        exists|o: Object| bytes@ == crate::codec::enc_object_v(o@)),
        (r is Ok || r == Err::<ApplyPlan, Error>(Error::Validation)) ==> final(store)@
            == put_bytes_spec(old(store)@, bytes@),
        r == Err::<ApplyPlan, Error>(Error::Validation) ==> (exists|o: Object|
            bytes@ == crate::codec::enc_object_v(o@) && !(o@ is Blob)),
        r matches Ok(plan) ==> {
            &&& path_is_safe(encode_utf8(path@))
            &&& (exists|o: Object|
                bytes@ == crate::codec::enc_object_v(o@) && o@ == ObjectView::Blob(
                    plan.content@,
                ))
            &&& plan.target@ == path@
            &&& (target_exists <==> plan.backup is Some)
            &&& (plan.backup matches Some(bp) ==> encode_utf8(bp@) == backup_bytes(
                encode_utf8(path@),
            ))
        },
        path_is_safe(encode_utf8(path@)) && (exists|o: Object|
            bytes@ == crate::codec::enc_object_v(o@) && o@ is Blob) ==> r is Ok,
{
    if resolve_repo_path(path).is_err() {
        return Err(Error::Security);
    }
    let obj = match codec::decode_object(bytes) {
        Some(o) => o,
        None => {
            proof {
                assert forall|o: Object|
                    bytes@ == crate::codec::enc_object_v(o@) implies false by {};
            }
            return Err(Error::Decode);
        },
    };
    let hash = store.put(&obj);
    match obj {
        Object::Blob(blob) => {
            let target = suffix_to_string(path);
            let backup = if target_exists {
                match backup_path(path) {
                    Some(bp) => Some(bp),
                    None => {
                        proof {
                            assert(false);
                        }
                        None
                    },
                }
            } else {
                None
            };
            Ok(ApplyPlan { content: blob.content, target, backup })
        },
        other => {
            proof {
                assert(bytes@ == crate::codec::enc_object_v(other@) && !(other@ is Blob));
            }
            Err(Error::Validation)
        },
    }
}

/// An owned copy of a borrowed string.
fn suffix_to_string(s: &str) -> (r: String)
    ensures
        r@ == s@,
{
    <String as vstd::string::StringExecFns>::from_str(s)
}

/// The largest delay the reconnect schedule reaches, in seconds.
pub open spec fn backoff_cap() -> int {
    30
}

/// The wait before the next reconnect attempt after one more failure.
pub open spec fn next_backoff(b: int) -> int {
    if 2 * b > backoff_cap() {
        backoff_cap()
    } else {
        2 * b
    }
}

/// The sync client's reconnect schedule: the wait starts at one second,
/// doubles on each consecutive failure up to a cap, and resets to one
/// second when a connection succeeds.
pub struct SyncClient {
    backoff: u64,
}

/// What the client observed: the stream opened, a message arrived, the
/// stream failed or was closed, a connection attempt failed, or the task
/// was cancelled.
#[derive(Clone, Copy, Debug, PartialEq, Eq, Structural)]
pub enum SyncEvent {
    Opened,
    Message,
    StreamError,
    Closed,
    ConnectFailed,
    Cancelled,
}

/// What the loop must do next: keep listening, parse and apply the message,
/// wait the given number of seconds and reconnect, or stop for good.
#[derive(Clone, Copy, Debug, PartialEq, Eq, Structural)]
pub enum SyncAction {
    Continue,
    Apply,
    Reconnect(u64),
    Stop,
}

impl SyncClient {
    /// The current wait, in seconds, before the next reconnect attempt.
    pub closed spec fn backoff(&self) -> int {
        self.backoff as int
    }

    /// The wait is always between one second and the cap.
    pub open spec fn wf(&self) -> bool {
        1 <= self.backoff() <= backoff_cap()
    }

    /// A fresh client: the first reconnect would wait one second.
    pub fn new() -> (c: Self)
        ensures
            c.wf(),
            c.backoff() == 1,
    {
        SyncClient { backoff: 1 }
    }

    /// Advance the state machine by one observed event and say what to do.
    /// Cancellation always stops; a successful open resets the backoff; a
    /// connection-level failure asks for a wait of the current backoff and
    /// doubles it, up to the cap.
    pub fn on_event(&mut self, ev: SyncEvent) -> (a: SyncAction)
        requires
            old(self).wf(),
        ensures
            final(self).wf(),
            ev == SyncEvent::Opened ==> a == SyncAction::Continue && final(self).backoff()
                == 1,
            ev == SyncEvent::Message ==> a == SyncAction::Apply && final(self).backoff()
                == old(self).backoff(),
            ev == SyncEvent::Cancelled ==> a == SyncAction::Stop && final(self).backoff()
                == old(self).backoff(),
            (ev == SyncEvent::StreamError || ev == SyncEvent::Closed || ev
                == SyncEvent::ConnectFailed) ==> (a == SyncAction::Reconnect(
                old(self).backoff() as u64,
            ) && final(self).backoff() == next_backoff(old(self).backoff())),
    {
        match ev {
            SyncEvent::Opened => {
                self.backoff = 1;
                SyncAction::Continue
            },
            SyncEvent::Message => SyncAction::Apply,
            SyncEvent::Cancelled => SyncAction::Stop,
            _ => {
                let delay = self.backoff;
                let doubled = self.backoff * 2;
                self.backoff = if doubled > 30 {
                    30
                } else {
                    doubled
                };
                SyncAction::Reconnect(delay)
            },
        }
    }
}

/// The backoff after `k` consecutive failures from a fresh client.
pub open spec fn backoff_after(k: nat) -> int
    decreases k,
{
    if k == 0 {
        1
    } else {
        next_backoff(backoff_after((k - 1) as nat))
    }
}

/// The reconnect delays from a fresh client are one second, doubling with
/// each consecutive failure, capped at thirty: the wait before the
/// `k+1`-th attempt is `min(2^k, 30)`.
pub proof fn lemma_backoff_schedule(k: nat)
    ensures
        backoff_after(k) == if vstd::arithmetic::power2::pow2(k) <= 30 {
            vstd::arithmetic::power2::pow2(k) as int
        } else {
            30
        },
    decreases k,
{
    vstd::arithmetic::power2::lemma_pow2_pos(k);
    if k == 0 {
        vstd::arithmetic::power2::lemma2_to64();
    } else {
        lemma_backoff_schedule((k - 1) as nat);
        vstd::arithmetic::power2::lemma_pow2_unfold(k);
        vstd::arithmetic::power2::lemma_pow2_pos((k - 1) as nat);
        assert(backoff_after(k) == next_backoff(backoff_after((k - 1) as nat)));
    }
}

} // verus!
