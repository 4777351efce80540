//! The append-only commit journal: each record is serialized, compressed,
//! framed with a four-byte little-endian length, and appended. This module
//! holds the byte image of the journal and the verified framing and replay
//! logic; writing the image to stable storage is the caller's charge.

use vstd::prelude::*;
use vstd::bytes::*;
use vstd::slice::*;
use crate::codec::{
    enc_u32, enc_u64, enc_str, read_u32, read_u64, read_string_at, write_u32, write_u64,
    write_str,
};
use crate::commit::{Commit, CommitView};
use crate::error::Error;
use crate::server::{Change, ChangeView};

verus! {

/// What zstd compression returns for the given bytes at the default level;
/// a function of them alone.
pub uninterp spec fn zstd_of(b: Seq<u8>) -> Seq<u8>;

/// Relies on zstd's `stream::encode_all` at level 0: the produced frame is a
/// function of the input bytes alone.
#[verifier::external_body]
fn compress(b: &[u8]) -> (r: Result<Vec<u8>, Error>)
    ensures
        r matches Ok(v) ==> v@ == zstd_of(b@),
        r matches Err(e) ==> e == Error::Encode,
{
    match zstd::stream::encode_all(b, 0) {
        Ok(v) => Ok(v),
        Err(_) => Err(Error::Encode),
    }
}

/// Relies on zstd's `stream::decode_all`: decoding a frame that
/// `encode_all` produced yields the original bytes.
#[verifier::external_body]
fn decompress(b: &[u8]) -> (r: Result<Vec<u8>, Error>)
    ensures
        r matches Ok(v) ==> forall|orig: Seq<u8>| b@ == zstd_of(orig) ==> v@ == orig,
        r is Err ==> forall|orig: Seq<u8>| b@ != zstd_of(orig),
        r matches Err(e) ==> e == Error::Decode,
{
    match zstd::stream::decode_all(b) {
        Ok(v) => Ok(v),
        Err(_) => Err(Error::Decode),
    }
}

/// Classify an underlying codec failure as a journal input/output error:
/// the journal surfaces every replay failure through its own error domain.
pub fn to_io_err(e: Error) -> (r: Error)
    ensures
        r == Error::Io,
{
    match e {
        _ => Error::Io,
    }
}

/// Encoding of one change notice.
pub open spec fn enc_change_v(c: ChangeView) -> Seq<u8> {
    enc_str(c.hash) + enc_str(c.path) + enc_u64(c.timestamp)
}

/// Encoding of a sequence of change notices, in order.
pub open spec fn enc_changes_v(cs: Seq<ChangeView>) -> Seq<u8>
    decreases cs.len(),
{
    if cs.len() == 0 {
        Seq::empty()
    } else {
        enc_change_v(cs[0]) + enc_changes_v(cs.drop_first())
    }
}

/// Encoding of a change record: id, change count, the changes, timestamp.
pub open spec fn enc_record_v(c: CommitView) -> Seq<u8> {
    enc_u64(c.id) + enc_u64(c.changes.len() as u64) + enc_changes_v(c.changes) + enc_u64(
        c.timestamp,
    )
}

/// Appending one change appends its encoding.
proof fn lemma_enc_changes_push(cs: Seq<ChangeView>, c: ChangeView)
    ensures
        enc_changes_v(cs.push(c)) == enc_changes_v(cs) + enc_change_v(c),
    decreases cs.len(),
{
    let p = cs.push(c);
    assert(p[0] == if cs.len() == 0 { c } else { cs[0] });
    assert(enc_changes_v(p) == enc_change_v(p[0]) + enc_changes_v(p.drop_first()));
    if cs.len() == 0 {
        assert(p.drop_first() =~= Seq::<ChangeView>::empty());
        assert(enc_changes_v(p) =~= enc_changes_v(cs) + enc_change_v(c));
    } else {
        lemma_enc_changes_push(cs.drop_first(), c);
        assert(p.drop_first() =~= cs.drop_first().push(c));
        assert(enc_changes_v(cs) == enc_change_v(cs[0]) + enc_changes_v(cs.drop_first()));
        assert(enc_changes_v(p) =~= enc_changes_v(cs) + enc_change_v(c));
    }
}

/// Splitting a change sequence splits its encoding.
proof fn lemma_enc_changes_split(cs: Seq<ChangeView>, j: int)
    requires
        0 <= j <= cs.len(),
    ensures
        enc_changes_v(cs) == enc_changes_v(cs.take(j)) + enc_changes_v(cs.skip(j)),
    decreases j,
{
    if j == 0 {
        assert(cs.take(0) =~= Seq::<ChangeView>::empty());
        assert(cs.skip(0) =~= cs);
        assert(enc_changes_v(cs) =~= enc_changes_v(cs.take(0)) + enc_changes_v(cs.skip(0)));
    } else {
        let d = cs.drop_first();
        lemma_enc_changes_split(d, j - 1);
        assert(d.take(j - 1) =~= cs.take(j).drop_first());
        assert(d.skip(j - 1) =~= cs.skip(j));
        assert(enc_changes_v(cs) == enc_change_v(cs[0]) + enc_changes_v(d));
        assert(cs.take(j)[0] == cs[0]);
        assert(cs.take(j).len() == j);
        assert(enc_changes_v(cs.take(j)) == enc_change_v(cs[0]) + enc_changes_v(
            cs.take(j).drop_first(),
        ));
        assert(enc_changes_v(cs) =~= enc_changes_v(cs.take(j)) + enc_changes_v(cs.skip(j)));
    }
}

/// Serialize one change record into its canonical bytes.
pub fn encode_record(c: &Commit) -> (out: Vec<u8>)
    ensures
        out@ == enc_record_v(c@),
{
    let mut out: Vec<u8> = Vec::new();
    write_u64(&mut out, c.id);
    write_u64(&mut out, c.changes.len() as u64);
    let ghost base = out@;
    let n = c.changes.len();
    let mut j: usize = 0;
    while j < n
        invariant
            j <= n,
            n == c.changes@.len(),
            out@ == base + enc_changes_v(c@.changes.take(j as int)),
        decreases n - j,
    {
        let ch = &c.changes[j];
        write_str(&mut out, ch.hash.as_str());
        write_str(&mut out, ch.path.as_str());
        write_u64(&mut out, ch.timestamp);
        proof {
            lemma_enc_changes_push(c@.changes.take(j as int), c@.changes[j as int]);
            assert(c@.changes.take(j as int + 1) =~= c@.changes.take(j as int).push(
                c@.changes[j as int],
            ));
            assert(out@ =~= base + enc_changes_v(c@.changes.take(j as int + 1)));
        }
        j += 1;
    }
    write_u64(&mut out, c.timestamp);
    proof {
        assert(c@.changes.take(n as int) =~= c@.changes);
        assert(out@ =~= enc_record_v(c@));
    }
    out
}

/// Read one change notice starting at `pos`.
fn read_change_at(input: &[u8], pos: usize) -> (r: Option<(Change, usize)>)
    requires
        pos <= input@.len(),
    ensures
        r matches Some(p) ==> pos <= p.1 <= input@.len()
            && input@.subrange(pos as int, p.1 as int) == enc_change_v(p.0@),
        forall|c0: Change|
            enc_change_v(c0@).is_prefix_of(input@.skip(pos as int)) ==> (r matches Some(p)
                && p.0@ == c0@ && p.1 == pos + enc_change_v(c0@).len()),
{
    proof {
        lemma_auto_spec_u64_to_from_le_bytes();
    }
    let ilen = input.len();
    let hash_r = read_string_at(input, pos);
    if hash_r.is_none() {
        proof {
            assert forall|c0: Change|
                enc_change_v(c0@).is_prefix_of(input@.skip(pos as int)) implies false by {
                crate::codec::lemma_parts3(
                    input@,
                    pos as int,
                    enc_str(c0@.hash),
                    enc_str(c0@.path),
                    enc_u64(c0@.timestamp),
                );
            };
        }
        return None;
    }
    let (hash, hpos) = hash_r.unwrap();
    let path_r = read_string_at(input, hpos);
    if path_r.is_none() {
        proof {
            assert forall|c0: Change|
                enc_change_v(c0@).is_prefix_of(input@.skip(pos as int)) implies false by {
                crate::codec::lemma_parts3(
                    input@,
                    pos as int,
                    enc_str(c0@.hash),
                    enc_str(c0@.path),
                    enc_u64(c0@.timestamp),
                );
                assert(hash@ == c0@.hash && hpos == pos + enc_str(c0@.hash).len());
            };
        }
        return None;
    }
    let (path, ppos) = path_r.unwrap();
    let ts_r = read_u64(input, ppos);
    if ts_r.is_none() {
        proof {
            assert forall|c0: Change|
                enc_change_v(c0@).is_prefix_of(input@.skip(pos as int)) implies false by {
                crate::codec::lemma_parts3(
                    input@,
                    pos as int,
                    enc_str(c0@.hash),
                    enc_str(c0@.path),
                    enc_u64(c0@.timestamp),
                );
                assert(hash@ == c0@.hash && hpos == pos + enc_str(c0@.hash).len());
                assert(path@ == c0@.path && ppos == hpos + enc_str(c0@.path).len());
            };
        }
        return None;
    }
    let (timestamp, end) = ts_r.unwrap();
    let c = Change { hash, path, timestamp };
    proof {
        assert(input@.subrange(pos as int, end as int) =~= input@.subrange(
            pos as int,
            hpos as int,
        ) + input@.subrange(hpos as int, ppos as int) + input@.subrange(
            ppos as int,
            end as int,
        ));
        assert(input@.subrange(pos as int, end as int) == enc_change_v(c@));
        assert forall|c0: Change|
            enc_change_v(c0@).is_prefix_of(input@.skip(pos as int)) implies c@ == c0@ && end
            == pos + enc_change_v(c0@).len() by {
            crate::codec::lemma_parts3(
                input@,
                pos as int,
                enc_str(c0@.hash),
                enc_str(c0@.path),
                enc_u64(c0@.timestamp),
            );
            assert(hash@ == c0@.hash && hpos == pos + enc_str(c0@.hash).len());
            assert(path@ == c0@.path && ppos == hpos + enc_str(c0@.path).len());
            assert(input@.subrange(ppos as int, ppos + 8) == enc_u64(c0@.timestamp));
            assert(timestamp == c0@.timestamp);
            assert(c@ =~= c0@);
        };
    }
    Some((c, end))
}

/// Where each part of a record's encoding sits, when the whole input is
/// exactly that encoding and its first sixteen bytes encode `id` and `cnt`.
proof fn lemma_record_parts(input: Seq<u8>, c0: Commit, id: u64, cnt: u64)
    requires
        input.len() <= usize::MAX,
        16 <= input.len(),
        input == enc_record_v(c0@),
        input.subrange(0, 8) == enc_u64(id),
        input.subrange(8, 16) == enc_u64(cnt),
    ensures
        id == c0@.id,
        cnt == c0@.changes.len() as u64,
        c0@.changes.len() <= u64::MAX,
        enc_changes_v(c0@.changes).is_prefix_of(input.skip(16)),
        enc_u64(c0@.timestamp).is_prefix_of(
            input.skip(16 + enc_changes_v(c0@.changes).len() as int),
        ),
        input.len() == 16 + enc_changes_v(c0@.changes).len() + 8,
{
    lemma_auto_spec_u64_to_from_le_bytes();
    vstd::std_specs::vec::axiom_spec_len(&c0.changes);
    assert(input.skip(0) =~= input);
    assert(enc_u64(c0@.id) + enc_u64(c0@.changes.len() as u64) + (enc_changes_v(c0@.changes)
        + enc_u64(c0@.timestamp)) =~= input);
    assert((enc_u64(c0@.id) + enc_u64(c0@.changes.len() as u64) + (enc_changes_v(c0@.changes)
        + enc_u64(c0@.timestamp))).is_prefix_of(input.skip(0)));
    crate::codec::lemma_parts3(
        input,
        0,
        enc_u64(c0@.id),
        enc_u64(c0@.changes.len() as u64),
        enc_changes_v(c0@.changes) + enc_u64(c0@.timestamp),
    );
    crate::codec::lemma_concat_prefix(
        enc_changes_v(c0@.changes),
        enc_u64(c0@.timestamp),
        input.skip(16),
    );
    crate::codec::lemma_skip_skip(input, 16, enc_changes_v(c0@.changes).len() as int);
}

/// If a record's changes fill the input from 16 on and the first `j` have
/// been read up to `p`, the next change's encoding starts at `p`.
proof fn lemma_changes_step(input: Seq<u8>, p: int, j: int, c0: Commit)
    requires
        enc_changes_v(c0@.changes).is_prefix_of(input.skip(16)),
        16 <= input.len(),
        0 <= j < c0@.changes.len(),
        p == 16 + enc_changes_v(c0@.changes.take(j)).len(),
    ensures
        p <= input.len(),
        enc_change_v(c0@.changes[j]).is_prefix_of(input.skip(p)),
        c0@.changes[j] == c0.changes@[j]@,
{
    let cs = c0@.changes;
    lemma_enc_changes_split(cs, j);
    crate::codec::lemma_concat_prefix(
        enc_changes_v(cs.take(j)),
        enc_changes_v(cs.skip(j)),
        input.skip(16),
    );
    crate::codec::lemma_skip_skip(input, 16, p - 16);
    assert(enc_changes_v(cs.skip(j)).is_prefix_of(input.skip(p)));
    assert(cs.skip(j).len() > 0);
    assert(enc_changes_v(cs.skip(j)) == enc_change_v(cs.skip(j)[0]) + enc_changes_v(
        cs.skip(j).drop_first(),
    ));
    assert(cs.skip(j)[0] == cs[j]);
    crate::codec::lemma_concat_prefix(
        enc_change_v(cs[j]),
        enc_changes_v(cs.skip(j).drop_first()),
        input.skip(p),
    );
}

/// Decode a change record from exactly the whole of `input`; the inverse of
/// `encode_record`, accepting only canonical encodings.
pub fn decode_record(input: &[u8]) -> (r: Option<Commit>)
    ensures
        r matches Some(c) ==> input@ == enc_record_v(c@),
        forall|c0: Commit| input@ == enc_record_v(c0@) ==> (r matches Some(c) && c@ == c0@),
{
    proof {
        lemma_auto_spec_u64_to_from_le_bytes();
    }
    let ilen = input.len();
    let id_r = read_u64(input, 0);
    if id_r.is_none() {
        proof {
            assert forall|c0: Commit| input@ == enc_record_v(c0@) implies false by {
                assert(enc_record_v(c0@).len() >= 8);
            };
        }
        return None;
    }
    let (id, _) = id_r.unwrap();
    let cnt_r = read_u64(input, 8);
    if cnt_r.is_none() {
        proof {
            assert forall|c0: Commit| input@ == enc_record_v(c0@) implies false by {
                assert(enc_record_v(c0@).len() >= 16);
            };
        }
        return None;
    }
    let (cnt, start) = cnt_r.unwrap();
    let mut changes: Vec<Change> = Vec::new();
    let ghost mut cvs: Seq<ChangeView> = Seq::empty();
    let mut p: usize = start;
    let mut j: u64 = 0;
    proof {
        assert(input@.subrange(start as int, start as int) =~= Seq::<u8>::empty());
        assert forall|c0: Commit| input@ == enc_record_v(c0@) implies {
            &&& id == c0@.id
            &&& cnt == c0@.changes.len() as u64
            &&& c0@.changes.len() <= u64::MAX
            &&& cvs == c0@.changes.take(0)
            &&& p == 16 + enc_changes_v(c0@.changes.take(0)).len()
        } by {
            lemma_record_parts(input@, c0, id, cnt);
            assert(cvs =~= c0@.changes.take(0));
            assert(enc_changes_v(c0@.changes.take(0)) == Seq::<u8>::empty());
        };
    }
    while j < cnt
        invariant
            input@.len() <= usize::MAX,
            start == 16,
            start <= p <= input@.len(),
            input@.subrange(0, 8) == enc_u64(id),
            input@.subrange(8, 16) == enc_u64(cnt),
            j <= cnt,
            changes@.len() == j,
            cvs.len() == j,
            forall|k: int| 0 <= k < j ==> #[trigger] cvs[k] == changes@[k]@,
            input@.subrange(start as int, p as int) == enc_changes_v(cvs),
            forall|c0: Commit|
                input@ == enc_record_v(c0@) ==> {
                    &&& id == c0@.id
                    &&& cnt == c0@.changes.len() as u64
                    &&& c0@.changes.len() <= u64::MAX
                    &&& j <= c0@.changes.len()
                    &&& cvs == c0@.changes.take(j as int)
                    &&& p == 16 + enc_changes_v(c0@.changes.take(j as int)).len()
                },
        decreases cnt - j,
    {
        let change_r = read_change_at(input, p);
        if change_r.is_none() {
            proof {
                assert forall|c0: Commit| input@ == enc_record_v(c0@) implies false by {
                    lemma_record_parts(input@, c0, id, cnt);
                    lemma_changes_step(input@, p as int, j as int, c0);
                    let gc = c0.changes@[j as int];
                    assert(enc_change_v(gc@).is_prefix_of(input@.skip(p as int)));
                };
            }
            return None;
        }
        let (ch, pe) = change_r.unwrap();
        let ghost cvs_old = cvs;
        let ghost p_old = p as int;
        changes.push(ch);
        proof {
            cvs = cvs.push(ch@);
        }
        p = pe;
        j = j + 1;
        proof {
            lemma_enc_changes_push(cvs_old, ch@);
            assert(input@.subrange(start as int, p as int) =~= input@.subrange(
                start as int,
                p_old,
            ) + input@.subrange(p_old, p as int));
            assert(input@.subrange(start as int, p as int) == enc_changes_v(cvs));
            assert forall|c0: Commit| input@ == enc_record_v(c0@) implies {
                &&& j <= c0@.changes.len()
                &&& cvs == c0@.changes.take(j as int)
                &&& p == 16 + enc_changes_v(c0@.changes.take(j as int)).len()
            } by {
                lemma_record_parts(input@, c0, id, cnt);
                lemma_changes_step(input@, p_old, j - 1, c0);
                let gc = c0.changes@[j - 1];
                assert(enc_change_v(gc@).is_prefix_of(input@.skip(p_old)));
                assert(ch@ == c0@.changes[j - 1] && pe == p_old + enc_change_v(
                    c0@.changes[j - 1],
                ).len());
                assert(cvs =~= c0@.changes.take(j as int));
                lemma_enc_changes_push(c0@.changes.take(j - 1), c0@.changes[j - 1]);
                assert(c0@.changes.take(j as int) =~= c0@.changes.take(j - 1).push(
                    c0@.changes[j - 1],
                ));
            };
        }
    }
    let ts_r = read_u64(input, p);
    if ts_r.is_none() {
        proof {
            assert forall|c0: Commit| input@ == enc_record_v(c0@) implies false by {
                lemma_record_parts(input@, c0, id, cnt);
                assert(c0@.changes.take(cnt as int) =~= c0@.changes);
                crate::codec::lemma_skip_skip(input@, 16, p - 16);
            };
        }
        return None;
    }
    let (timestamp, end) = ts_r.unwrap();
    if end != ilen {
        proof {
            assert forall|c0: Commit| input@ == enc_record_v(c0@) implies false by {
                lemma_record_parts(input@, c0, id, cnt);
                assert(c0@.changes.take(cnt as int) =~= c0@.changes);
            };
        }
        return None;
    }
    let c = Commit { id, changes, timestamp };
    proof {
        assert(c@.changes =~= cvs);
        assert(input@ =~= input@.subrange(0, 8) + input@.subrange(8, 16) + input@.subrange(
            16,
            p as int,
        ) + input@.subrange(p as int, end as int));
        assert(input@ == enc_record_v(c@));
        assert forall|c0: Commit| input@ == enc_record_v(c0@) implies c@ == c0@ by {
            lemma_record_parts(input@, c0, id, cnt);
            assert(c0@.changes.take(cnt as int) =~= c0@.changes);
            assert(cvs =~= c0@.changes);
            crate::codec::lemma_skip_skip(input@, 16, p - 16);
            assert(input@.subrange(p as int, p + 8) == enc_u64(c0@.timestamp));
            assert(c@ =~= c0@);
        };
    }
    Some(c)
}


/// One journal frame: the four-byte little-endian length of the compressed
/// record, then the compressed record itself.
pub open spec fn journal_frame(c: CommitView) -> Seq<u8> {
    enc_u32(zstd_of(enc_record_v(c)).len() as u32) + zstd_of(enc_record_v(c))
}

/// Whether a record's compressed form fits a four-byte length header.
pub open spec fn frame_fits(c: CommitView) -> bool {
    zstd_of(enc_record_v(c)).len() <= u32::MAX
}

/// The byte image of a journal holding these records, in order.
pub open spec fn image_of(cs: Seq<CommitView>) -> Seq<u8>
    decreases cs.len(),
{
    if cs.len() == 0 {
        Seq::empty()
    } else {
        journal_frame(cs[0]) + image_of(cs.drop_first())
    }
}

/// The models of a list of records.
pub open spec fn views_of(v: Seq<Commit>) -> Seq<CommitView> {
    Seq::new(v.len(), |i: int| v[i]@)
}

/// A byte tail that is not a complete frame: shorter than a length header,
/// or shorter than the length its header announces.
pub open spec fn torn_frame_start(t: Seq<u8>) -> bool {
    t.len() > 0 && (t.len() < 4 || t.len() < 4 + spec_u32_from_le_bytes(t.subrange(0, 4)))
}

/// A byte tail that starts with a whole, well-framed frame whose payload is
/// a compression of something that is no record encoding: likely
/// corruption, which replay must treat as a hard error.
pub open spec fn undecodable_frame(t: Seq<u8>) -> bool {
    &&& t.len() >= 4
    &&& 4 + spec_u32_from_le_bytes(t.subrange(0, 4)) <= t.len()
    &&& exists|orig: Seq<u8>|
        t.subrange(4, 4 + spec_u32_from_le_bytes(t.subrange(0, 4)) as int) == #[trigger] zstd_of(
            orig,
        ) && (forall|c: Commit| orig != #[trigger] enc_record_v(c@))
}

/// Every tail the replay's position tracking accounts for: nothing, a torn
/// frame from a crashed append, or a whole frame holding no record.
pub open spec fn tail_acceptable(t: Seq<u8>) -> bool {
    t.len() == 0 || torn_frame_start(t) || undecodable_frame(t)
}

/// Appending one record appends its frame.
pub proof fn lemma_image_push(cs: Seq<CommitView>, c: CommitView)
    ensures
        image_of(cs.push(c)) == image_of(cs) + journal_frame(c),
    decreases cs.len(),
{
    let p = cs.push(c);
    assert(p[0] == if cs.len() == 0 { c } else { cs[0] });
    assert(image_of(p) == journal_frame(p[0]) + image_of(p.drop_first()));
    if cs.len() == 0 {
        assert(p.drop_first() =~= Seq::<CommitView>::empty());
        assert(image_of(p) =~= image_of(cs) + journal_frame(c));
    } else {
        lemma_image_push(cs.drop_first(), c);
        assert(p.drop_first() =~= cs.drop_first().push(c));
        assert(image_of(cs) == journal_frame(cs[0]) + image_of(cs.drop_first()));
        assert(image_of(p) =~= image_of(cs) + journal_frame(c));
    }
}

/// Splitting a record sequence splits its image.
proof fn lemma_image_split(cs: Seq<CommitView>, j: int)
    requires
        0 <= j <= cs.len(),
    ensures
        image_of(cs) == image_of(cs.take(j)) + image_of(cs.skip(j)),
    decreases j,
{
    if j == 0 {
        assert(cs.take(0) =~= Seq::<CommitView>::empty());
        assert(cs.skip(0) =~= cs);
        assert(image_of(cs) =~= image_of(cs.take(0)) + image_of(cs.skip(0)));
    } else {
        let d = cs.drop_first();
        lemma_image_split(d, j - 1);
        assert(d.take(j - 1) =~= cs.take(j).drop_first());
        assert(d.skip(j - 1) =~= cs.skip(j));
        assert(image_of(cs) == journal_frame(cs[0]) + image_of(d));
        assert(cs.take(j)[0] == cs[0]);
        assert(cs.take(j).len() == j);
        assert(image_of(cs.take(j)) == journal_frame(cs[0]) + image_of(
            cs.take(j).drop_first(),
        ));
        assert(image_of(cs) =~= image_of(cs.take(j)) + image_of(cs.skip(j)));
    }
}

/// If the data is an image followed by tail `t`, and the first `j` records
/// have been read up to `pos`, the next record's frame starts at `pos`.
proof fn lemma_load_step(data: Seq<u8>, pos: int, j: int, cs: Seq<Commit>, t: Seq<u8>)
    requires
        data == image_of(views_of(cs)) + t,
        0 <= j < cs.len(),
        pos == image_of(views_of(cs).take(j)).len(),
    ensures
        pos <= data.len(),
        journal_frame(cs[j]@).is_prefix_of(data.skip(pos)),
        views_of(cs)[j] == cs[j]@,
{
    let vs = views_of(cs);
    assert(image_of(vs).is_prefix_of(data)) by {
        assert(data.subrange(0, image_of(vs).len() as int) =~= image_of(vs));
    };
    lemma_image_split(vs, j);
    assert(data.skip(0) =~= data);
    crate::codec::lemma_concat_prefix(image_of(vs.take(j)), image_of(vs.skip(j)), data);
    assert(image_of(vs.skip(j)).is_prefix_of(data.skip(pos)));
    assert(vs.skip(j).len() > 0);
    assert(image_of(vs.skip(j)) == journal_frame(vs.skip(j)[0]) + image_of(
        vs.skip(j).drop_first(),
    ));
    assert(vs.skip(j)[0] == vs[j]);
    crate::codec::lemma_concat_prefix(
        journal_frame(vs[j]),
        image_of(vs.skip(j).drop_first()),
        data.skip(pos),
    );
}

/// When the next record's frame starts at `pos` and the four bytes there
/// were read as `flen`, that is the frame's payload length, and the payload
/// bytes follow.
proof fn lemma_frame_read(data: Seq<u8>, pos: int, j: int, cs: Seq<Commit>, t: Seq<u8>, flen: u32)
    requires
        data == image_of(views_of(cs)) + t,
        0 <= j < cs.len(),
        frame_fits(cs[j]@),
        pos == image_of(views_of(cs).take(j)).len(),
        data.subrange(pos, pos + 4) == enc_u32(flen),
    ensures
        flen == zstd_of(enc_record_v(cs[j]@)).len(),
        pos + 4 + zstd_of(enc_record_v(cs[j]@)).len() <= data.len(),
        data.subrange(pos + 4, pos + 4 + zstd_of(enc_record_v(cs[j]@)).len() as int) == zstd_of(
            enc_record_v(cs[j]@),
        ),
        views_of(cs)[j] == cs[j]@,
{
    lemma_auto_spec_u32_to_from_le_bytes();
    lemma_load_step(data, pos, j, cs, t);
    let fr = journal_frame(cs[j]@);
    let z = zstd_of(enc_record_v(cs[j]@));
    assert(data.subrange(pos, pos + 4) =~= fr.subrange(0, 4)) by {
        assert forall|i: int| 0 <= i < 4 implies #[trigger] data.subrange(pos, pos + 4)[i]
            == fr.subrange(0, 4)[i] by {
            assert(data.skip(pos)[i] == fr[i]);
        };
    };
    assert(fr.subrange(0, 4) =~= enc_u32(z.len() as u32));
    assert(data.subrange(pos + 4, pos + 4 + z.len() as int) =~= z) by {
        assert forall|i: int|
            0 <= i < z.len() implies #[trigger] data.subrange(
            pos + 4,
            pos + 4 + z.len() as int,
        )[i] == z[i] by {
            assert(data.skip(pos)[4 + i] == fr[4 + i]);
            assert(fr[4 + i] == z[i]);
        };
    };
}

/// The in-memory image of an append-only journal: what its backing file
/// holds, together with an optional capacity of that backing medium.
pub struct CommitLog {
    buf: Vec<u8>,
    limit: Option<usize>,
}

impl CommitLog {
    /// The byte image: what the backing file holds.
    pub closed spec fn bytes(&self) -> Seq<u8> {
        self.buf@
    }

    /// The capacity of the backing medium, if bounded.
    pub closed spec fn capacity(&self) -> Option<usize> {
        self.limit
    }

    /// An empty journal on an unbounded medium.
    pub fn new() -> (l: Self)
        ensures
            l.bytes() == Seq::<u8>::empty(),
            l.capacity() is None,
    {
        CommitLog { buf: Vec::new(), limit: None }
    }

    /// An empty journal on a medium that holds at most `limit` bytes.
    pub fn bounded(limit: usize) -> (l: Self)
        ensures
            l.bytes() == Seq::<u8>::empty(),
            l.capacity() == Some(limit),
    {
        CommitLog { buf: Vec::new(), limit: Some(limit) }
    }

    /// A journal resuming over an existing byte image.
    pub fn from_bytes(data: Vec<u8>) -> (l: Self)
        ensures
            l.bytes() == data@,
            l.capacity() is None,
    {
        CommitLog { buf: data, limit: None }
    }

    /// The raw image, for the caller that persists it.
    pub fn raw(&self) -> (r: &Vec<u8>)
        ensures
            r@ == self.bytes(),
    {
        &self.buf
    }

    /// Discard everything from position `n` on (used to drop a torn tail).
    pub fn truncate_to(&mut self, n: usize)
        requires
            n <= old(self).bytes().len(),
        ensures
            final(self).bytes() == old(self).bytes().take(n as int),
            final(self).capacity() == old(self).capacity(),
    {
        self.buf.truncate(n);
    }

    /// Serialize, compress, frame and append one record. On failure the
    /// image is unchanged: `Encode` if the record cannot be compressed or
    /// does not fit a frame, `Io` if the medium's capacity is exhausted.
    pub fn append(&mut self, c: &Commit) -> (r: Result<(), Error>)
        ensures
            r matches Ok(_) ==> frame_fits(c@) && final(self).bytes() == old(self).bytes()
                + journal_frame(c@) && final(self).capacity() == old(self).capacity() && (
            old(self).capacity() matches Some(l) ==> final(self).bytes().len() <= l),
            r is Err ==> *final(self) == *old(self),
            r matches Err(e) ==> e == Error::Encode || e == Error::Io,
            r == Err::<(), Error>(Error::Io) ==> (old(self).capacity() matches Some(l)
                && old(self).bytes().len() + journal_frame(c@).len() > l),
    {
        proof {
            lemma_auto_spec_u32_to_from_le_bytes();
        }
        let rec = encode_record(c);
        let zs = match compress(rec.as_slice()) {
            Ok(v) => v,
            Err(_) => {
                return Err(Error::Encode);
            },
        };
        if zs.len() > (u32::MAX as usize) {
            return Err(Error::Encode);
        }
        match self.limit {
            Some(l) => {
                let used = self.buf.len();
                if used > l {
                    return Err(Error::Io);
                }
                let room = l - used;
                if room < 4 || room - 4 < zs.len() {
                    return Err(Error::Io);
                }
            },
            None => {},
        }
        let mut zs = zs;
        write_u32(&mut self.buf, zs.len() as u32);
        self.buf.append(&mut zs);
        proof {
            assert(self.buf@ =~= old(self).bytes() + journal_frame(c@));
        }
        Ok(())
    }

    /// Replay a journal's byte image: the records of every complete frame,
    /// in order. Returns the records, the image length they cover, and
    /// whether a torn final frame (a crashed append) was discarded. A frame
    /// that does not decompress or decode is a hard error.
    #[verifier::rlimit(90)]
    pub fn load(data: &[u8]) -> (r: Result<(Vec<Commit>, usize, bool), Error>)
        ensures
            forall|cs: Seq<Commit>, t: Seq<u8>|
                {
                    &&& data@ == image_of(views_of(cs)) + t
                    &&& (t.len() == 0 || torn_frame_start(t))
                    &&& (forall|k: int| 0 <= k < cs.len() ==> frame_fits(#[trigger] cs[k]@))
                } ==> (r matches Ok(p) && {
                    &&& views_of(p.0@) == views_of(cs)
                    &&& p.1 == image_of(views_of(cs)).len()
                    &&& p.2 == (t.len() > 0)
                }),
            forall|cs: Seq<Commit>, t: Seq<u8>|
                {
                    &&& data@ == image_of(views_of(cs)) + t
                    &&& undecodable_frame(t)
                    &&& (forall|k: int| 0 <= k < cs.len() ==> frame_fits(#[trigger] cs[k]@))
                } ==> r == Err::<(Vec<Commit>, usize, bool), Error>(Error::Io),
            r matches Ok(p) ==> p.1 <= data@.len(),
            r matches Err(e) ==> e == Error::Io,
    {
        proof {
            lemma_auto_spec_u32_to_from_le_bytes();
        }
        let ilen = data.len();
        let mut out: Vec<Commit> = Vec::new();
        let mut pos: usize = 0;
        loop
            invariant
                data@.len() <= usize::MAX,
                ilen == data@.len(),
                pos <= ilen,
                forall|cs: Seq<Commit>, t: Seq<u8>|
                    {
                        &&& data@ == image_of(views_of(cs)) + t
                        &&& tail_acceptable(t)
                        &&& (forall|k: int|
                            0 <= k < cs.len() ==> frame_fits(#[trigger] cs[k]@))
                    } ==> {
                        &&& out@.len() <= cs.len()
                        &&& (forall|k: int|
                            0 <= k < out@.len() ==> #[trigger] out@[k]@ == cs[k]@)
                        &&& pos == image_of(views_of(cs).take(out@.len() as int)).len()
                    },
            decreases ilen - pos,
        {
            proof {
                lemma_auto_spec_u32_to_from_le_bytes();
                lemma_auto_spec_u64_to_from_le_bytes();
            }
            if pos == ilen {
                proof {
                    assert forall|cs: Seq<Commit>, t: Seq<u8>|
                        {
                            &&& data@ == image_of(views_of(cs)) + t
                            &&& (t.len() == 0 || torn_frame_start(t))
                            &&& (forall|k: int|
                                0 <= k < cs.len() ==> frame_fits(#[trigger] cs[k]@))
                        } implies {
                        &&& views_of(out@) == views_of(cs)
                        &&& pos == image_of(views_of(cs)).len()
                        &&& false == (t.len() > 0)
                    } by {
                        let j = out@.len() as int;
                        if j < cs.len() {
                            lemma_load_step(data@, pos as int, j, cs, t);
                            assert(journal_frame(cs[j]@).len() >= 4);
                        }
                        assert(views_of(cs).take(cs.len() as int) =~= views_of(cs));
                        assert(views_of(out@) =~= views_of(cs));
                    };
                    assert forall|cs: Seq<Commit>, t: Seq<u8>|
                        {
                            &&& data@ == image_of(views_of(cs)) + t
                            &&& undecodable_frame(t)
                            &&& (forall|k: int|
                                0 <= k < cs.len() ==> frame_fits(#[trigger] cs[k]@))
                        } implies false by {
                        let j = out@.len() as int;
                        if j < cs.len() {
                            lemma_load_step(data@, pos as int, j, cs, t);
                            assert(journal_frame(cs[j]@).len() >= 4);
                        } else {
                            assert(views_of(cs).take(cs.len() as int) =~= views_of(cs));
                            assert(t.len() == data@.len() - pos);
                        }
                    };
                }
                return Ok((out, pos, false));
            }
            let head = read_u32(data, pos);
            let torn = match head {
                None => true,
                Some((flen, fstart)) => (ilen - fstart) < (flen as usize)
                    || (flen as usize) > ilen,
            };
            if torn {
                proof {
                    assert forall|cs: Seq<Commit>, t: Seq<u8>|
                        {
                            &&& data@ == image_of(views_of(cs)) + t
                            &&& (t.len() == 0 || torn_frame_start(t))
                            &&& (forall|k: int|
                                0 <= k < cs.len() ==> frame_fits(#[trigger] cs[k]@))
                        } implies {
                        &&& views_of(out@) == views_of(cs)
                        &&& pos == image_of(views_of(cs)).len()
                        &&& true == (t.len() > 0)
                    } by {
                        let j = out@.len() as int;
                        if j < cs.len() {
                            lemma_load_step(data@, pos as int, j, cs, t);
                            let fr = journal_frame(cs[j]@);
                            assert(data@.subrange(pos as int, pos + 4) =~= fr.subrange(0, 4));
                            assert(fr.subrange(0, 4) =~= enc_u32(
                                zstd_of(enc_record_v(cs[j]@)).len() as u32,
                            ));
                            assert(false);
                        }
                        assert(views_of(cs).take(cs.len() as int) =~= views_of(cs));
                        assert(views_of(out@) =~= views_of(cs));
                        assert(pos == image_of(views_of(cs)).len());
                        assert(t.len() == data@.len() - pos);
                        assert(t =~= data@.skip(pos as int));
                    };
                    assert forall|cs: Seq<Commit>, t: Seq<u8>|
                        {
                            &&& data@ == image_of(views_of(cs)) + t
                            &&& undecodable_frame(t)
                            &&& (forall|k: int|
                                0 <= k < cs.len() ==> frame_fits(#[trigger] cs[k]@))
                        } implies false by {
                        let j = out@.len() as int;
                        if j < cs.len() {
                            lemma_load_step(data@, pos as int, j, cs, t);
                            let fr = journal_frame(cs[j]@);
                            assert(data@.subrange(pos as int, pos + 4) =~= fr.subrange(0, 4));
                            assert(fr.subrange(0, 4) =~= enc_u32(
                                zstd_of(enc_record_v(cs[j]@)).len() as u32,
                            ));
                        } else {
                            assert(views_of(cs).take(cs.len() as int) =~= views_of(cs));
                            assert(t =~= data@.skip(pos as int));
                            assert(pos + 4 <= data@.len());
                            match head {
                                Some(hd) => {
                                    assert(t.subrange(0, 4) =~= data@.subrange(
                                        pos as int,
                                        pos + 4,
                                    ));
                                    assert(spec_u32_from_le_bytes(t.subrange(0, 4)) == hd.0);
                                },
                                None => {},
                            }
                        }
                    };
                }
                return Ok((out, pos, true));
            }
            let (flen, fstart) = head.unwrap();
            let fend = fstart + (flen as usize);
            let payload = slice_subrange(data, fstart, fend);
            let plain = match decompress(payload) {
                Ok(v) => v,
                Err(_) => {
                    proof {
                        assert forall|cs: Seq<Commit>, t: Seq<u8>|
                            {
                            &&& data@ == image_of(views_of(cs)) + t
                            &&& (t.len() == 0 || torn_frame_start(t))
                            &&& (forall|k: int|
                                0 <= k < cs.len() ==> frame_fits(#[trigger] cs[k]@))
                        } implies false by {

                            let j = out@.len() as int;
                            if j < cs.len() {
                                lemma_frame_read(data@, pos as int, j, cs, t, flen);
                                assert(payload@ =~= zstd_of(enc_record_v(cs[j]@)));
                            } else {
                                assert(views_of(cs).take(cs.len() as int) =~= views_of(cs));
                                assert(t =~= data@.skip(pos as int));
                                assert(t.len() >= 4);
                                assert(data@.subrange(pos as int, pos + 4) =~= t.subrange(
                                    0,
                                    4,
                                ));
                                assert(false);
                            }

                            assert(payload@ == zstd_of(enc_record_v(cs[out@.len() as int]@)));
                        };
                    }
                    return Err(to_io_err(Error::Decode));
                },
            };
            let rec = match decode_record(plain.as_slice()) {
                Some(c) => c,
                None => {
                    proof {
                        assert forall|cs: Seq<Commit>, t: Seq<u8>|
                            {
                            &&& data@ == image_of(views_of(cs)) + t
                            &&& (t.len() == 0 || torn_frame_start(t))
                            &&& (forall|k: int|
                                0 <= k < cs.len() ==> frame_fits(#[trigger] cs[k]@))
                        } implies false by {

                            let j = out@.len() as int;
                            if j < cs.len() {
                                lemma_frame_read(data@, pos as int, j, cs, t, flen);
                                assert(payload@ =~= zstd_of(enc_record_v(cs[j]@)));
                            } else {
                                assert(views_of(cs).take(cs.len() as int) =~= views_of(cs));
                                assert(t =~= data@.skip(pos as int));
                                assert(t.len() >= 4);
                                assert(data@.subrange(pos as int, pos + 4) =~= t.subrange(
                                    0,
                                    4,
                                ));
                                assert(false);
                            }

                            let gc = cs[out@.len() as int];
                            assert(plain@ == enc_record_v(gc@));
                        };
                    }
                    return Err(to_io_err(Error::Decode));
                },
            };
            let ghost out_old = out@;
            let ghost pos_old = pos as int;
            out.push(rec);
            pos = fend;
            proof {
                assert forall|cs: Seq<Commit>, t: Seq<u8>|
                    {
                        &&& data@ == image_of(views_of(cs)) + t
                        &&& tail_acceptable(t)
                        &&& (forall|k: int|
                            0 <= k < cs.len() ==> frame_fits(#[trigger] cs[k]@))
                    } implies {
                    &&& out@.len() <= cs.len()
                    &&& (forall|k: int| 0 <= k < out@.len() ==> #[trigger] out@[k]@ == cs[k]@)
                    &&& pos == image_of(views_of(cs).take(out@.len() as int)).len()
                } by {
                    let j = out_old.len() as int;
                    assert(j < cs.len()) by {
                        if j >= cs.len() {
                            assert(views_of(cs).take(cs.len() as int) =~= views_of(cs));
                            assert(t =~= data@.skip(pos_old));
                            assert(t.len() >= 4);
                            assert(data@.subrange(pos_old, pos_old + 4) =~= t.subrange(0, 4));
                            let w = spec_u32_from_le_bytes(t.subrange(0, 4));
                            assert(w == flen);
                            if undecodable_frame(t) {
                                let orig = choose|orig: Seq<u8>|
                                    t.subrange(4, 4 + w as int) == #[trigger] zstd_of(orig)
                                        && (forall|c: Commit|
                                        orig != #[trigger] enc_record_v(c@));
                                assert(payload@ =~= t.subrange(4, 4 + w as int));
                                assert(payload@ == zstd_of(orig));
                                assert(plain@ == orig);
                                assert(plain@ == enc_record_v(rec@));
                                assert(orig != enc_record_v(rec@));
                            }
                        }
                    };
                    lemma_frame_read(data@, pos_old, j, cs, t, flen);
                    assert(payload@ =~= zstd_of(enc_record_v(cs[j]@)));
                    assert(plain@ == enc_record_v(cs[j]@));
                    assert(rec@ == cs[j]@);
                    assert(views_of(cs).take(j + 1) =~= views_of(cs).take(j).push(cs[j]@));
                    lemma_image_push(views_of(cs).take(j), cs[j]@);
                };
            }
        }
    }
}

} // verus!
