//! The canonical binary format: length-prefixed, little-endian framing for
//! object payloads, names and change records. The hash of an object is
//! computed over exactly these bytes, so the format is part of the library's
//! contract and is verified here down to the byte level. The format is this
//! crate's own: object identities and the journal's layout are defined over
//! these bytes and over no other serialization.

use vstd::prelude::*;
use vstd::bytes::*;
use vstd::slice::*;
use vstd::utf8::{encode_utf8, valid_utf8};
use crate::object::{Blob, Tree, TreeEntry, Commit, Object};
use crate::object::{EntryView, TreeView, CommitView, ObjectView};

verus! {

broadcast use vstd::std_specs::vec::group_vec_axioms;

/// Four-byte little-endian encoding of a tag or length.
pub open spec fn enc_u32(x: u32) -> Seq<u8> {
    spec_u32_to_le_bytes(x)
}

/// Eight-byte little-endian encoding of a count or timestamp.
pub open spec fn enc_u64(x: u64) -> Seq<u8> {
    spec_u64_to_le_bytes(x)
}

/// A byte string: eight-byte length, then the bytes themselves.
pub open spec fn enc_bytes(b: Seq<u8>) -> Seq<u8> {
    enc_u64(b.len() as u64) + b
}

/// A character string: its UTF-8 bytes, length-prefixed.
pub open spec fn enc_str(s: Seq<char>) -> Seq<u8> {
    enc_bytes(encode_utf8(s))
}

/// Append the four-byte encoding of `x`.
pub fn write_u32(out: &mut Vec<u8>, x: u32)
    ensures
        final(out)@ == old(out)@ + enc_u32(x),
{
    let mut b = u32_to_le_bytes(x);
    out.append(&mut b);
}

/// Append the eight-byte encoding of `x`.
pub fn write_u64(out: &mut Vec<u8>, x: u64)
    ensures
        final(out)@ == old(out)@ + enc_u64(x),
{
    let mut b = u64_to_le_bytes(x);
    out.append(&mut b);
}

/// Append the length-prefixed encoding of the byte string `b`.
pub fn write_bytes(out: &mut Vec<u8>, b: &[u8])
    ensures
        final(out)@ == old(out)@ + enc_bytes(b@),
{
    let ghost out0 = out@;
    write_u64(out, b.len() as u64);
    let mut body = slice_to_vec(b);
    out.append(&mut body);
    proof {
        assert(out@ =~= out0 + enc_bytes(b@));
    }
}

/// Append the length-prefixed UTF-8 encoding of the string `s`.
pub fn write_str(out: &mut Vec<u8>, s: &str)
    ensures
        final(out)@ == old(out)@ + enc_str(s@),
{
    let bytes = s.as_bytes();
    write_bytes(out, bytes);
}

/// Read the four bytes at `pos` as a little-endian 32-bit value.
pub fn read_u32(input: &[u8], pos: usize) -> (r: Option<(u32, usize)>)
    requires
        pos <= input@.len(),
    ensures
        r matches Some(p) ==> p.1 == pos + 4 && pos + 4 <= input@.len()
            && input@.subrange(pos as int, p.1 as int) == enc_u32(p.0),
        pos + 4 <= input@.len() ==> r is Some,
{
    proof {
        lemma_auto_spec_u32_to_from_le_bytes();
    }
    if pos <= input.len() && input.len() - pos >= 4 {
        let s = slice_subrange(input, pos, pos + 4);
        let x = u32_from_le_bytes(s);
        Some((x, pos + 4))
    } else {
        None
    }
}

/// Read the eight bytes at `pos` as a little-endian 64-bit value.
pub fn read_u64(input: &[u8], pos: usize) -> (r: Option<(u64, usize)>)
    requires
        pos <= input@.len(),
    ensures
        r matches Some(p) ==> p.1 == pos + 8 && pos + 8 <= input@.len()
            && input@.subrange(pos as int, p.1 as int) == enc_u64(p.0),
        pos + 8 <= input@.len() ==> r is Some,
{
    proof {
        lemma_auto_spec_u64_to_from_le_bytes();
    }
    if pos <= input.len() && input.len() - pos >= 8 {
        let s = slice_subrange(input, pos, pos + 8);
        let x = u64_from_le_bytes(s);
        Some((x, pos + 8))
    } else {
        None
    }
}

/// Read a length-prefixed byte string starting at `pos`.
pub fn read_bytes_at(input: &[u8], pos: usize) -> (r: Option<(Vec<u8>, usize)>)
    requires
        pos <= input@.len(),
    ensures
        r matches Some(p) ==> pos <= p.1 <= input@.len()
            && input@.subrange(pos as int, p.1 as int) == enc_bytes(p.0@),
        forall|b: Seq<u8>|
            b.len() <= u64::MAX && enc_bytes(b).is_prefix_of(input@.skip(pos as int))
                ==> (r matches Some(p) && p.0@ == b && p.1 == pos + enc_bytes(b).len()),
{
    proof {
        lemma_auto_spec_u64_to_from_le_bytes();
    }
    match read_u64(input, pos) {
        None => {
            proof {
                assert forall|b: Seq<u8>|
                    b.len() <= u64::MAX && enc_bytes(b).is_prefix_of(input@.skip(pos as int))
                        implies false by {
                    assert(enc_bytes(b).len() >= 8);
                    assert(input@.skip(pos as int).len() >= 8);
                };
            }
            None
        },
        Some((n, body)) => {
            // body == pos + 8; at most input.len() more bytes can follow
            if n <= (input.len() - body) as u64 {
                let len = n as usize;
                let bytes = slice_to_vec(slice_subrange(input, body, body + len));
                let end = body + len;
                proof {
                    assert(input@.subrange(pos as int, end as int) =~= enc_u64(n)
                        + input@.subrange(body as int, end as int));
                    assert forall|b: Seq<u8>|
                        b.len() <= u64::MAX && enc_bytes(b).is_prefix_of(
                            input@.skip(pos as int),
                        ) implies bytes@ == b && end == pos + enc_bytes(b).len() by {
                        lemma_prefix_reads(input@, pos as int, b);
                        assert(input@.subrange(pos as int, pos + 8) == enc_u64(
                            b.len() as u64,
                        ));
                        assert(n == b.len() as u64);
                        assert(bytes@ =~= b);
                    };
                }
                Some((bytes, end))
            } else {
                proof {
                    assert forall|b: Seq<u8>|
                        b.len() <= u64::MAX && enc_bytes(b).is_prefix_of(
                            input@.skip(pos as int),
                        ) implies false by {
                        lemma_prefix_reads(input@, pos as int, b);
                        assert(input@.subrange(pos as int, pos + 8) == enc_u64(
                            b.len() as u64,
                        ));
                        assert(n == b.len() as u64);
                    };
                }
                None
            }
        },
    }
}

/// If `enc_bytes(b)` starts at `pos` in `s`, the eight bytes there encode
/// `b`'s length and the `b.len()` bytes after them are `b` itself.
proof fn lemma_prefix_reads(s: Seq<u8>, pos: int, b: Seq<u8>)
    requires
        0 <= pos <= s.len(),
        enc_bytes(b).is_prefix_of(s.skip(pos)),
    ensures
        pos + 8 + b.len() <= s.len(),
        s.subrange(pos, pos + 8) == enc_u64(b.len() as u64),
        s.subrange(pos + 8, pos + 8 + b.len() as int) == b,
{
    lemma_auto_spec_u64_to_from_le_bytes();
    let e = enc_bytes(b);
    assert(e.len() == 8 + b.len());
    assert(s.skip(pos).len() == s.len() - pos);
    assert(s.subrange(pos, pos + 8) =~= enc_u64(b.len() as u64)) by {
        assert forall|i: int| 0 <= i < 8 implies #[trigger] s.subrange(pos, pos + 8)[i] == enc_u64(
            b.len() as u64,
        )[i] by {
            assert(s.skip(pos)[i] == e[i]);
        };
    };
    assert(s.subrange(pos + 8, pos + 8 + b.len() as int) =~= b) by {
        assert forall|i: int| 0 <= i < b.len() implies #[trigger] s.subrange(
            pos + 8,
            pos + 8 + b.len() as int,
        )[i] == b[i] by {
            assert(s.skip(pos)[8 + i] == e[8 + i]);
            assert(e[8 + i] == b[i]);
        };
    };
}

/// Relies on `String::from_utf8`: it succeeds exactly on valid UTF-8 input
/// and the resulting string's bytes are the input bytes, unchanged.
#[verifier::external_body]
pub(crate) fn string_from_utf8(v: Vec<u8>) -> (r: Option<String>)
    ensures
        r matches Some(s) ==> valid_utf8(v@) && encode_utf8(s@) == v@,
        valid_utf8(v@) ==> r is Some,
{
    match String::from_utf8(v) {
        Ok(s) => Some(s),
        Err(_) => None,
    }
}

/// Read a length-prefixed UTF-8 string starting at `pos`.
pub fn read_string_at(input: &[u8], pos: usize) -> (r: Option<(String, usize)>)
    requires
        pos <= input@.len(),
    ensures
        r matches Some(p) ==> pos <= p.1 <= input@.len()
            && input@.subrange(pos as int, p.1 as int) == enc_str(p.0@),
        forall|s: Seq<char>|
            encode_utf8(s).len() <= u64::MAX && enc_str(s).is_prefix_of(
                input@.skip(pos as int),
            ) ==> (r matches Some(p) && p.0@ == s && p.1 == pos + enc_str(s).len()),
{
    match read_bytes_at(input, pos) {
        None => {
            proof {
                assert forall|s: Seq<char>|
                    encode_utf8(s).len() <= u64::MAX && enc_str(s).is_prefix_of(
                        input@.skip(pos as int),
                    ) implies false by {
                    assert(enc_bytes(encode_utf8(s)).is_prefix_of(input@.skip(pos as int)));
                };
            }
            None
        },
        Some((bytes, end)) => {
            let ghost bv = bytes@;
            match string_from_utf8(bytes) {
                Some(st) => {
                    proof {
                        assert forall|s: Seq<char>|
                            encode_utf8(s).len() <= u64::MAX && enc_str(s).is_prefix_of(
                                input@.skip(pos as int),
                            ) implies st@ == s && end == pos + enc_str(s).len() by {
                            assert(bv == encode_utf8(s));
                            vstd::utf8::encode_utf8_decode_utf8(st@);
                            vstd::utf8::encode_utf8_decode_utf8(s);
                        };
                    }
                    Some((st, end))
                },
                None => {
                    proof {
                        assert forall|s: Seq<char>|
                            encode_utf8(s).len() <= u64::MAX && enc_str(s).is_prefix_of(
                                input@.skip(pos as int),
                            ) implies false by {
                            assert(bv == encode_utf8(s));
                            vstd::utf8::encode_utf8_valid_utf8(s);
                        };
                    }
                    None
                },
            }
        },
    }
}


/// Encoding of one tree entry: a tag, the name, then the payload.
pub open spec fn enc_entry_v(e: EntryView) -> Seq<u8>
    decreases e,
{
    match e {
        EntryView::Blob { name, content } => enc_u32(0) + enc_str(name) + enc_bytes(content),
        EntryView::Tree { name, tree } => enc_u32(1) + enc_str(name) + enc_tree_v(tree),
    }
}

/// Encoding of a sequence of entries, in order.
pub open spec fn enc_entries_v(es: Seq<EntryView>) -> Seq<u8>
    decreases es,
{
    if es.len() == 0 {
        Seq::empty()
    } else {
        enc_entry_v(es[0]) + enc_entries_v(es.drop_first())
    }
}

/// Encoding of a tree: its entry count, then each entry.
pub open spec fn enc_tree_v(t: TreeView) -> Seq<u8>
    decreases t,
{
    enc_u64(t.entries.len() as u64) + enc_entries_v(t.entries)
}

/// Encoding of a commit: its tree, then its message.
pub open spec fn enc_commit_v(c: CommitView) -> Seq<u8> {
    enc_tree_v(c.tree) + enc_str(c.message)
}

/// Encoding of a content object: a variant tag, then the payload.
pub open spec fn enc_object_v(o: ObjectView) -> Seq<u8> {
    match o {
        ObjectView::Blob(content) => enc_u32(0) + enc_bytes(content),
        ObjectView::Tree(t) => enc_u32(1) + enc_tree_v(t),
        ObjectView::Commit(c) => enc_u32(2) + enc_tree_v(c.tree) + enc_str(c.message),
    }
}

/// Appending one entry to a sequence appends its encoding.
proof fn lemma_enc_entries_push(es: Seq<EntryView>, e: EntryView)
    ensures
        enc_entries_v(es.push(e)) == enc_entries_v(es) + enc_entry_v(e),
    decreases es.len(),
{
    let p = es.push(e);
    assert(p.len() == es.len() + 1);
    assert(p[0] == if es.len() == 0 { e } else { es[0] });
    assert(enc_entries_v(p) == enc_entry_v(p[0]) + enc_entries_v(p.drop_first()));
    if es.len() == 0 {
        assert(p.drop_first() =~= Seq::<EntryView>::empty());
        assert(enc_entries_v(p.drop_first()) == Seq::<u8>::empty());
        assert(enc_entries_v(es) == Seq::<u8>::empty());
        assert(enc_entries_v(p) =~= enc_entries_v(es) + enc_entry_v(e));
    } else {
        lemma_enc_entries_push(es.drop_first(), e);
        assert(p.drop_first() =~= es.drop_first().push(e));
        assert(enc_entries_v(es) == enc_entry_v(es[0]) + enc_entries_v(es.drop_first()));
        assert(enc_entries_v(p) =~= enc_entries_v(es) + enc_entry_v(e));
    }
}

/// Append the encoding of one tree entry.
fn write_entry(out: &mut Vec<u8>, e: &TreeEntry)
    ensures
        final(out)@ == old(out)@ + enc_entry_v(e@),
    decreases *e,
{
    match e {
        TreeEntry::Blob { name, blob } => {
            write_u32(out, 0);
            write_str(out, name.as_str());
            write_bytes(out, blob.content.as_slice());
            proof {
                assert(out@ =~= old(out)@ + enc_entry_v(e@));
            }
        },
        TreeEntry::Tree { name, tree } => {
            write_u32(out, 1);
            write_str(out, name.as_str());
            write_tree(out, tree);
            proof {
                assert(out@ =~= old(out)@ + enc_entry_v(e@));
            }
        },
    }
}

/// Append the encoding of a tree.
fn write_tree(out: &mut Vec<u8>, t: &Tree)
    ensures
        final(out)@ == old(out)@ + enc_tree_v(t@),
    decreases *t,
{
    proof {
        crate::object::lemma_entries_view(t.entries, 0);
    }
    write_u64(out, t.entries.len() as u64);
    let ghost base = out@;
    let n = t.entries.len();
    let mut j: usize = 0;
    while j < n
        invariant
            j <= n,
            n == t.entries@.len(),
            t@.entries.len() == n,
            forall|k: int|
                0 <= k < n ==> #[trigger] t@.entries[k] == crate::object::entry_view(
                    t.entries@[k],
                ),
            out@ == base + enc_entries_v(t@.entries.take(j as int)),
        decreases n - j,
    {
        write_entry(out, &t.entries[j]);
        proof {
            lemma_enc_entries_push(t@.entries.take(j as int), t@.entries[j as int]);
            assert(t@.entries.take(j as int + 1) =~= t@.entries.take(j as int).push(
                t@.entries[j as int],
            ));
            assert(out@ =~= base + enc_entries_v(t@.entries.take(j as int + 1)));
        }
        j += 1;
    }
    proof {
        assert(t@.entries.take(n as int) =~= t@.entries);
        assert(out@ =~= old(out)@ + enc_tree_v(t@));
    }
}

/// The canonical bytes of a blob on its own.
pub fn encode_blob(b: &Blob) -> (out: Vec<u8>)
    ensures
        out@ == enc_bytes(b@),
{
    let mut out: Vec<u8> = Vec::new();
    write_bytes(&mut out, b.content.as_slice());
    proof {
        assert(out@ =~= enc_bytes(b@));
    }
    out
}

/// The canonical bytes of a tree on its own.
pub fn encode_tree(t: &Tree) -> (out: Vec<u8>)
    ensures
        out@ == enc_tree_v(t@),
{
    let mut out: Vec<u8> = Vec::new();
    write_tree(&mut out, t);
    proof {
        assert(out@ =~= enc_tree_v(t@));
    }
    out
}

/// The canonical bytes of a commit on its own.
pub fn encode_commit(c: &Commit) -> (out: Vec<u8>)
    ensures
        out@ == enc_commit_v(c@),
{
    let mut out: Vec<u8> = Vec::new();
    write_tree(&mut out, &c.tree);
    write_str(&mut out, c.message.as_str());
    proof {
        assert(out@ =~= enc_commit_v(c@));
    }
    out
}

/// The canonical bytes of a content object: what is hashed and stored.
pub fn encode_object(o: &Object) -> (out: Vec<u8>)
    ensures
        out@ == enc_object_v(o@),
{
    let mut out: Vec<u8> = Vec::new();
    match o {
        Object::Blob(b) => {
            write_u32(&mut out, 0);
            write_bytes(&mut out, b.content.as_slice());
        },
        Object::Tree(t) => {
            write_u32(&mut out, 1);
            write_tree(&mut out, t);
        },
        Object::Commit(c) => {
            write_u32(&mut out, 2);
            write_tree(&mut out, &c.tree);
            write_str(&mut out, c.message.as_str());
        },
    }
    proof {
        assert(out@ =~= enc_object_v(o@));
    }
    out
}


/// Skipping in two steps is skipping once.
pub(crate) proof fn lemma_skip_skip(s: Seq<u8>, m: int, k: int)
    requires
        0 <= m,
        0 <= k,
        m + k <= s.len(),
    ensures
        s.skip(m).skip(k) == s.skip(m + k),
{
    assert(s.skip(m).skip(k) =~= s.skip(m + k));
}

/// A prefix made of two parts: the first part is a prefix, and the second
/// is a prefix of what follows it.
pub(crate) proof fn lemma_concat_prefix(a: Seq<u8>, b: Seq<u8>, s: Seq<u8>)
    requires
        (a + b).is_prefix_of(s),
    ensures
        a.is_prefix_of(s),
        b.is_prefix_of(s.skip(a.len() as int)),
{
    assert(a =~= s.subrange(0, a.len() as int)) by {
        assert forall|i: int| 0 <= i < a.len() implies a[i] == s.subrange(
            0,
            a.len() as int,
        )[i] by {
            assert((a + b)[i] == a[i]);
            assert((a + b)[i] == s.subrange(0, (a + b).len() as int)[i]);
        };
    };
    assert(b =~= s.skip(a.len() as int).subrange(0, b.len() as int)) by {
        assert forall|i: int| 0 <= i < b.len() implies b[i] == s.skip(
            a.len() as int,
        ).subrange(0, b.len() as int)[i] by {
            assert((a + b)[a.len() + i] == b[i]);
            assert((a + b)[a.len() + i] == s.subrange(0, (a + b).len() as int)[a.len() + i]);
        };
    };
}

/// Splitting an entry sequence splits its encoding.
proof fn lemma_enc_entries_split(es: Seq<EntryView>, j: int)
    requires
        0 <= j <= es.len(),
    ensures
        enc_entries_v(es) == enc_entries_v(es.take(j)) + enc_entries_v(es.skip(j)),
    decreases j,
{
    if j == 0 {
        assert(es.take(0) =~= Seq::<EntryView>::empty());
        assert(es.skip(0) =~= es);
        assert(enc_entries_v(es) =~= enc_entries_v(es.take(0)) + enc_entries_v(es.skip(0)));
    } else {
        let d = es.drop_first();
        lemma_enc_entries_split(d, j - 1);
        assert(d.take(j - 1) =~= es.take(j).drop_first());
        assert(d.skip(j - 1) =~= es.skip(j));
        assert(enc_entries_v(es) == enc_entry_v(es[0]) + enc_entries_v(d));
        assert(es.take(j)[0] == es[0]);
        assert(es.take(j).len() == j);
        assert(enc_entries_v(es.take(j)) == enc_entry_v(es[0]) + enc_entries_v(
            es.take(j).drop_first(),
        ));
        assert(enc_entries_v(es) =~= enc_entries_v(es.take(j)) + enc_entries_v(es.skip(j)));
    }
}

/// If a tree's encoding starts at `pos` and the first `j` entries have been
/// read up to `p`, the next entry's encoding starts at `p`.
proof fn lemma_tree_step(input: Seq<u8>, pos: int, p: int, j: int, t0: Tree, n: u64)
    requires
        0 <= pos <= input.len(),
        enc_tree_v(t0@).is_prefix_of(input.skip(pos)),
        n == t0@.entries.len() as u64,
        t0@.entries.len() <= u64::MAX,
        0 <= j < t0@.entries.len(),
        p == pos + 8 + enc_entries_v(t0@.entries.take(j)).len(),
    ensures
        p <= input.len(),
        enc_entry_v(t0@.entries[j]).is_prefix_of(input.skip(p)),
        t0@.entries[j] == crate::object::entry_view(t0.entries@[j]),
    decreases 0int,
{
    lemma_auto_spec_u64_to_from_le_bytes();
    let es = t0@.entries;
    assert(enc_tree_v(t0@) == enc_u64(n) + enc_entries_v(es));
    lemma_concat_prefix(enc_u64(n), enc_entries_v(es), input.skip(pos));
    lemma_skip_skip(input, pos, 8);
    assert(enc_entries_v(es).is_prefix_of(input.skip(pos + 8)));
    lemma_enc_entries_split(es, j);
    lemma_concat_prefix(
        enc_entries_v(es.take(j)),
        enc_entries_v(es.skip(j)),
        input.skip(pos + 8),
    );
    lemma_skip_skip(input, pos + 8, p - pos - 8);
    assert(enc_entries_v(es.skip(j)).is_prefix_of(input.skip(p)));
    assert(es.skip(j).len() > 0);
    assert(enc_entries_v(es.skip(j)) == enc_entry_v(es.skip(j)[0]) + enc_entries_v(
        es.skip(j).drop_first(),
    ));
    assert(es.skip(j)[0] == es[j]);
    lemma_concat_prefix(
        enc_entry_v(es[j]),
        enc_entries_v(es.skip(j).drop_first()),
        input.skip(p),
    );
    crate::object::lemma_entries_view(t0.entries, 0);
}


/// A prefix in three parts: where each part sits inside the whole.
pub(crate) proof fn lemma_parts3(s: Seq<u8>, pos: int, a: Seq<u8>, b: Seq<u8>, c: Seq<u8>)
    requires
        0 <= pos <= s.len(),
        (a + b + c).is_prefix_of(s.skip(pos)),
    ensures
        pos + a.len() + b.len() + c.len() <= s.len(),
        s.subrange(pos, pos + a.len()) == a,
        b.is_prefix_of(s.skip(pos + a.len())),
        c.is_prefix_of(s.skip(pos + a.len() + b.len())),
        s.subrange(pos + a.len(), pos + a.len() + b.len()) == b,
        s.subrange(
            pos + a.len() + b.len(),
            pos + a.len() + b.len() + c.len(),
        ) == c,
{
    lemma_concat_prefix(a + b, c, s.skip(pos));
    lemma_concat_prefix(a, b, s.skip(pos));
    lemma_skip_skip(s, pos, a.len() as int);
    lemma_skip_skip(s, pos, a.len() + b.len() as int);
    assert(s.subrange(pos, pos + a.len()) =~= a) by {
        assert forall|i: int| 0 <= i < a.len() implies #[trigger] s.subrange(
            pos,
            pos + a.len(),
        )[i] == a[i] by {
            assert(s.skip(pos)[i] == a[i]);
        };
    };
    assert(s.subrange(pos + a.len(), pos + a.len() + b.len()) =~= b) by {
        assert forall|i: int| 0 <= i < b.len() implies #[trigger] s.subrange(
            pos + a.len(),
            pos + a.len() + b.len(),
        )[i] == b[i] by {
            assert(s.skip(pos + a.len())[i] == b[i]);
        };
    };
    assert(s.subrange(
        pos + a.len() + b.len(),
        pos + a.len() + b.len() + c.len(),
    ) =~= c) by {
        assert forall|i: int| 0 <= i < c.len() implies #[trigger] s.subrange(
            pos + a.len() + b.len(),
            pos + a.len() + b.len() + c.len(),
        )[i] == c[i] by {
            assert(s.skip(pos + a.len() + b.len())[i] == c[i]);
        };
    };
}

/// Read one tree entry starting at `pos`.
fn read_entry_at(input: &[u8], pos: usize) -> (r: Option<(TreeEntry, usize)>)
    requires
        pos <= input@.len(),
    ensures
        r matches Some(p) ==> pos <= p.1 <= input@.len()
            && input@.subrange(pos as int, p.1 as int) == enc_entry_v(p.0@),
        forall|e0: TreeEntry|
            enc_entry_v(e0@).is_prefix_of(input@.skip(pos as int)) ==> (r matches Some(p)
                && p.0@ == e0@ && p.1 == pos + enc_entry_v(e0@).len()),
    decreases input@.len() - pos, 0int,
{
    proof {
        lemma_auto_spec_u32_to_from_le_bytes();
        lemma_auto_spec_u64_to_from_le_bytes();
    }
    let ilen = input.len();
    let tag_r = read_u32(input, pos);
    if tag_r.is_none() {
        proof {
            assert forall|e0: TreeEntry|
                enc_entry_v(e0@).is_prefix_of(input@.skip(pos as int)) implies false by {
                match e0@ {
                    EntryView::Blob { name, content } => {
                        lemma_parts3(
                            input@,
                            pos as int,
                            enc_u32(0),
                            enc_str(name),
                            enc_bytes(content),
                        );
                    },
                    EntryView::Tree { name, tree } => {
                        lemma_parts3(
                            input@,
                            pos as int,
                            enc_u32(1),
                            enc_str(name),
                            enc_tree_v(tree),
                        );
                    },
                }
            };
        }
        return None;
    }
    let (tag, tpos) = tag_r.unwrap();
    if tag == 0 {
        let name_r = read_string_at(input, tpos);
        if name_r.is_none() {
            proof {
                assert forall|e0: TreeEntry|
                    enc_entry_v(e0@).is_prefix_of(input@.skip(pos as int)) implies false by {
                    lemma_entry_prefix_blob(input@, pos as int, e0, tag);
                };
            }
            return None;
        }
        let (name, npos) = name_r.unwrap();
        let body_r = read_bytes_at(input, npos);
        if body_r.is_none() {
            proof {
                assert forall|e0: TreeEntry|
                    enc_entry_v(e0@).is_prefix_of(input@.skip(pos as int)) implies false by {
                    lemma_entry_prefix_blob(input@, pos as int, e0, tag);
                    let name0 = e0@->Blob_name;
                    let content0 = e0@->Blob_content;
                    assert(name@ == name0 && npos == pos + 4 + enc_str(name0).len());
                };
            }
            return None;
        }
        let (content, bpos) = body_r.unwrap();
        let e = TreeEntry::Blob { name, blob: Blob { content } };
        proof {
            assert(input@.subrange(pos as int, bpos as int) =~= input@.subrange(
                pos as int,
                tpos as int,
            ) + input@.subrange(tpos as int, npos as int) + input@.subrange(
                npos as int,
                bpos as int,
            ));
            assert(input@.subrange(pos as int, bpos as int) == enc_entry_v(e@));
            assert forall|e0: TreeEntry|
                enc_entry_v(e0@).is_prefix_of(input@.skip(pos as int)) implies e@ == e0@
                && bpos == pos + enc_entry_v(e0@).len() by {
                lemma_entry_prefix_blob(input@, pos as int, e0, tag);
                let name0 = e0@->Blob_name;
                let content0 = e0@->Blob_content;
                assert(name@ == name0 && npos == pos + 4 + enc_str(name0).len());
                assert(content@ == content0);
            };
        }
        Some((e, bpos))
    } else if tag == 1 {
        let name_r = read_string_at(input, tpos);
        if name_r.is_none() {
            proof {
                assert forall|e0: TreeEntry|
                    enc_entry_v(e0@).is_prefix_of(input@.skip(pos as int)) implies false by {
                    lemma_entry_prefix_tree(input@, pos as int, e0, tag);
                };
            }
            return None;
        }
        let (name, npos) = name_r.unwrap();
        let tree_r = read_tree_at(input, npos);
        if tree_r.is_none() {
            proof {
                assert forall|e0: TreeEntry|
                    enc_entry_v(e0@).is_prefix_of(input@.skip(pos as int)) implies false by {
                    lemma_entry_prefix_tree(input@, pos as int, e0, tag);
                    match e0 {
                        TreeEntry::Tree { name: name0, tree: tree0 } => {
                            assert(name@ == name0@ && npos == pos + 4 + enc_str(
                                name0@,
                            ).len());
                            assert(enc_tree_v(tree0@).is_prefix_of(
                                input@.skip(npos as int),
                            ));
                        },
                        TreeEntry::Blob { .. } => {},
                    }
                };
            }
            return None;
        }
        let (tree, epos) = tree_r.unwrap();
        let e = TreeEntry::Tree { name, tree };
        proof {
            assert(input@.subrange(pos as int, epos as int) =~= input@.subrange(
                pos as int,
                tpos as int,
            ) + input@.subrange(tpos as int, npos as int) + input@.subrange(
                npos as int,
                epos as int,
            ));
            assert(input@.subrange(pos as int, epos as int) == enc_entry_v(e@));
            assert forall|e0: TreeEntry|
                enc_entry_v(e0@).is_prefix_of(input@.skip(pos as int)) implies e@ == e0@
                && epos == pos + enc_entry_v(e0@).len() by {
                lemma_entry_prefix_tree(input@, pos as int, e0, tag);
                match e0 {
                    TreeEntry::Tree { name: name0, tree: tree0 } => {
                        assert(name@ == name0@ && npos == pos + 4 + enc_str(name0@).len());
                        assert(enc_tree_v(tree0@).is_prefix_of(input@.skip(npos as int)));
                        assert(tree@ == tree0@ && epos == npos + enc_tree_v(
                            tree0@,
                        ).len());
                    },
                    TreeEntry::Blob { .. } => {},
                }
            };
        }
        Some((e, epos))
    } else {
        proof {
            assert forall|e0: TreeEntry|
                enc_entry_v(e0@).is_prefix_of(input@.skip(pos as int)) implies false by {
                match e0@ {
                    EntryView::Blob { name, content } => {
                        lemma_parts3(
                            input@,
                            pos as int,
                            enc_u32(0),
                            enc_str(name),
                            enc_bytes(content),
                        );
                    },
                    EntryView::Tree { name, tree } => {
                        lemma_parts3(
                            input@,
                            pos as int,
                            enc_u32(1),
                            enc_str(name),
                            enc_tree_v(tree),
                        );
                    },
                }
            };
        }
        None
    }
}

/// An entry whose encoding starts at `pos`, where the tag read there was
/// `tag == 0`, is a blob entry; place its parts.
proof fn lemma_entry_prefix_blob(s: Seq<u8>, pos: int, e0: TreeEntry, tag: u32)
    requires
        0 <= pos,
        pos + 4 <= s.len(),
        s.len() <= usize::MAX,
        enc_entry_v(e0@).is_prefix_of(s.skip(pos)),
        s.subrange(pos, pos + 4) == enc_u32(tag),
        tag == 0,
    ensures
        e0@ is Blob,
        enc_str(e0@->Blob_name).is_prefix_of(s.skip(pos + 4)),
        encode_utf8(e0@->Blob_name).len() <= u64::MAX,
        enc_bytes(e0@->Blob_content).is_prefix_of(
            s.skip(pos + 4 + enc_str(e0@->Blob_name).len()),
        ),
        e0@->Blob_content.len() <= u64::MAX,
        enc_entry_v(e0@).len() == 4 + enc_str(e0@->Blob_name).len() + enc_bytes(
            e0@->Blob_content,
        ).len(),
{
    lemma_auto_spec_u32_to_from_le_bytes();
    lemma_auto_spec_u64_to_from_le_bytes();
    match e0@ {
        EntryView::Blob { name, content } => {
            lemma_parts3(s, pos, enc_u32(0), enc_str(name), enc_bytes(content));
        },
        EntryView::Tree { name, tree } => {
            lemma_parts3(s, pos, enc_u32(1), enc_str(name), enc_tree_v(tree));
            assert(enc_u32(1) == enc_u32(tag));
            assert(false);
        },
    }
}

/// An entry whose encoding starts at `pos`, where the tag read there was
/// `tag == 1`, is a tree entry; place its parts.
proof fn lemma_entry_prefix_tree(s: Seq<u8>, pos: int, e0: TreeEntry, tag: u32)
    requires
        0 <= pos,
        pos + 4 <= s.len(),
        s.len() <= usize::MAX,
        enc_entry_v(e0@).is_prefix_of(s.skip(pos)),
        s.subrange(pos, pos + 4) == enc_u32(tag),
        tag == 1,
    ensures
        e0@ is Tree,
        enc_str(e0@->Tree_name).is_prefix_of(s.skip(pos + 4)),
        encode_utf8(e0@->Tree_name).len() <= u64::MAX,
        enc_tree_v(e0@->Tree_tree).is_prefix_of(
            s.skip(pos + 4 + enc_str(e0@->Tree_name).len()),
        ),
        enc_entry_v(e0@).len() == 4 + enc_str(e0@->Tree_name).len() + enc_tree_v(
            e0@->Tree_tree,
        ).len(),
{
    lemma_auto_spec_u32_to_from_le_bytes();
    lemma_auto_spec_u64_to_from_le_bytes();
    match e0@ {
        EntryView::Blob { name, content } => {
            lemma_parts3(s, pos, enc_u32(0), enc_str(name), enc_bytes(content));
            assert(enc_u32(0) == enc_u32(tag));
            assert(false);
        },
        EntryView::Tree { name, tree } => {
            lemma_parts3(s, pos, enc_u32(1), enc_str(name), enc_tree_v(tree));
        },
    }
}


/// Read a tree (entry count, then that many entries) starting at `pos`.
fn read_tree_at(input: &[u8], pos: usize) -> (r: Option<(Tree, usize)>)
    requires
        pos <= input@.len(),
    ensures
        r matches Some(p) ==> pos <= p.1 <= input@.len()
            && input@.subrange(pos as int, p.1 as int) == enc_tree_v(p.0@),
        forall|t0: Tree|
            enc_tree_v(t0@).is_prefix_of(input@.skip(pos as int)) ==> (r matches Some(p)
                && p.0@ == t0@ && p.1 == pos + enc_tree_v(t0@).len()),
    decreases input@.len() - pos, 1int,
{
    proof {
        lemma_auto_spec_u64_to_from_le_bytes();
    }
    let ilen = input.len();
    let count_r = read_u64(input, pos);
    if count_r.is_none() {
        proof {
            assert forall|t0: Tree|
                enc_tree_v(t0@).is_prefix_of(input@.skip(pos as int)) implies false by {
                assert(enc_tree_v(t0@).len() >= 8);
            };
        }
        return None;
    }
    let (n, start) = count_r.unwrap();
    let mut entries: Vec<TreeEntry> = Vec::new();
    let ghost mut evs: Seq<EntryView> = Seq::empty();
    let mut p: usize = start;
    let mut j: u64 = 0;
    proof {
        assert(input@.subrange(start as int, start as int) =~= Seq::<u8>::empty());
        assert forall|t0: Tree|
            enc_tree_v(t0@).is_prefix_of(input@.skip(pos as int)) implies {
            &&& n == t0@.entries.len() as u64
            &&& t0@.entries.len() <= u64::MAX
            &&& evs == t0@.entries.take(0)
            &&& p == pos + 8 + enc_entries_v(t0@.entries.take(0)).len()
        } by {
            lemma_tree_count(input@, pos as int, t0, n);
            assert(evs =~= t0@.entries.take(0));
            assert(enc_entries_v(t0@.entries.take(0)) == Seq::<u8>::empty());
        };
    }
    while j < n
        invariant
            pos + 8 == start,
            start <= p <= input@.len(),
            j <= n,
            entries@.len() == j,
            evs.len() == j,
            forall|k: int|
                0 <= k < j ==> #[trigger] evs[k] == crate::object::entry_view(entries@[k]),
            input@.subrange(start as int, p as int) == enc_entries_v(evs),
            forall|t0: Tree|
                enc_tree_v(t0@).is_prefix_of(input@.skip(pos as int)) ==> {
                    &&& n == t0@.entries.len() as u64
                    &&& t0@.entries.len() <= u64::MAX
                    &&& j <= t0@.entries.len()
                    &&& evs == t0@.entries.take(j as int)
                    &&& p == pos + 8 + enc_entries_v(t0@.entries.take(j as int)).len()
                },
        decreases n - j,
    {
        let entry_r = read_entry_at(input, p);
        if entry_r.is_none() {
            proof {
                assert forall|t0: Tree|
                    enc_tree_v(t0@).is_prefix_of(input@.skip(pos as int)) implies false by {
                    lemma_tree_step(input@, pos as int, p as int, j as int, t0, n);
                    let ge = t0.entries@[j as int];
                    assert(enc_entry_v(ge@).is_prefix_of(input@.skip(p as int)));
                };
            }
            return None;
        }
        let (e, pe) = entry_r.unwrap();
        let ghost evs_old = evs;
        let ghost p_old = p as int;
        entries.push(e);
        proof {
            evs = evs.push(e@);
        }
        p = pe;
        j = j + 1;
        proof {
            lemma_enc_entries_push(evs_old, e@);
            assert(input@.subrange(start as int, p as int) =~= input@.subrange(
                start as int,
                p_old,
            ) + input@.subrange(p_old, p as int));
            assert(input@.subrange(start as int, p as int) == enc_entries_v(evs));
            assert forall|t0: Tree|
                enc_tree_v(t0@).is_prefix_of(input@.skip(pos as int)) implies {
                &&& j <= t0@.entries.len()
                &&& evs == t0@.entries.take(j as int)
                &&& p == pos + 8 + enc_entries_v(t0@.entries.take(j as int)).len()
            } by {
                assert(j - 1 < t0@.entries.len());
                lemma_tree_step(input@, pos as int, p_old, j - 1, t0, n);
                let ge = t0.entries@[j - 1];
                assert(enc_entry_v(ge@).is_prefix_of(input@.skip(p_old)));
                assert(e@ == t0@.entries[j - 1] && pe == p_old + enc_entry_v(
                    t0@.entries[j - 1],
                ).len());
                assert(evs =~= t0@.entries.take(j as int));
                lemma_enc_entries_push(
                    t0@.entries.take(j - 1),
                    t0@.entries[j - 1],
                );
                assert(t0@.entries.take(j as int) =~= t0@.entries.take(j - 1).push(
                    t0@.entries[j - 1],
                ));
            };
        }
    }
    let t = Tree { entries };
    proof {
        crate::object::lemma_entries_view(t.entries, 0);
        assert(t@.entries =~= evs);
        assert(input@.subrange(pos as int, p as int) =~= input@.subrange(
            pos as int,
            start as int,
        ) + input@.subrange(start as int, p as int));
        assert(input@.subrange(pos as int, p as int) == enc_tree_v(t@));
        assert forall|t0: Tree|
            enc_tree_v(t0@).is_prefix_of(input@.skip(pos as int)) implies t@ == t0@ && p == pos
            + enc_tree_v(t0@).len() by {
            assert(t0@.entries.take(n as int) =~= t0@.entries);
            assert(t@.entries =~= t0@.entries);
            assert(t@ =~= t0@);
        };
    }
    Some((t, p))
}

/// If a tree's encoding starts at `pos` and the eight bytes there encode
/// `n`, then `n` is that tree's entry count.
proof fn lemma_tree_count(s: Seq<u8>, pos: int, t0: Tree, n: u64)
    requires
        0 <= pos,
        pos + 8 <= s.len(),
        enc_tree_v(t0@).is_prefix_of(s.skip(pos)),
        s.subrange(pos, pos + 8) == enc_u64(n),
    ensures
        n == t0@.entries.len() as u64,
        t0@.entries.len() <= u64::MAX,
{
    lemma_auto_spec_u64_to_from_le_bytes();
    vstd::std_specs::vec::axiom_spec_len(&t0.entries);
    crate::object::lemma_entries_view(t0.entries, 0);
    lemma_parts3(
        s,
        pos,
        enc_u64(t0@.entries.len() as u64),
        enc_entries_v(t0@.entries),
        Seq::empty(),
    );
    assert(enc_u64(t0@.entries.len() as u64) + enc_entries_v(t0@.entries) + Seq::<
        u8,
    >::empty() =~= enc_tree_v(t0@));
    crate::object::lemma_entries_view(t0.entries, 0);
}


/// Where each part of an object's encoding sits, when the whole input is
/// exactly that encoding and its first four bytes encode `tag`.
proof fn lemma_object_parts(input: Seq<u8>, o0: Object, tag: u32)
    requires
        input.len() <= usize::MAX,
        4 <= input.len(),
        enc_object_v(o0@) == input,
        input.subrange(0, 4) == enc_u32(tag),
    ensures
        o0@ is Blob ==> tag == 0 && enc_bytes(o0@->Blob_0).is_prefix_of(input.skip(4))
            && o0@->Blob_0.len() <= u64::MAX && input.len() == 4 + enc_bytes(
            o0@->Blob_0,
        ).len(),
        o0@ is Tree ==> tag == 1 && enc_tree_v(o0@->Tree_0).is_prefix_of(input.skip(4))
            && input.len() == 4 + enc_tree_v(o0@->Tree_0).len(),
        o0@ is Commit ==> tag == 2 && enc_tree_v(o0@->Commit_0.tree).is_prefix_of(
            input.skip(4),
        ) && enc_str(o0@->Commit_0.message).is_prefix_of(
            input.skip(4 + enc_tree_v(o0@->Commit_0.tree).len() as int),
        ) && encode_utf8(o0@->Commit_0.message).len() <= u64::MAX && input.len() == 4
            + enc_tree_v(o0@->Commit_0.tree).len() + enc_str(o0@->Commit_0.message).len(),
{
    lemma_auto_spec_u32_to_from_le_bytes();
    lemma_auto_spec_u64_to_from_le_bytes();
    assert(input.skip(0) =~= input);
    assert(enc_object_v(o0@).is_prefix_of(input.skip(0)));
    match o0@ {
        ObjectView::Blob(content) => {
            assert(enc_u32(0) + enc_bytes(content) + Seq::<u8>::empty() =~= enc_object_v(
                o0@,
            ));
            lemma_parts3(input, 0, enc_u32(0), enc_bytes(content), Seq::empty());
        },
        ObjectView::Tree(t) => {
            assert(enc_u32(1) + enc_tree_v(t) + Seq::<u8>::empty() =~= enc_object_v(o0@));
            lemma_parts3(input, 0, enc_u32(1), enc_tree_v(t), Seq::empty());
        },
        ObjectView::Commit(c) => {
            lemma_parts3(input, 0, enc_u32(2), enc_tree_v(c.tree), enc_str(c.message));
        },
    }
}

/// Decode a content object from exactly the whole of `input`; this is the
/// inverse of `encode_object`, and accepts only canonical encodings.
pub fn decode_object(input: &[u8]) -> (r: Option<Object>)
    ensures
        r matches Some(o) ==> input@ == enc_object_v(o@),
        forall|o0: Object| input@ == enc_object_v(o0@) ==> (r matches Some(o) && o@ == o0@),
{
    proof {
        lemma_auto_spec_u32_to_from_le_bytes();
        lemma_auto_spec_u64_to_from_le_bytes();
    }
    let ilen = input.len();
    let tag_r = read_u32(input, 0);
    if tag_r.is_none() {
        proof {
            assert forall|o0: Object| input@ == enc_object_v(o0@) implies false by {
                match o0@ {
                    ObjectView::Blob(content) => {},
                    ObjectView::Tree(t) => {},
                    ObjectView::Commit(c) => {},
                }
            };
        }
        return None;
    }
    let (tag, tpos) = tag_r.unwrap();
    if tag == 0 {
        let body_r = read_bytes_at(input, tpos);
        if body_r.is_none() {
            proof {
                assert forall|o0: Object| input@ == enc_object_v(o0@) implies false by {
                    lemma_object_parts(input@, o0, tag);
                };
            }
            return None;
        }
        let (content, end) = body_r.unwrap();
        if end != ilen {
            proof {
                assert forall|o0: Object| input@ == enc_object_v(o0@) implies false by {
                    lemma_object_parts(input@, o0, tag);
                };
            }
            return None;
        }
        let o = Object::Blob(Blob { content });
        proof {
            assert(input@ =~= input@.subrange(0, tpos as int) + input@.subrange(
                tpos as int,
                end as int,
            ));
            assert(input@ == enc_object_v(o@));
            assert forall|o0: Object| input@ == enc_object_v(o0@) implies o@ == o0@ by {
                lemma_object_parts(input@, o0, tag);
            };
        }
        Some(o)
    } else if tag == 1 {
        let tree_r = read_tree_at(input, tpos);
        if tree_r.is_none() {
            proof {
                assert forall|o0: Object| input@ == enc_object_v(o0@) implies false by {
                    lemma_object_parts(input@, o0, tag);
                    match o0 {
                        Object::Tree(t0) => {
                            assert(enc_tree_v(t0@).is_prefix_of(input@.skip(tpos as int)));
                        },
                        _ => {},
                    }
                };
            }
            return None;
        }
        let (tree, end) = tree_r.unwrap();
        if end != ilen {
            proof {
                assert forall|o0: Object| input@ == enc_object_v(o0@) implies false by {
                    lemma_object_parts(input@, o0, tag);
                    match o0 {
                        Object::Tree(t0) => {
                            assert(enc_tree_v(t0@).is_prefix_of(input@.skip(tpos as int)));
                        },
                        _ => {},
                    }
                };
            }
            return None;
        }
        let o = Object::Tree(tree);
        proof {
            assert(input@ =~= input@.subrange(0, tpos as int) + input@.subrange(
                tpos as int,
                end as int,
            ));
            assert(input@ == enc_object_v(o@));
            assert forall|o0: Object| input@ == enc_object_v(o0@) implies o@ == o0@ by {
                lemma_object_parts(input@, o0, tag);
                match o0 {
                    Object::Tree(t0) => {
                        assert(enc_tree_v(t0@).is_prefix_of(input@.skip(tpos as int)));
                    },
                    _ => {},
                }
            };
        }
        Some(o)
    } else if tag == 2 {
        let tree_r = read_tree_at(input, tpos);
        if tree_r.is_none() {
            proof {
                assert forall|o0: Object| input@ == enc_object_v(o0@) implies false by {
                    lemma_object_parts(input@, o0, tag);
                    match o0 {
                        Object::Commit(c0) => {
                            assert(enc_tree_v(c0.tree@).is_prefix_of(
                                input@.skip(tpos as int),
                            ));
                        },
                        _ => {},
                    }
                };
            }
            return None;
        }
        let (tree, tend) = tree_r.unwrap();
        let msg_r = read_string_at(input, tend);
        if msg_r.is_none() {
            proof {
                assert forall|o0: Object| input@ == enc_object_v(o0@) implies false by {
                    lemma_object_parts(input@, o0, tag);
                    match o0 {
                        Object::Commit(c0) => {
                            assert(enc_tree_v(c0.tree@).is_prefix_of(
                                input@.skip(tpos as int),
                            ));
                            assert(tree@ == c0.tree@ && tend == tpos + enc_tree_v(
                                c0.tree@,
                            ).len());
                        },
                        _ => {},
                    }
                };
            }
            return None;
        }
        let (message, end) = msg_r.unwrap();
        if end != ilen {
            proof {
                assert forall|o0: Object| input@ == enc_object_v(o0@) implies false by {
                    lemma_object_parts(input@, o0, tag);
                    match o0 {
                        Object::Commit(c0) => {
                            assert(enc_tree_v(c0.tree@).is_prefix_of(
                                input@.skip(tpos as int),
                            ));
                            assert(tree@ == c0.tree@ && tend == tpos + enc_tree_v(
                                c0.tree@,
                            ).len());
                        },
                        _ => {},
                    }
                };
            }
            return None;
        }
        let o = Object::Commit(Commit { tree, message });
        proof {
            assert(input@ =~= input@.subrange(0, tpos as int) + input@.subrange(
                tpos as int,
                tend as int,
            ) + input@.subrange(tend as int, end as int));
            assert(input@ == enc_object_v(o@));
            assert forall|o0: Object| input@ == enc_object_v(o0@) implies o@ == o0@ by {
                lemma_object_parts(input@, o0, tag);
                match o0 {
                    Object::Commit(c0) => {
                        assert(enc_tree_v(c0.tree@).is_prefix_of(input@.skip(tpos as int)));
                        assert(tree@ == c0.tree@ && tend == tpos + enc_tree_v(
                            c0.tree@,
                        ).len());
                    },
                    _ => {},
                }
            };
        }
        Some(o)
    } else {
        proof {
            assert forall|o0: Object| input@ == enc_object_v(o0@) implies false by {
                lemma_object_parts(input@, o0, tag);
            };
        }
        None
    }
}


/// Compare two strings by their bytes.
pub fn str_eq(a: &str, b: &str) -> (r: bool)
    ensures
        r == (a@ == b@),
{
    let ab = a.as_bytes();
    let bb = b.as_bytes();
    proof {
        vstd::utf8::encode_utf8_decode_utf8(a@);
        vstd::utf8::encode_utf8_decode_utf8(b@);
    }
    if ab.len() != bb.len() {
        return false;
    }
    let n = ab.len();
    let mut i: usize = 0;
    while i < n
        invariant
            n == ab@.len() == bb@.len(),
            i <= n,
            ab@ == encode_utf8(a@),
            bb@ == encode_utf8(b@),
            forall|k: int| 0 <= k < i ==> ab@[k] == bb@[k],
        decreases n - i,
    {
        if *slice_index_get(ab, i) != *slice_index_get(bb, i) {
            return false;
        }
        i += 1;
    }
    proof {
        assert(ab@ =~= bb@);
    }
    true
}


/// Two length-prefixed byte strings starting at the same place are equal.
proof fn lemma_bytes_prefix_inj(b1: Seq<u8>, b2: Seq<u8>, s: Seq<u8>)
    requires
        s.len() <= usize::MAX,
        enc_bytes(b1).is_prefix_of(s),
        enc_bytes(b2).is_prefix_of(s),
    ensures
        b1 == b2,
{
    lemma_auto_spec_u64_to_from_le_bytes();
    assert(s.skip(0) =~= s);
    lemma_prefix_reads(s, 0, b1);
    lemma_prefix_reads(s, 0, b2);
    assert(enc_u64(b1.len() as u64) == enc_u64(b2.len() as u64));
    assert(b1.len() == b2.len());
    assert(b1 == s.subrange(8, 8 + b1.len() as int));
}

/// Two length-prefixed strings starting at the same place are equal.
proof fn lemma_str_prefix_inj(s1: Seq<char>, s2: Seq<char>, s: Seq<u8>)
    requires
        s.len() <= usize::MAX,
        enc_str(s1).is_prefix_of(s),
        enc_str(s2).is_prefix_of(s),
    ensures
        s1 == s2,
{
    lemma_bytes_prefix_inj(encode_utf8(s1), encode_utf8(s2), s);
    vstd::utf8::encode_utf8_decode_utf8(s1);
    vstd::utf8::encode_utf8_decode_utf8(s2);
}

/// Two tree entries whose encodings start at the same place are equal.
proof fn lemma_entry_prefix_inj(e1: TreeEntry, e2: TreeEntry, s: Seq<u8>)
    requires
        s.len() <= usize::MAX,
        enc_entry_v(e1@).is_prefix_of(s),
        enc_entry_v(e2@).is_prefix_of(s),
    ensures
        e1@ == e2@,
    decreases e1, 0int,
{
    lemma_auto_spec_u32_to_from_le_bytes();
    assert(s.skip(0) =~= s);
    match e1 {
        TreeEntry::Blob { name: n1, blob: bl1 } => {
            lemma_parts3(s, 0, enc_u32(0), enc_str(n1@), enc_bytes(bl1.content@));
            match e2 {
                TreeEntry::Blob { name: n2, blob: bl2 } => {
                    lemma_parts3(s, 0, enc_u32(0), enc_str(n2@), enc_bytes(bl2.content@));
                    lemma_str_prefix_inj(n1@, n2@, s.skip(4));
                    lemma_bytes_prefix_inj(
                        bl1.content@,
                        bl2.content@,
                        s.skip(4 + enc_str(n1@).len() as int),
                    );
                    assert(e1@ =~= e2@);
                },
                TreeEntry::Tree { name: n2, tree: t2 } => {
                    lemma_parts3(s, 0, enc_u32(1), enc_str(n2@), enc_tree_v(t2@));
                    assert(enc_u32(0) == enc_u32(1));
                    assert(false);
                },
            }
        },
        TreeEntry::Tree { name: n1, tree: t1 } => {
            lemma_parts3(s, 0, enc_u32(1), enc_str(n1@), enc_tree_v(t1@));
            match e2 {
                TreeEntry::Blob { name: n2, blob: bl2 } => {
                    lemma_parts3(s, 0, enc_u32(0), enc_str(n2@), enc_bytes(bl2.content@));
                    assert(enc_u32(0) == enc_u32(1));
                    assert(false);
                },
                TreeEntry::Tree { name: n2, tree: t2 } => {
                    lemma_parts3(s, 0, enc_u32(1), enc_str(n2@), enc_tree_v(t2@));
                    lemma_str_prefix_inj(n1@, n2@, s.skip(4));
                    lemma_tree_prefix_inj(t1, t2, s.skip(4 + enc_str(n1@).len() as int));
                    assert(e1@ =~= e2@);
                },
            }
        },
    }
}

/// Two trees whose encodings start at the same place are equal.
proof fn lemma_tree_prefix_inj(t1: Tree, t2: Tree, s: Seq<u8>)
    requires
        s.len() <= usize::MAX,
        enc_tree_v(t1@).is_prefix_of(s),
        enc_tree_v(t2@).is_prefix_of(s),
    ensures
        t1@ == t2@,
    decreases t1, t1@.entries.len() + 1int,
{
    lemma_auto_spec_u64_to_from_le_bytes();
    vstd::std_specs::vec::axiom_spec_len(&t1.entries);
    vstd::std_specs::vec::axiom_spec_len(&t2.entries);
    crate::object::lemma_entries_view(t1.entries, 0);
    crate::object::lemma_entries_view(t2.entries, 0);
    assert(s.skip(0) =~= s);
    assert(enc_u64(t1@.entries.len() as u64) + enc_entries_v(t1@.entries) + Seq::<
        u8,
    >::empty() =~= enc_tree_v(t1@));
    assert(enc_u64(t2@.entries.len() as u64) + enc_entries_v(t2@.entries) + Seq::<
        u8,
    >::empty() =~= enc_tree_v(t2@));
    lemma_parts3(
        s,
        0,
        enc_u64(t1@.entries.len() as u64),
        enc_entries_v(t1@.entries),
        Seq::empty(),
    );
    lemma_parts3(
        s,
        0,
        enc_u64(t2@.entries.len() as u64),
        enc_entries_v(t2@.entries),
        Seq::empty(),
    );
    assert(t1@.entries.len() == t2@.entries.len());
    assert(t1@.entries.take(0) =~= t2@.entries.take(0));
    assert(enc_entries_v(t1@.entries.take(0)) == Seq::<u8>::empty());
    lemma_entries_prefix_inj(t1, t2, s, 0, 8);
    assert(t1@ =~= t2@);
}

/// Entry lists read in lockstep from the same bytes are equal.
proof fn lemma_entries_prefix_inj(t1: Tree, t2: Tree, s: Seq<u8>, j: int, p: int)
    requires
        s.len() <= usize::MAX,
        enc_tree_v(t1@).is_prefix_of(s.skip(0)),
        enc_tree_v(t2@).is_prefix_of(s.skip(0)),
        t1@.entries.len() == t2@.entries.len(),
        t1@.entries.len() <= u64::MAX,
        0 <= j <= t1@.entries.len(),
        t1@.entries.take(j) == t2@.entries.take(j),
        p == 8 + enc_entries_v(t1@.entries.take(j)).len(),
    ensures
        t1@.entries == t2@.entries,
    decreases t1, t1@.entries.len() - j,
{
    crate::object::lemma_entries_view(t1.entries, 0);
    crate::object::lemma_entries_view(t2.entries, 0);
    if j < t1@.entries.len() {
        let n = t1@.entries.len() as u64;
        lemma_tree_step(s, 0, p, j, t1, n);
        lemma_tree_step(s, 0, p, j, t2, n);
        let ge1 = t1.entries@[j];
        let ge2 = t2.entries@[j];
        assert(decreases_to!(t1 => t1.entries));
        vstd::std_specs::vec::axiom_vec_decreases_to_view(t1.entries);
        vstd::seq::axiom_seq_index_decreases(t1.entries@, j);
        lemma_entry_prefix_inj(ge1, ge2, s.skip(p));
        assert(t1@.entries[j] == t2@.entries[j]);
        assert(t1@.entries.take(j + 1) =~= t1@.entries.take(j).push(t1@.entries[j]));
        assert(t2@.entries.take(j + 1) =~= t2@.entries.take(j).push(t2@.entries[j]));
        lemma_enc_entries_push(t1@.entries.take(j), t1@.entries[j]);
        lemma_entries_prefix_inj(
            t1,
            t2,
            s,
            j + 1,
            p + enc_entry_v(t1@.entries[j]).len() as int,
        );
    } else {
        assert(t1@.entries =~= t1@.entries.take(j));
        assert(t2@.entries =~= t2@.entries.take(j));
    }
}

/// Object identity is content-determined: two objects with the same
/// canonical bytes have the same model. With the digest's collision
/// freedom, equal hashes therefore name equal content.
pub proof fn lemma_object_identity(o1: Object, o2: Object)
    requires
        enc_object_v(o1@) == enc_object_v(o2@),
        enc_object_v(o1@).len() <= usize::MAX,
    ensures
        o1@ == o2@,
{
    lemma_auto_spec_u32_to_from_le_bytes();
    let s = enc_object_v(o1@);
    assert(s.skip(0) =~= s);
    assert(enc_object_v(o1@).is_prefix_of(s));
    assert(enc_object_v(o2@).is_prefix_of(s));
    match o1 {
        Object::Blob(b1) => {
            assert(enc_u32(0) + enc_bytes(b1.content@) + Seq::<u8>::empty() =~= enc_object_v(
                o1@,
            ));
            lemma_parts3(s, 0, enc_u32(0), enc_bytes(b1.content@), Seq::empty());
            match o2 {
                Object::Blob(b2) => {
                    assert(enc_u32(0) + enc_bytes(b2.content@) + Seq::<u8>::empty()
                        =~= enc_object_v(o2@));
                    lemma_parts3(s, 0, enc_u32(0), enc_bytes(b2.content@), Seq::empty());
                    lemma_bytes_prefix_inj(b1.content@, b2.content@, s.skip(4));
                },
                Object::Tree(t2) => {
                    assert(enc_u32(1) + enc_tree_v(t2@) + Seq::<u8>::empty() =~= enc_object_v(
                        o2@,
                    ));
                    lemma_parts3(s, 0, enc_u32(1), enc_tree_v(t2@), Seq::empty());
                    assert(enc_u32(0) == enc_u32(1));
                    assert(false);
                },
                Object::Commit(c2) => {
                    lemma_parts3(s, 0, enc_u32(2), enc_tree_v(c2.tree@), enc_str(c2.message@));
                    assert(enc_u32(0) == enc_u32(2));
                    assert(false);
                },
            }
        },
        Object::Tree(t1) => {
            assert(enc_u32(1) + enc_tree_v(t1@) + Seq::<u8>::empty() =~= enc_object_v(o1@));
            lemma_parts3(s, 0, enc_u32(1), enc_tree_v(t1@), Seq::empty());
            match o2 {
                Object::Blob(b2) => {
                    assert(enc_u32(0) + enc_bytes(b2.content@) + Seq::<u8>::empty()
                        =~= enc_object_v(o2@));
                    lemma_parts3(s, 0, enc_u32(0), enc_bytes(b2.content@), Seq::empty());
                    assert(enc_u32(0) == enc_u32(1));
                    assert(false);
                },
                Object::Tree(t2) => {
                    assert(enc_u32(1) + enc_tree_v(t2@) + Seq::<u8>::empty() =~= enc_object_v(
                        o2@,
                    ));
                    lemma_parts3(s, 0, enc_u32(1), enc_tree_v(t2@), Seq::empty());
                    lemma_tree_prefix_inj(t1, t2, s.skip(4));
                },
                Object::Commit(c2) => {
                    lemma_parts3(s, 0, enc_u32(2), enc_tree_v(c2.tree@), enc_str(c2.message@));
                    assert(enc_u32(1) == enc_u32(2));
                    assert(false);
                },
            }
        },
        Object::Commit(c1) => {
            lemma_parts3(s, 0, enc_u32(2), enc_tree_v(c1.tree@), enc_str(c1.message@));
            match o2 {
                Object::Blob(b2) => {
                    assert(enc_u32(0) + enc_bytes(b2.content@) + Seq::<u8>::empty()
                        =~= enc_object_v(o2@));
                    lemma_parts3(s, 0, enc_u32(0), enc_bytes(b2.content@), Seq::empty());
                    assert(enc_u32(0) == enc_u32(2));
                    assert(false);
                },
                Object::Tree(t2) => {
                    assert(enc_u32(1) + enc_tree_v(t2@) + Seq::<u8>::empty() =~= enc_object_v(
                        o2@,
                    ));
                    lemma_parts3(s, 0, enc_u32(1), enc_tree_v(t2@), Seq::empty());
                    assert(enc_u32(1) == enc_u32(2));
                    assert(false);
                },
                Object::Commit(c2) => {
                    lemma_parts3(s, 0, enc_u32(2), enc_tree_v(c2.tree@), enc_str(c2.message@));
                    lemma_tree_prefix_inj(c1.tree, c2.tree, s.skip(4));
                    lemma_str_prefix_inj(
                        c1.message@,
                        c2.message@,
                        s.skip(4 + enc_tree_v(c1.tree@).len() as int),
                    );
                    assert(o1@ =~= o2@);
                },
            }
        },
    }
}

} // verus!
