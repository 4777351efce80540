//! The content-addressed object store: canonical object bytes keyed by their
//! hash identifier. Writes are write-once — storing an object whose hash is
//! already present is a successful no-op — so stored content is never
//! overwritten.

use vstd::prelude::*;
use crate::codec;
use crate::error::Error;
use crate::hashing;
use crate::object::{Object, Hashable};

verus! {

/// What the store's model becomes when an object is stored: unchanged if
/// its hash is already bound, else extended with its canonical bytes.
pub open spec fn put_spec(m: Map<Seq<char>, Seq<u8>>, o: Object) -> Map<Seq<char>, Seq<u8>> {
    if m.contains_key(o.hash_spec()) {
        m
    } else {
        m.insert(o.hash_spec(), codec::enc_object_v(o@))
    }
}

/// Idempotence: storing an object a second time changes nothing, and the
/// store holds exactly one copy — one entry under the object's hash.
pub proof fn lemma_put_idempotent(m: Map<Seq<char>, Seq<u8>>, o: Object)
    requires
        m.dom().finite(),
    ensures
        put_spec(put_spec(m, o), o) == put_spec(m, o),
        put_spec(m, o).contains_key(o.hash_spec()),
        m.contains_key(o.hash_spec()) ==> put_spec(m, o) == m,
        !m.contains_key(o.hash_spec()) ==> put_spec(m, o).len() == m.len() + 1,
{
    if !m.contains_key(o.hash_spec()) {
        assert(m.insert(o.hash_spec(), codec::enc_object_v(o@)).dom() =~= m.dom().insert(
            o.hash_spec(),
        ));
    }
}

/// Round trip: fetching the hash of a just-stored object yields an object
/// with the same model, provided that hash was not already bound to the
/// bytes of different content (the digest's collision-freedom assumption).
pub proof fn lemma_store_round_trip(m: Map<Seq<char>, Seq<u8>>, o: Object, fetched: Object)
    requires
        m.contains_key(o.hash_spec()) ==> m[o.hash_spec()] == codec::enc_object_v(o@),
        codec::enc_object_v(fetched@) == put_spec(m, o)[o.hash_spec()],
        codec::enc_object_v(o@).len() <= usize::MAX,
    ensures
        fetched@ == o@,
{
    assert(put_spec(m, o)[o.hash_spec()] == codec::enc_object_v(o@));
    codec::lemma_object_identity(fetched, o);
}

/// One stored object: its hash identifier and its canonical bytes.
struct StoredObject {
    hash: String,
    bytes: Vec<u8>,
}

/// Content-addressed, write-once store of canonical object bytes.
pub struct ObjectStore {
    entries: Vec<StoredObject>,
}

/// The map an entry list denotes; on a duplicate key the later entry wins.
spec fn map_of(es: Seq<StoredObject>) -> Map<Seq<char>, Seq<u8>>
    decreases es.len(),
{
    if es.len() == 0 {
        Map::empty()
    } else {
        map_of(es.drop_last()).insert(es.last().hash@, es.last().bytes@)
    }
}

/// With distinct hashes, the map lists exactly the entries.
proof fn lemma_map_of(es: Seq<StoredObject>)
    requires
        forall|i: int, j: int|
            0 <= i < j < es.len() ==> #[trigger] es[i].hash@ != #[trigger] es[j].hash@,
    ensures
        map_of(es).dom().finite(),
        map_of(es).len() == es.len(),
        forall|h: Seq<char>|
            #[trigger] map_of(es).contains_key(h) <==> exists|i: int|
                0 <= i < es.len() && #[trigger] es[i].hash@ == h,
        forall|i: int|
            0 <= i < es.len() ==> map_of(es).contains_key(#[trigger] es[i].hash@)
                && map_of(es)[es[i].hash@] == es[i].bytes@,
    decreases es.len(),
{
    if es.len() > 0 {
        let d = es.drop_last();
        lemma_map_of(d);
        assert(!map_of(d).contains_key(es.last().hash@)) by {
            if map_of(d).contains_key(es.last().hash@) {
                let i = choose|i: int| 0 <= i < d.len() && #[trigger] d[i].hash@ == es.last().hash@;
                assert(es[i].hash@ == es[es.len() - 1].hash@);
            }
        };
        assert forall|h: Seq<char>| #[trigger]
            map_of(es).contains_key(h) implies exists|i: int|
            0 <= i < es.len() && #[trigger] es[i].hash@ == h by {
            if h == es.last().hash@ {
                assert(es[es.len() - 1].hash@ == h);
            } else {
                let i = choose|i: int| 0 <= i < d.len() && #[trigger] d[i].hash@ == h;
                assert(es[i].hash@ == h);
            }
        };
        assert forall|h: Seq<char>|
            (exists|i: int| 0 <= i < es.len() && #[trigger] es[i].hash@ == h) implies #[trigger]
            map_of(es).contains_key(h) by {
            let i = choose|i: int| 0 <= i < es.len() && #[trigger] es[i].hash@ == h;
            if i < es.len() - 1 {
                assert(d[i].hash@ == h);
            }
        };
        assert forall|i: int|
            0 <= i < es.len() implies map_of(es).contains_key(#[trigger] es[i].hash@)
            && map_of(es)[es[i].hash@] == es[i].bytes@ by {
            if i < es.len() - 1 {
                assert(d[i].hash@ == es[i].hash@ && d[i].bytes@ == es[i].bytes@);
                assert(es[i].hash@ != es[es.len() - 1].hash@);
            }
        };
    }
}

impl ObjectStore {
    /// The store's model: hash identifiers mapped to canonical bytes.
    pub closed spec fn view(&self) -> Map<Seq<char>, Seq<u8>> {
        map_of(self.entries@)
    }

    /// Well-formed: hashes are distinct, and each entry's hash is the hash
    /// of its bytes.
    pub closed spec fn wf(&self) -> bool {
        &&& forall|i: int, j: int|
            0 <= i < j < self.entries@.len() ==> #[trigger] self.entries@[i].hash@
                != #[trigger] self.entries@[j].hash@
        &&& forall|i: int|
            0 <= i < self.entries@.len() ==> #[trigger] self.entries@[i].hash@
                == hashing::hash_of_bytes(self.entries@[i].bytes@)
    }

    /// An empty store.
    pub fn new() -> (s: Self)
        ensures
            s.wf(),
            s@ == Map::<Seq<char>, Seq<u8>>::empty(),
    {
        ObjectStore { entries: Vec::new() }
    }

    /// How many objects the store holds.
    pub fn len(&self) -> (n: usize)
        requires
            self.wf(),
        ensures
            n == self@.len(),
    {
        proof {
            lemma_map_of(self.entries@);
        }
        self.entries.len()
    }

    /// The position of `hash` among the entries, if present.
    fn find(&self, hash: &str) -> (r: Option<usize>)
        requires
            self.wf(),
        ensures
            r matches Some(i) ==> i < self.entries@.len() && self.entries@[i as int].hash@
                == hash@,
            r is None ==> !self@.contains_key(hash@),
    {
        proof {
            lemma_map_of(self.entries@);
        }
        let n = self.entries.len();
        let mut i: usize = 0;
        while i < n
            invariant
                self.wf(),
                n == self.entries@.len(),
                i <= n,
                forall|k: int| 0 <= k < i ==> #[trigger] self.entries@[k].hash@ != hash@,
            decreases n - i,
        {
            if codec::str_eq(self.entries[i].hash.as_str(), hash) {
                return Some(i);
            }
            i += 1;
        }
        proof {
            lemma_map_of(self.entries@);
        }
        None
    }

    /// Whether an object with this hash is stored.
    pub fn contains(&self, hash: &str) -> (b: bool)
        requires
            self.wf(),
        ensures
            b == self@.contains_key(hash@),
    {
        proof {
            lemma_map_of(self.entries@);
        }
        self.find(hash).is_some()
    }

    /// Store an object under its content hash and return that hash. If an
    /// object with the same hash is already present this is a successful
    /// no-op: stored bytes are never overwritten.
    pub fn put(&mut self, obj: &Object) -> (hash: String)
        requires
            old(self).wf(),
        ensures
            final(self).wf(),
            hash@ == obj.hash_spec(),
            final(self)@ == put_spec(old(self)@, *obj),
            old(self)@.contains_key(obj.hash_spec()) ==> *final(self) == *old(self),
            final(self)@.dom().finite(),
    {
        let hash = obj.hash();
        if self.find(hash.as_str()).is_some() {
            proof {
                lemma_map_of(self.entries@);
            }
            return hash;
        }
        proof {
            lemma_map_of(self.entries@);
        }
        let bytes = codec::encode_object(obj);
        let ghost es_old = self.entries@;
        let entry = StoredObject { hash: hash.clone(), bytes };
        self.entries.push(entry);
        proof {
            assert(self.entries@.drop_last() =~= es_old);
            lemma_map_of(es_old);
            assert forall|i: int, j: int|
                0 <= i < j < self.entries@.len() implies #[trigger] self.entries@[i].hash@
                != #[trigger] self.entries@[j].hash@ by {
                if j == self.entries@.len() - 1 {
                    assert(es_old[i].hash@ == self.entries@[i].hash@);
                }
            };
        }
        hash
    }

    /// The stored canonical bytes for `hash`, if any.
    pub fn get_bytes(&self, hash: &str) -> (r: Option<&Vec<u8>>)
        requires
            self.wf(),
        ensures
            r matches Some(b) ==> self@.contains_key(hash@) && b@ == self@[hash@],
            r is None ==> !self@.contains_key(hash@),
    {
        proof {
            lemma_map_of(self.entries@);
        }
        match self.find(hash) {
            Some(i) => Some(&self.entries[i].bytes),
            None => None,
        }
    }

    /// Fetch the object stored under `hash`: `NotFound` if absent, `Corrupt`
    /// if the stored bytes are not a canonical object encoding.
    pub fn get(&self, hash: &str) -> (r: Result<Object, Error>)
        requires
            self.wf(),
        ensures
            !self@.contains_key(hash@) ==> r == Err::<Object, Error>(Error::NotFound),
            self@.contains_key(hash@) ==> match r {
                Ok(o) => codec::enc_object_v(o@) == self@[hash@],
                Err(e) => e == Error::Corrupt && !(exists|o0: Object|
                    codec::enc_object_v(o0@) == self@[hash@]),
            },
    {
        proof {
            lemma_map_of(self.entries@);
        }
        match self.find(hash) {
            None => Err(Error::NotFound),
            Some(i) => {
                match codec::decode_object(self.entries[i].bytes.as_slice()) {
                    Some(o) => Ok(o),
                    None => Err(Error::Corrupt),
                }
            },
        }
    }
}

} // verus!
