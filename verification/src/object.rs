//! The immutable content types — a blob of file bytes, a named tree of
//! entries, and a commit pairing a tree with a message — together with the
//! tagged union over them and the hashing contract that gives each value its
//! content-determined identity.

use vstd::prelude::*;
use crate::codec;
use crate::hashing;

verus! {

broadcast use vstd::std_specs::vec::group_vec_axioms;

/// Raw byte payload of one file's contents. Immutable once created.
#[derive(Clone, Debug)]
pub struct Blob {
    pub content: Vec<u8>,
}

/// One named entry of a tree: either a file's blob or a nested tree.
pub enum TreeEntry {
    Blob { name: String, blob: Blob },
    Tree { name: String, tree: Tree },
}

/// An ordered list of named entries, owning its children by value.
pub struct Tree {
    pub entries: Vec<TreeEntry>,
}

/// A tree plus a human-readable message: a point-in-time snapshot of content.
pub struct Commit {
    pub tree: Tree,
    pub message: String,
}

/// The tagged union over the three content types.
pub enum Object {
    Blob(Blob),
    Tree(Tree),
    Commit(Commit),
}

/// Mathematical model of one tree entry.
#[verifier::ext_equal]
pub enum EntryView {
    Blob { name: Seq<char>, content: Seq<u8> },
    Tree { name: Seq<char>, tree: TreeView },
}

/// Mathematical model of a tree.
#[verifier::ext_equal]
pub struct TreeView {
    pub entries: Seq<EntryView>,
}

/// Mathematical model of a commit.
#[verifier::ext_equal]
pub struct CommitView {
    pub tree: TreeView,
    pub message: Seq<char>,
}

/// Mathematical model of a content object.
#[verifier::ext_equal]
pub enum ObjectView {
    Blob(Seq<u8>),
    Tree(TreeView),
    Commit(CommitView),
}

/// The model of one entry.
pub open spec fn entry_view(e: TreeEntry) -> EntryView
    decreases e, 0int,
{
    match e {
        TreeEntry::Blob { name, blob } => EntryView::Blob { name: name@, content: blob.content@ },
        TreeEntry::Tree { name, tree } => EntryView::Tree { name: name@, tree: tree_view(tree) },
    }
}

/// The models of the entries of `v` from position `i` on, in order.
pub open spec fn entries_view(v: Vec<TreeEntry>, i: int) -> Seq<EntryView>
    decreases v, v@.len() - i,
{
    if 0 <= i < v@.len() {
        seq![entry_view(v[i])] + entries_view(v, i + 1)
    } else {
        Seq::empty()
    }
}

/// The model of a tree: its entries' models, in order.
pub open spec fn tree_view(t: Tree) -> TreeView
    decreases t, 0int,
{
    TreeView { entries: entries_view(t.entries, 0) }
}

/// `entries_view(v, i)` lists the model of each entry from `i` on.
pub proof fn lemma_entries_view(v: Vec<TreeEntry>, i: int)
    requires
        0 <= i <= v@.len(),
    ensures
        entries_view(v, i).len() == v@.len() - i,
        forall|k: int|
            0 <= k < v@.len() - i ==> #[trigger] entries_view(v, i)[k] == entry_view(v@[i + k]),
    decreases v@.len() - i,
{
    if i < v@.len() {
        lemma_entries_view(v, i + 1);
        assert forall|k: int|
            0 <= k < v@.len() - i implies #[trigger] entries_view(v, i)[k] == entry_view(
            v@[i + k],
        ) by {
            if k > 0 {
                assert(entries_view(v, i)[k] == entries_view(v, i + 1)[k - 1]);
            }
        };
    }
}

/// The model of a commit.
pub open spec fn commit_view(c: Commit) -> CommitView {
    CommitView { tree: tree_view(c.tree), message: c.message@ }
}

/// The model of a content object.
pub open spec fn object_view(o: Object) -> ObjectView {
    match o {
        Object::Blob(b) => ObjectView::Blob(b.content@),
        Object::Tree(t) => ObjectView::Tree(tree_view(t)),
        Object::Commit(c) => ObjectView::Commit(commit_view(c)),
    }
}

impl View for Blob {
    type V = Seq<u8>;

    open spec fn view(&self) -> Seq<u8> {
        self.content@
    }
}

impl View for TreeEntry {
    type V = EntryView;

    open spec fn view(&self) -> EntryView {
        entry_view(*self)
    }
}

impl View for Tree {
    type V = TreeView;

    open spec fn view(&self) -> TreeView {
        tree_view(*self)
    }
}

impl View for Commit {
    type V = CommitView;

    open spec fn view(&self) -> CommitView {
        commit_view(*self)
    }
}

impl View for Object {
    type V = ObjectView;

    open spec fn view(&self) -> ObjectView {
        object_view(*self)
    }
}

/// Objects that carry a stable, content-determined hash identifier.
pub trait Hashable {
    /// The hash the type promises: hex digest of its canonical bytes.
    spec fn hash_spec(&self) -> Seq<char>;

    /// Compute the hash identifier: always sixty-four hex characters.
    fn hash(&self) -> (r: String)
        ensures
            r@ == self.hash_spec(),
            r@.len() == 64,
    ;
}

impl Hashable for Blob {
    open spec fn hash_spec(&self) -> Seq<char> {
        hashing::hash_of_bytes(codec::enc_bytes(self.content@))
    }

    fn hash(&self) -> (r: String)
        ensures
            r@ == self.hash_spec(),
            r@.len() == 64,
    {
        let bytes = codec::encode_blob(self);
        hashing::hash_string(bytes.as_slice())
    }
}

impl Hashable for Tree {
    open spec fn hash_spec(&self) -> Seq<char> {
        hashing::hash_of_bytes(codec::enc_tree_v(tree_view(*self)))
    }

    fn hash(&self) -> (r: String)
        ensures
            r@ == self.hash_spec(),
            r@.len() == 64,
    {
        let bytes = codec::encode_tree(self);
        hashing::hash_string(bytes.as_slice())
    }
}

impl Hashable for Commit {
    open spec fn hash_spec(&self) -> Seq<char> {
        hashing::hash_of_bytes(codec::enc_commit_v(commit_view(*self)))
    }

    fn hash(&self) -> (r: String)
        ensures
            r@ == self.hash_spec(),
            r@.len() == 64,
    {
        let bytes = codec::encode_commit(self);
        hashing::hash_string(bytes.as_slice())
    }
}

impl Hashable for Object {
    open spec fn hash_spec(&self) -> Seq<char> {
        hashing::hash_of_bytes(codec::enc_object_v(object_view(*self)))
    }

    fn hash(&self) -> (r: String)
        ensures
            r@ == self.hash_spec(),
            r@.len() == 64,
    {
        let bytes = codec::encode_object(self);
        hashing::hash_string(bytes.as_slice())
    }
}


/// Identity is a function of content: blobs with the same bytes have the
/// same hash. (That different bytes give different hashes is the digest's
/// collision-freedom assumption, which no proof can supply.)
pub proof fn lemma_blob_hash_deterministic(b1: Blob, b2: Blob)
    requires
        b1@ == b2@,
    ensures
        b1.hash_spec() == b2.hash_spec(),
{
}

/// Identity is a function of content, for every kind of object.
pub proof fn lemma_object_hash_deterministic(o1: Object, o2: Object)
    requires
        o1@ == o2@,
    ensures
        o1.hash_spec() == o2.hash_spec(),
{
}

} // verus!
