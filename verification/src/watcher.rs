//! The change producer's filtering rules: which paths the filesystem
//! watcher must leave alone — anything inside the repository's own
//! directory, and editor scratch files.

use vstd::prelude::*;
use vstd::slice::slice_index_get;
use vstd::utf8::encode_utf8;

verus! {

/// The path bytes with trailing separators removed, as a path names its
/// final component.
pub open spec fn trim_separators(b: Seq<u8>) -> Seq<u8>
    decreases b.len(),
{
    if b.len() > 0 && b[b.len() - 1] == 47u8 {
        trim_separators(b.drop_last())
    } else {
        b
    }
}

/// The repository's own directory `.hit` stands as a whole component at
/// byte position `i`.
pub open spec fn hit_dir_at(b: Seq<u8>, i: int) -> bool {
    &&& 0 <= i
    &&& i + 4 <= b.len()
    &&& b[i] == 46u8
    &&& b[i + 1] == 104u8
    &&& b[i + 2] == 105u8
    &&& b[i + 3] == 116u8
    &&& (i == 0 || b[i - 1] == 47u8)
    &&& (i + 4 == b.len() || b[i + 4] == 47u8)
}

/// Whether any component of the path is the repository's own directory.
pub open spec fn has_hit_component(b: Seq<u8>) -> bool {
    exists|i: int| hit_dir_at(b, i)
}

/// The byte string ends with the given suffix.
pub open spec fn ends_with_bytes(b: Seq<u8>, suf: Seq<u8>) -> bool {
    b.len() >= suf.len() && b.subrange(b.len() - suf.len(), b.len() as int) == suf
}

/// The file the path names is an editor scratch file: its name ends with
/// a tilde, or with a swap or temporary suffix.
pub open spec fn ignored_name(b: Seq<u8>) -> bool {
    let t = trim_separators(b);
    ||| ends_with_bytes(t, seq![126u8])
    ||| ends_with_bytes(t, seq![46u8, 115u8, 119u8, 112u8])
    ||| ends_with_bytes(t, seq![46u8, 116u8, 109u8, 112u8])
}

/// What the watcher leaves alone: the repository's own files, and editor
/// scratch files.
pub open spec fn spec_should_ignore(b: Seq<u8>) -> bool {
    has_hit_component(b) || ignored_name(b)
}

/// Whether the watcher must leave this path alone.
#[verifier::rlimit(60)]
pub fn should_ignore(path: &str) -> (r: bool)
    ensures
        r == spec_should_ignore(encode_utf8(path@)),
{
    let b = path.as_bytes();
    let n = b.len();
    let mut i: usize = 0;
    while i < n
        invariant
            i <= n,
            n == b@.len(),
            b@ == encode_utf8(path@),
            forall|k: int| 0 <= k < i ==> !hit_dir_at(b@, k),
        decreases n - i,
    {
        if n - i >= 4 && *slice_index_get(b, i) == 46 && *slice_index_get(b, i + 1) == 104
            && *slice_index_get(b, i + 2) == 105 && *slice_index_get(b, i + 3) == 116 && (i
            == 0 || *slice_index_get(b, i - 1) == 47) && (i + 4 == n || *slice_index_get(
            b,
            i + 4,
        ) == 47) {
            proof {
                assert(hit_dir_at(b@, i as int));
            }
            return true;
        }
        proof {
            assert(!hit_dir_at(b@, i as int));
        }
        i += 1;
    }
    proof {
        assert(!has_hit_component(b@)) by {
            if has_hit_component(b@) {
                let k = choose|k: int| hit_dir_at(b@, k);
                assert(0 <= k < n);
            }
        };
    }
    proof {
        assert(b@.take(n as int) =~= b@);
    }
    let mut e: usize = n;
    while e > 0 && *slice_index_get(b, e - 1) == 47
        invariant
            e <= n,
            n == b@.len(),
            b@ == encode_utf8(path@),
            trim_separators(b@) == trim_separators(b@.take(e as int)),
        decreases e,
    {
        proof {
            assert(b@.take(e as int).drop_last() =~= b@.take(e as int - 1));
        }
        e -= 1;
    }
    let ghost t = trim_separators(b@);
    proof {
        assert(t == b@.take(e as int)) by {
            if e > 0 {
                assert(b@.take(e as int)[e - 1] == b@[e - 1]);
            }
        };
        assert(t.len() == e);
    }
    if e >= 1 && *slice_index_get(b, e - 1) == 126 {
        proof {
            assert(t.subrange(e - 1, e as int) =~= seq![126u8]);
        }
        return true;
    }
    if e >= 4 && *slice_index_get(b, e - 4) == 46 && *slice_index_get(b, e - 3) == 115
        && *slice_index_get(b, e - 2) == 119 && *slice_index_get(b, e - 1) == 112 {
        proof {
            assert(t.subrange(e - 4, e as int) =~= seq![46u8, 115u8, 119u8, 112u8]);
        }
        return true;
    }
    if e >= 4 && *slice_index_get(b, e - 4) == 46 && *slice_index_get(b, e - 3) == 116
        && *slice_index_get(b, e - 2) == 109 && *slice_index_get(b, e - 1) == 112 {
        proof {
            assert(t.subrange(e - 4, e as int) =~= seq![46u8, 116u8, 109u8, 112u8]);
        }
        return true;
    }
    proof {
        assert(!ignored_name(b@)) by {
            if ends_with_bytes(t, seq![126u8]) {
                assert(t.subrange(e - 1, e as int)[0] == t[e - 1]);
            }
            if ends_with_bytes(t, seq![46u8, 115u8, 119u8, 112u8]) {
                let s = t.subrange(e - 4, e as int);
                assert(s[0] == t[e - 4] && s[1] == t[e - 3] && s[2] == t[e - 2] && s[3] == t[e
                    - 1]);
            }
            if ends_with_bytes(t, seq![46u8, 116u8, 109u8, 112u8]) {
                let s = t.subrange(e - 4, e as int);
                assert(s[0] == t[e - 4] && s[1] == t[e - 3] && s[2] == t[e - 2] && s[3] == t[e
                    - 1]);
            }
        };
    }
    false
}

} // verus!
