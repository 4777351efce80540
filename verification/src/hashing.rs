//! Content identity: the SHA-256 digest of an object's canonical bytes,
//! rendered as a lower-case hex string.

use vstd::prelude::*;
use vstd::string::StringExecFns;
use sha2::Digest;

verus! {

/// What SHA-256 returns for the given bytes; a function of them alone.
pub uninterp spec fn sha256_of(b: Seq<u8>) -> Seq<u8>;

/// Relies on sha2's `Sha256` (through `Digest::digest`): the digest is a
/// function of the input bytes alone and is always 32 bytes long.
#[verifier::external_body]
fn sha256(b: &[u8]) -> (r: Vec<u8>)
    ensures
        r@ == sha256_of(b@),
        r@.len() == 32,
{
    sha2::Sha256::digest(b).to_vec()
}

/// The lower-case hex character for one value below sixteen.
pub open spec fn hex_digit_char(n: u8) -> char {
    if n == 0 {
        '0'
    } else if n == 1 {
        '1'
    } else if n == 2 {
        '2'
    } else if n == 3 {
        '3'
    } else if n == 4 {
        '4'
    } else if n == 5 {
        '5'
    } else if n == 6 {
        '6'
    } else if n == 7 {
        '7'
    } else if n == 8 {
        '8'
    } else if n == 9 {
        '9'
    } else if n == 10 {
        'a'
    } else if n == 11 {
        'b'
    } else if n == 12 {
        'c'
    } else if n == 13 {
        'd'
    } else if n == 14 {
        'e'
    } else {
        'f'
    }
}

/// Two hex characters per byte, high nibble first.
pub open spec fn hex_chars(b: Seq<u8>) -> Seq<char> {
    Seq::new(
        2 * b.len(),
        |i: int|
            if i % 2 == 0 {
                hex_digit_char((b[i / 2] / 16) as u8)
            } else {
                hex_digit_char((b[i / 2] % 16) as u8)
            },
    )
}

/// The content hash of a byte string: hex of its SHA-256 digest.
pub open spec fn hash_of_bytes(b: Seq<u8>) -> Seq<char> {
    hex_chars(sha256_of(b))
}

/// The one-character string for one value below sixteen.
fn nibble_str(n: u8) -> (r: &'static str)
    requires
        n < 16,
    ensures
        r@.len() == 1,
        r@[0] == hex_digit_char(n),
{
    proof {
        reveal_strlit("0");
        reveal_strlit("1");
        reveal_strlit("2");
        reveal_strlit("3");
        reveal_strlit("4");
        reveal_strlit("5");
        reveal_strlit("6");
        reveal_strlit("7");
        reveal_strlit("8");
        reveal_strlit("9");
        reveal_strlit("a");
        reveal_strlit("b");
        reveal_strlit("c");
        reveal_strlit("d");
        reveal_strlit("e");
        reveal_strlit("f");
    }
    if n == 0 {
        "0"
    } else if n == 1 {
        "1"
    } else if n == 2 {
        "2"
    } else if n == 3 {
        "3"
    } else if n == 4 {
        "4"
    } else if n == 5 {
        "5"
    } else if n == 6 {
        "6"
    } else if n == 7 {
        "7"
    } else if n == 8 {
        "8"
    } else if n == 9 {
        "9"
    } else if n == 10 {
        "a"
    } else if n == 11 {
        "b"
    } else if n == 12 {
        "c"
    } else if n == 13 {
        "d"
    } else if n == 14 {
        "e"
    } else {
        "f"
    }
}

/// Render bytes as lower-case hex, two characters per byte.
pub fn hex_string(b: &[u8]) -> (r: String)
    ensures
        r@ == hex_chars(b@),
{
    let mut s = String::new();
    let mut j: usize = 0;
    while j < b.len()
        invariant
            j <= b@.len(),
            s@ == hex_chars(b@.take(j as int)),
        decreases b@.len() - j,
    {
        let hi = b[j] / 16;
        let lo = b[j] % 16;
        s.append(nibble_str(hi));
        s.append(nibble_str(lo));
        proof {
            assert(s@ =~= hex_chars(b@.take(j as int + 1)));
        }
        j += 1;
    }
    proof {
        assert(b@.take(b@.len() as int) =~= b@);
    }
    s
}

/// The hash identifier of a canonical byte string.
pub fn hash_string(b: &[u8]) -> (r: String)
    ensures
        r@ == hash_of_bytes(b@),
        r@.len() == 64,
{
    let digest = sha256(b);
    hex_string(digest.as_slice())
}

} // verus!
