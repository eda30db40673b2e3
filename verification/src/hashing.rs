//! Content addressing: SHA-256 digests of byte runs, rendered as
//! lower-case hex, and the check that gates every upload and mirror
//! download: bytes reach the store only under the digest they hash to.
use vstd::prelude::*;

use crate::types::{Digest, DigestView};

verus! {

/// What SHA-256 makes of a byte run.  The algorithm itself is the
/// outside library's business; the name pins down that equal inputs
/// give equal digests.
pub uninterp spec fn sha256_of(data: Seq<u8>) -> Seq<u8>;

/// Relies on `ring::digest::digest` with `SHA256`: the digest is a
/// function of the input bytes alone, 32 bytes long.
#[verifier::external_body]
fn sha256_bytes(data: &[u8]) -> (r: Vec<u8>)
    ensures
        r@ == sha256_of(data@),
        r@.len() == 32,
{
    ring::digest::digest(&ring::digest::SHA256, data).as_ref().to_vec()
}

/// The sixteen hex digits, lower case.
pub open spec fn hex_digit(n: int) -> char {
    if n == 0 {
        '0'
    } else if n == 1 {
        '1'
    } else if n == 2 {
        '2'
    } else if n == 3 {
        '3'
    } else if n == 4 {
        '4'
    } else if n == 5 {
        '5'
    } else if n == 6 {
        '6'
    } else if n == 7 {
        '7'
    } else if n == 8 {
        '8'
    } else if n == 9 {
        '9'
    } else if n == 10 {
        'a'
    } else if n == 11 {
        'b'
    } else if n == 12 {
        'c'
    } else if n == 13 {
        'd'
    } else if n == 14 {
        'e'
    } else {
        'f'
    }
}

/// Lower-case hex of a byte run, two digits per byte.
pub open spec fn hex_of(data: Seq<u8>) -> Seq<char>
    decreases data.len(),
{
    if data.len() == 0 {
        Seq::empty()
    } else {
        hex_of(data.drop_last()) + seq![
            hex_digit(data.last() as int / 16),
            hex_digit(data.last() as int % 16),
        ]
    }
}

/// One hex digit as a one-character string.
fn hex_digit_str(n: u8) -> (r: &'static str)
    requires
        n < 16,
    ensures
        r@ =~= seq![hex_digit(n as int)],
{
    proof {
        reveal_strlit("0");
        reveal_strlit("1");
        reveal_strlit("2");
        reveal_strlit("3");
        reveal_strlit("4");
        reveal_strlit("5");
        reveal_strlit("6");
        reveal_strlit("7");
        reveal_strlit("8");
        reveal_strlit("9");
        reveal_strlit("a");
        reveal_strlit("b");
        reveal_strlit("c");
        reveal_strlit("d");
        reveal_strlit("e");
        reveal_strlit("f");
    }
    if n == 0 {
        "0"
    } else if n == 1 {
        "1"
    } else if n == 2 {
        "2"
    } else if n == 3 {
        "3"
    } else if n == 4 {
        "4"
    } else if n == 5 {
        "5"
    } else if n == 6 {
        "6"
    } else if n == 7 {
        "7"
    } else if n == 8 {
        "8"
    } else if n == 9 {
        "9"
    } else if n == 10 {
        "a"
    } else if n == 11 {
        "b"
    } else if n == 12 {
        "c"
    } else if n == 13 {
        "d"
    } else if n == 14 {
        "e"
    } else {
        "f"
    }
}

/// Render a byte run as lower-case hex.
pub fn hex_encode(data: &Vec<u8>) -> (r: String)
    ensures
        r@ == hex_of(data@),
{
    let mut r = String::new();
    let mut i: usize = 0;
    while i < data.len()
        invariant
            0 <= i <= data@.len(),
            r@ == hex_of(data@.take(i as int)),
        decreases data@.len() - i,
    {
        let b = data[i];
        r.append(hex_digit_str(b / 16));
        r.append(hex_digit_str(b % 16));
        proof {
            assert(data@.take(i + 1).drop_last() =~= data@.take(i as int));
            assert(data@.take(i + 1).last() == data@[i as int]);
            assert(r@ =~= hex_of(data@.take(i + 1)));
        }
        i = i + 1;
    }
    proof {
        assert(data@.take(data@.len() as int) =~= data@);
    }
    r
}

/// The canonical digest of a byte run: algorithm `sha256`, body the
/// hex of its hash.
pub open spec fn spec_digest_of(data: Seq<u8>) -> DigestView {
    DigestView { algo: "sha256"@, hash: hex_of(sha256_of(data)) }
}

proof fn lemma_hex_ascii(data: Seq<u8>)
    ensures
        hex_of(data).len() == 2 * data.len(),
        forall|i: int|
            0 <= i < hex_of(data).len() ==> '0' <= #[trigger] hex_of(data)[i] <= 'f' && hex_of(
                data,
            )[i] != ':',
    decreases data.len(),
{
    if data.len() > 0 {
        lemma_hex_ascii(data.drop_last());
    }
}

/// Hash a byte run and give back its canonical digest value.
pub fn digest_of_bytes(data: &[u8]) -> (r: Digest)
    ensures
        r@ == spec_digest_of(data@),
        r.wf(),
{
    let hash_bytes = sha256_bytes(data);
    let hash = hex_encode(&hash_bytes);
    proof {
        reveal_strlit("sha256");
        lemma_hex_ascii(sha256_of(data@));
        assert(vstd::utf8::is_ascii_chars(hash@));
    }
    Digest { algo: "sha256".to_owned(), hash }
}

/// Do these bytes hash to the asserted digest?  This comparison is the
/// only gate between uploaded or mirrored bytes and the canonical
/// store: on `false` the bytes never reach `blobs/<digest>`.
pub fn bytes_match_digest(data: &[u8], expected: &Digest) -> (r: bool)
    ensures
        r == (expected@ == spec_digest_of(data@)),
{
    let computed = digest_of_bytes(data);
    computed == *expected
}

} // verus!
