//! The content-addressed filesystem layout: a digest maps to a
//! three-level sharded path under the storage root, uploads in progress
//! live under `uploads/` with a fresh name each, and peers fetch
//! objects over URLs built from the same pieces.
use vstd::prelude::*;

use crate::types::Digest;

verus! {

/// The ten decimal digits.
pub open spec fn digit_char(n: int) -> char {
    if n == 0 {
        '0'
    } else if n == 1 {
        '1'
    } else if n == 2 {
        '2'
    } else if n == 3 {
        '3'
    } else if n == 4 {
        '4'
    } else if n == 5 {
        '5'
    } else if n == 6 {
        '6'
    } else if n == 7 {
        '7'
    } else if n == 8 {
        '8'
    } else {
        '9'
    }
}

/// Decimal rendering of a non-negative number, most significant digit
/// first.
pub open spec fn dec_str(n: int) -> Seq<char>
    decreases n,
{
    if n < 0 {
        Seq::empty()
    } else if n < 10 {
        seq![digit_char(n)]
    } else {
        dec_str(n / 10) + seq![digit_char(n % 10)]
    }
}

/// One decimal digit as a one-character string.
fn digit_str(n: u8) -> (r: &'static str)
    requires
        n < 10,
    ensures
        r@ =~= seq![digit_char(n as int)],
{
    proof {
        reveal_strlit("0");
        reveal_strlit("1");
        reveal_strlit("2");
        reveal_strlit("3");
        reveal_strlit("4");
        reveal_strlit("5");
        reveal_strlit("6");
        reveal_strlit("7");
        reveal_strlit("8");
        reveal_strlit("9");
    }
    if n == 0 {
        "0"
    } else if n == 1 {
        "1"
    } else if n == 2 {
        "2"
    } else if n == 3 {
        "3"
    } else if n == 4 {
        "4"
    } else if n == 5 {
        "5"
    } else if n == 6 {
        "6"
    } else if n == 7 {
        "7"
    } else if n == 8 {
        "8"
    } else {
        "9"
    }
}

/// Digits collected least significant first, read back most
/// significant first.
pub open spec fn digits_chars(ds: Seq<u8>) -> Seq<char>
    decreases ds.len(),
{
    if ds.len() == 0 {
        Seq::empty()
    } else {
        seq![digit_char(ds.last() as int)] + digits_chars(ds.drop_last())
    }
}

proof fn lemma_digits_chars_index(ds: Seq<u8>, j: int)
    requires
        0 <= j < ds.len(),
    ensures
        digits_chars(ds).len() == ds.len(),
        digits_chars(ds)[j] == digit_char(ds[ds.len() - 1 - j] as int),
    decreases ds.len(),
{
    lemma_digits_chars_len(ds);
    if j > 0 {
        lemma_digits_chars_index(ds.drop_last(), j - 1);
        assert(ds.drop_last()[ds.len() - 1 - j] == ds[ds.len() - 1 - j]);
    }
}

proof fn lemma_digits_chars_len(ds: Seq<u8>)
    ensures
        digits_chars(ds).len() == ds.len(),
    decreases ds.len(),
{
    if ds.len() > 0 {
        lemma_digits_chars_len(ds.drop_last());
    }
}

/// Render a number in decimal.
pub fn u64_to_string(n: u64) -> (r: String)
    ensures
        r@ == dec_str(n as int),
{
    let mut digits: Vec<u8> = Vec::new();
    let mut rest = n;
    proof {
        assert(dec_str(n as int) =~= dec_str(rest as int) + digits_chars(digits@));
    }
    while rest >= 10
        invariant
            dec_str(n as int) == dec_str(rest as int) + digits_chars(digits@),
            forall|j: int| 0 <= j < digits@.len() ==> digits@[j] < 10,
        decreases rest,
    {
        let ghost pre = digits@;
        digits.push((rest % 10) as u8);
        proof {
            assert(digits@.drop_last() =~= pre);
            assert(digits_chars(digits@) == seq![digit_char((rest % 10) as int)] + digits_chars(
                pre,
            ));
        }
        rest = rest / 10;
        proof {
            assert(dec_str(n as int) =~= dec_str(rest as int) + digits_chars(digits@));
        }
    }
    let ghost pre = digits@;
    digits.push(rest as u8);
    proof {
        assert(digits@.drop_last() =~= pre);
        assert(dec_str(rest as int) =~= seq![digit_char(rest as int)]);
        assert(dec_str(n as int) =~= digits_chars(digits@));
    }
    let mut r = String::new();
    let mut i: usize = digits.len();
    proof {
        lemma_digits_chars_len(digits@);
        assert(r@ =~= digits_chars(digits@).take(digits@.len() - i));
    }
    while i > 0
        invariant
            0 <= i <= digits@.len(),
            forall|j: int| 0 <= j < digits@.len() ==> digits@[j] < 10,
            dec_str(n as int) == digits_chars(digits@),
            r@ == digits_chars(digits@).take(digits@.len() - i),
        decreases i,
    {
        i = i - 1;
        proof {
            lemma_digits_chars_index(digits@, digits@.len() - 1 - i);
        }
        r.append(digit_str(digits[i]));
        proof {
            assert(r@ =~= digits_chars(digits@).take(digits@.len() - i));
        }
    }
    proof {
        assert(digits_chars(digits@).take(digits@.len() as int) =~= digits_chars(digits@));
    }
    r
}

/// The sharded path of an object: the first three bytes of the hex body
/// name one directory each, the rest names the file.
pub open spec fn spec_object_path(root: Seq<char>, kind: Seq<char>, hash: Seq<char>) -> Seq<char> {
    root + "/"@ + kind + "/"@ + hash.subrange(0, 2) + "/"@ + hash.subrange(2, 4) + "/"@
        + hash.subrange(4, 6) + "/"@ + hash.skip(6)
}

/// A digest's hex body is long enough and plain enough to shard into
/// path components.
pub open spec fn shardable(d: &Digest) -> bool {
    &&& d.hash@.len() >= 6
    &&& d.hash.is_ascii()
}

fn object_path(images_directory: &str, kind: &str, digest: &Digest) -> (r: String)
    requires
        shardable(digest),
    ensures
        r@ == spec_object_path(images_directory@, kind@, digest.hash@),
{
    let len = digest.hash.as_str().unicode_len();
    let mut r = images_directory.to_owned();
    r.append("/");
    r.append(kind);
    r.append("/");
    r.append(digest.hash.as_str().substring_ascii(0, 2));
    r.append("/");
    r.append(digest.hash.as_str().substring_ascii(2, 4));
    r.append("/");
    r.append(digest.hash.as_str().substring_ascii(4, 6));
    r.append("/");
    r.append(digest.hash.as_str().substring_ascii(6, len));
    proof {
        assert(digest.hash@.subrange(6, digest.hash@.len() as int) =~= digest.hash@.skip(6));
        assert(r@ =~= spec_object_path(images_directory@, kind@, digest.hash@));
    }
    r
}

/// Where the bytes of a blob live.
pub fn get_blob_path(images_directory: &str, digest: &Digest) -> (r: String)
    requires
        shardable(digest),
    ensures
        r@ == spec_object_path(images_directory@, "blobs"@, digest.hash@),
{
    object_path(images_directory, "blobs", digest)
}

/// Where the bytes of a manifest live.
pub fn get_manifest_path(images_directory: &str, digest: &Digest) -> (r: String)
    requires
        shardable(digest),
    ensures
        r@ == spec_object_path(images_directory@, "manifests"@, digest.hash@),
{
    object_path(images_directory, "manifests", digest)
}

/// Where a blob upload in progress lives.
pub fn get_upload_path(images_directory: &str, upload_id: &str) -> (r: String)
    ensures
        r@ == images_directory@ + "/uploads/blob-"@ + upload_id@,
{
    let mut r = images_directory.to_owned();
    r.append("/uploads/blob-");
    r.append(upload_id);
    proof {
        assert(r@ =~= images_directory@ + "/uploads/blob-"@ + upload_id@);
    }
    r
}

/// Relies on `uuid::Uuid::new_v4` and its hyphenated form: a fresh
/// random name, 36 characters long.  Nothing else is promised of it.
#[verifier::external_body]
fn new_upload_id() -> (r: String)
    ensures
        r@.len() == 36,
{
    uuid::Uuid::new_v4().hyphenated().to_string()
}

/// A fresh temporary path for a manifest upload.
pub fn get_temp_path(images_directory: &str) -> (r: String)
    ensures
        exists|id: Seq<char>|
            r@ == images_directory@ + "/uploads/manifest-"@ + id && id.len() == 36,
{
    let id = new_upload_id();
    let mut r = images_directory.to_owned();
    r.append("/uploads/manifest-");
    r.append(id.as_str());
    proof {
        assert(r@ =~= images_directory@ + "/uploads/manifest-"@ + id@);
    }
    r
}

/// A fresh temporary path for a mirror download.
pub fn get_temp_mirror_path(images_directory: &str) -> (r: String)
    ensures
        exists|id: Seq<char>|
            r@ == images_directory@ + "/uploads/blob-"@ + id && id.len() == 36,
{
    let id = new_upload_id();
    let mut r = images_directory.to_owned();
    r.append("/uploads/blob-");
    r.append(id.as_str());
    proof {
        assert(r@ =~= images_directory@ + "/uploads/blob-"@ + id@);
    }
    r
}

} // verus!
