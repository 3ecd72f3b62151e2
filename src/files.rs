//! Decisions about serving a stored file: whether it is served as an image,
//! and the name under which its converted form is cached.
use vstd::prelude::*;
use crate::extract::{guessed_mime, mime_guess_first};
use sha1::Digest;

verus! {

/// The SHA-1 digest of a byte string.
pub uninterp spec fn sha1_of(b: Seq<u8>) -> Seq<u8>;

/// Relies on sha1::Sha1::digest: the 20-byte SHA-1 digest of the input.
#[verifier::external_body]
fn sha1_digest(b: &[u8]) -> (r: Vec<u8>)
    ensures
        r@ == sha1_of(b@),
        r@.len() == 20,
{
    sha1::Sha1::digest(b).to_vec()
}

/// The lower-case hex digit of a value below 16.
pub open spec fn hex_digit(n: int) -> char {
    "0123456789abcdef"@[n]
}

/// Lower-case hex of a byte string, two digits per byte, high nibble first.
pub open spec fn hex_lower(b: Seq<u8>) -> Seq<char>
    decreases b.len(),
{
    if b.len() == 0 {
        Seq::empty()
    } else {
        hex_lower(b.drop_last()) + seq![hex_digit(b.last() as int / 16), hex_digit(b.last() as int % 16)]
    }
}

/// Relies on base16ct::lower::encode_string: lower-case hex of the input,
/// which panics only on inputs longer than half the address space.
#[verifier::external_body]
fn hex_encode(b: &[u8]) -> (r: String)
    requires
        b@.len() <= usize::MAX / 2,
    ensures
        r@ == hex_lower(b@),
{
    base16ct::lower::encode_string(b)
}

/// The name under which the converted form of a file's content is cached:
/// the lower-case hex of the content's SHA-1 digest.
pub fn image_cache_key(content: &[u8]) -> (r: String)
    ensures
        r@ == hex_lower(sha1_of(content@)),
{
    let digest = sha1_digest(content);
    hex_encode(digest.as_slice())
}

/// Whether the MIME type guessed for a path is an image type.
pub open spec fn is_image_mime(path: Seq<char>) -> bool {
    match guessed_mime(path) {
        Some(m) => m.len() >= 6 && m.take(6) == "image/"@,
        None => false,
    }
}

/// Whether a file is served through image conversion: its path's first
/// guessed MIME type has the top-level type `image`.
pub fn serves_as_image(path: &str) -> (r: bool)
    ensures
        r == is_image_mime(path@),
{
    let prefix = "image/";
    proof {
        reveal_strlit("image/");
    }
    match mime_guess_first(path) {
        Some(m) => {
            let s = m.as_str();
            let n = s.unicode_len();
            if n < 6 {
                return false;
            }
            let mut i: usize = 0;
            while i < 6
                invariant
                    0 <= i <= 6,
                    6 <= s@.len(),
                    s@ == m@,
                    guessed_mime(path@) == Some(m@),
                    prefix@ == "image/"@,
                    prefix@.len() == 6,
                    forall|j: int| 0 <= j < i ==> s@[j] == prefix@[j],
                decreases 6 - i,
            {
                if s.get_char(i) != prefix.get_char(i) {
                    assert(m@.take(6)[i as int] != "image/"@[i as int]);
                    return false;
                }
                i = i + 1;
            }
            assert(m@.take(6) =~= "image/"@);
            true
        },
        None => false,
    }
}

/// The entity tag of content served at a commit: the commit id in double
/// quotes.
pub fn etag_of(commit_id: &String) -> (r: String)
    ensures
        r@ == seq!['"'] + commit_id@ + seq!['"'],
{
    let mut r = String::from_str("\"");
    r.append(commit_id.as_str());
    r.append("\"");
    proof {
        reveal_strlit("\"");
    }
    assert(r@ =~= seq!['"'] + commit_id@ + seq!['"']);
    r
}

} // verus!
