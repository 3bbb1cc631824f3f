//! The content hasher: a 160-bit digest of a file's exact byte sequence,
//! computed by feeding the bytes through a streaming hash in fixed-size
//! chunks.

use vstd::prelude::*;
use vstd::slice::slice_subrange;

verus! {

/// How many bytes a content identifier has.
pub const DIGEST_LEN: usize = 20;

/// How many bytes of input are fed to the streaming hash at a time.
pub const CHUNK_LEN: usize = 8192;

/// The SHA-1 digest of a byte sequence. Its value is determined by the
/// bytes alone: the same bytes give the same digest on every run and
/// machine.
pub uninterp spec fn digest_of(bytes: Seq<u8>) -> Seq<u8>;

/// The bytes a streaming hash state has been fed so far.
pub uninterp spec fn hasher_fed(h: sha1::Sha1) -> Seq<u8>;

#[verifier::external_type_specification]
#[verifier::external_body]
pub struct ExSha1(sha1::Sha1);

/// Relies on sha1::Sha1::new: a fresh hash state over no input.
pub assume_specification[ sha1::Sha1::new ]() -> (h: sha1::Sha1)
    ensures
        hasher_fed(h) == Seq::<u8>::empty(),
;

/// Relies on sha1::Sha1::update: extends the hashed input with `data`.
pub assume_specification[ sha1::Sha1::update ](h: &mut sha1::Sha1, data: &[u8])
    ensures
        hasher_fed(*final(h)) == hasher_fed(*old(h)) + data@,
;

/// Relies on sha1::Sha1::digest and sha1::Digest::bytes: the 20-byte SHA-1
/// digest of exactly the bytes fed so far, a function of those bytes alone.
#[verifier::external_body]
fn digest_bytes(h: &sha1::Sha1) -> (r: Vec<u8>)
    ensures
        r@ == digest_of(hasher_fed(*h)),
        r@.len() == DIGEST_LEN,
{
    h.digest().bytes().to_vec()
}

/// The content identifier of a byte string: its bytes are streamed through
/// the hasher in chunks of at most `CHUNK_LEN` bytes.
pub fn hash_bytes(data: &[u8]) -> (r: Vec<u8>)
    ensures
        r@ == digest_of(data@),
        r@.len() == DIGEST_LEN,
{
    let mut h = sha1::Sha1::new();
    let mut i: usize = 0;
    while i < data.len()
        invariant
            i <= data.len(),
            hasher_fed(h) == data@.subrange(0, i as int),
        decreases data.len() - i,
    {
        let end = if data.len() - i > CHUNK_LEN { i + CHUNK_LEN } else { data.len() };
        let chunk = slice_subrange(data, i, end);
        h.update(chunk);
        proof {
            assert(data@.subrange(0, i as int) + data@.subrange(i as int, end as int)
                =~= data@.subrange(0, end as int));
        }
        i = end;
    }
    proof {
        assert(data@.subrange(0, data@.len() as int) =~= data@);
    }
    digest_bytes(&h)
}

} // verus!
