//! An asset: a discovered media file together with its content identifier.
//! Equality is defined solely by the content identifier — two assets with
//! different paths but identical bytes are equal.

use vstd::prelude::*;
use crate::hashing::DIGEST_LEN;

verus! {

/// The mathematical model of an asset: its provenance path and its
/// 20-byte content identifier.
pub struct SpecAsset {
    pub path: Seq<char>,
    pub hash: Seq<u8>,
}

/// A discovered media file: where it was found and the digest of its bytes.
#[derive(Debug)]
pub struct Asset {
    pub path: String,
    pub hash: Vec<u8>,
}

impl View for Asset {
    type V = SpecAsset;

    open spec fn view(&self) -> SpecAsset {
        SpecAsset { path: self.path@, hash: self.hash@ }
    }
}

impl Asset {
    /// A well-formed asset holds a digest of the fixed length.
    pub open spec fn wf(&self) -> bool {
        self.hash@.len() == DIGEST_LEN
    }

    /// Builds an asset from a path and its content identifier.
    pub fn new(path: String, hash: Vec<u8>) -> (r: Self)
        requires
            hash@.len() == DIGEST_LEN,
        ensures
            r@.path == path@,
            r@.hash == hash@,
            r.wf(),
    {
        Asset { path, hash }
    }
}

/// True when two byte vectors hold the same bytes.
pub fn bytes_eq(a: &Vec<u8>, b: &Vec<u8>) -> (r: bool)
    ensures
        r == (a@ == b@),
{
    if a.len() != b.len() {
        return false;
    }
    let mut i: usize = 0;
    while i < a.len()
        invariant
            i <= a.len(),
            a@.len() == b@.len(),
            forall|k: int| 0 <= k < i ==> a@[k] == b@[k],
        decreases a.len() - i,
    {
        if a[i] != b[i] {
            return false;
        }
        i = i + 1;
    }
    proof {
        assert(a@ =~= b@);
    }
    true
}

impl PartialEq for Asset {
    /// Assets are compared by content identifier alone.
    fn eq(&self, other: &Self) -> (r: bool) {
        bytes_eq(&self.hash, &other.hash)
    }
}

impl vstd::std_specs::cmp::PartialEqSpecImpl for Asset {
    open spec fn obeys_eq_spec() -> bool {
        true
    }

    open spec fn eq_spec(&self, other: &Self) -> bool {
        self.hash@ == other.hash@
    }
}

/// The models of a sequence of assets.
pub open spec fn views(s: Seq<Asset>) -> Seq<SpecAsset> {
    s.map_values(|a: Asset| a@)
}

/// Every asset of the sequence is well-formed.
pub open spec fn all_wf(s: Seq<Asset>) -> bool {
    forall|i: int| 0 <= i < s.len() ==> (#[trigger] s[i]).wf()
}

} // verus!
