//! The deduplicator: merges the discovered assets into the canonical set,
//! ordered by content identifier ascending and free of duplicates. When
//! several assets share a content identifier, the one discovered earliest
//! is the one retained.

use vstd::prelude::*;
use crate::asset::{Asset, SpecAsset, views, all_wf, bytes_eq};

verus! {

/// Strict lexicographic order on byte strings: the order in which content
/// identifiers are laid out in the canonical set.
pub open spec fn lex_lt(a: Seq<u8>, b: Seq<u8>) -> bool
    decreases a.len(),
{
    if b.len() == 0 {
        false
    } else if a.len() == 0 {
        true
    } else if a[0] < b[0] {
        true
    } else if a[0] > b[0] {
        false
    } else {
        lex_lt(a.drop_first(), b.drop_first())
    }
}

/// The order is strict and total: never both ways, never reflexive, and
/// two distinct byte strings always compare one way.
pub proof fn lemma_lex_trichotomy(a: Seq<u8>, b: Seq<u8>)
    ensures
        !(lex_lt(a, b) && lex_lt(b, a)),
        a == b ==> !lex_lt(a, b),
        a != b ==> (lex_lt(a, b) || lex_lt(b, a)),
    decreases a.len() + b.len(),
{
    if a.len() == 0 && b.len() == 0 {
        assert(a =~= b);
    } else if a.len() > 0 && b.len() > 0 {
        lemma_lex_trichotomy(a.drop_first(), b.drop_first());
        if a[0] == b[0] {
            if a.drop_first() == b.drop_first() {
                assert(a.len() == b.len());
                assert forall|k: int| 0 <= k < a.len() implies a[k] == b[k] by {
                    if k > 0 {
                        assert(a.drop_first()[k - 1] == b.drop_first()[k - 1]);
                    }
                }
                assert(a =~= b);
            } else {
                assert(a != b);
            }
            if a == b {
                assert(a.drop_first() =~= b.drop_first());
            }
        }
    }
}

/// The order is transitive.
pub proof fn lemma_lex_trans(a: Seq<u8>, b: Seq<u8>, c: Seq<u8>)
    requires
        lex_lt(a, b),
        lex_lt(b, c),
    ensures
        lex_lt(a, c),
    decreases a.len(),
{
    if a.len() > 0 && b.len() > 0 && c.len() > 0 {
        if a[0] == b[0] && b[0] == c[0] {
            lemma_lex_trans(a.drop_first(), b.drop_first(), c.drop_first());
        }
    }
}

/// Skipping a shared prefix does not change how two byte strings compare.
proof fn lemma_lex_skip(a: Seq<u8>, b: Seq<u8>, i: int)
    requires
        0 <= i <= a.len(),
        i <= b.len(),
        forall|k: int| 0 <= k < i ==> a[k] == b[k],
    ensures
        lex_lt(a, b) == lex_lt(a.skip(i), b.skip(i)),
    decreases i,
{
    if i == 0 {
        assert(a.skip(0) =~= a);
        assert(b.skip(0) =~= b);
    } else {
        assert(a[0] == b[0]);
        lemma_lex_skip(a.drop_first(), b.drop_first(), i - 1);
        assert(a.drop_first().skip(i - 1) =~= a.skip(i));
        assert(b.drop_first().skip(i - 1) =~= b.skip(i));
    }
}

/// Compares two byte vectors in lexicographic order.
pub fn bytes_lt(a: &Vec<u8>, b: &Vec<u8>) -> (r: bool)
    ensures
        r == lex_lt(a@, b@),
{
    let mut i: usize = 0;
    while i < a.len() && i < b.len()
        invariant
            i <= a.len(),
            i <= b.len(),
            forall|k: int| 0 <= k < i ==> a@[k] == b@[k],
        decreases a.len() - i,
    {
        let x = a[i];
        let y = b[i];
        if x != y {
            proof {
                lemma_lex_skip(a@, b@, i as int);
            }
            return x < y;
        }
        i = i + 1;
    }
    proof {
        lemma_lex_skip(a@, b@, i as int);
    }
    a.len() < b.len()
}

/// The canonical set is in strictly ascending content-identifier order.
pub open spec fn sorted_strict(s: Seq<SpecAsset>) -> bool {
    forall|i: int, j: int|
        0 <= i < j < s.len() ==> lex_lt((#[trigger] s[i]).hash, (#[trigger] s[j]).hash)
}

/// Some asset of the sequence carries this content identifier.
pub open spec fn has_hash(s: Seq<SpecAsset>, h: Seq<u8>) -> bool {
    exists|i: int| 0 <= i < s.len() && (#[trigger] s[i]).hash == h
}

/// The earliest asset of the sequence carrying this content identifier.
pub open spec fn first_with(s: Seq<SpecAsset>, h: Seq<u8>) -> SpecAsset
    decreases s.len(),
{
    if s.len() == 0 {
        arbitrary()
    } else if s[0].hash == h {
        s[0]
    } else {
        first_with(s.drop_first(), h)
    }
}

/// Adds one asset to a canonical set: keeps the set unchanged when its
/// content identifier is already present, else inserts it in order.
pub open spec fn spec_add(r: Seq<SpecAsset>, a: SpecAsset) -> Seq<SpecAsset>
    decreases r.len(),
{
    if r.len() == 0 {
        seq![a]
    } else if a.hash == r[0].hash {
        r
    } else if lex_lt(a.hash, r[0].hash) {
        seq![a] + r
    } else {
        seq![r[0]] + spec_add(r.drop_first(), a)
    }
}

/// The canonical set of an asset collection, built by adding the assets
/// in discovery order: sorted ascending, one asset per content
/// identifier, earliest discovery retained.
pub open spec fn spec_canonical(s: Seq<SpecAsset>) -> Seq<SpecAsset>
    decreases s.len(),
{
    if s.len() == 0 {
        Seq::<SpecAsset>::empty()
    } else {
        spec_add(spec_canonical(s.drop_last()), s.last())
    }
}

/// What one addition does: order and earliest-first retention are kept,
/// exactly the new content identifier becomes present, and every element
/// of the result is the added asset or one of the old elements.
proof fn lemma_add_props(r: Seq<SpecAsset>, a: SpecAsset)
    requires
        sorted_strict(r),
    ensures
        sorted_strict(spec_add(r, a)),
        forall|h: Seq<u8>| has_hash(spec_add(r, a), h) <==> (has_hash(r, h) || h == a.hash),
        forall|k: int| 0 <= k < spec_add(r, a).len()
            ==> spec_add(r, a)[k] == a || r.contains(#[trigger] spec_add(r, a)[k]),
        forall|h: Seq<u8>| has_hash(r, h) ==> first_with(spec_add(r, a), h) == first_with(r, h),
        !has_hash(r, a.hash) ==> first_with(spec_add(r, a), a.hash) == a,
    decreases r.len(),
{
    let add = spec_add(r, a);
    if r.len() == 0 {
        assert(add =~= seq![a]);
        assert(add[0] == a);
        assert forall|h: Seq<u8>| has_hash(add, h) implies (has_hash(r, h) || h == a.hash) by {
            let i = choose|i: int| 0 <= i < add.len() && add[i].hash == h;
            assert(add[i] == a);
        }
        assert(has_hash(add, a.hash)) by {
            assert(add[0].hash == a.hash);
        }
    } else if a.hash == r[0].hash {
        assert(add == r);
        assert(has_hash(r, a.hash)) by {
            assert(r[0].hash == a.hash);
        }
        assert forall|k: int| 0 <= k < add.len()
            implies add[k] == a || r.contains(#[trigger] add[k]) by {
            assert(r[k] == add[k]);
        }
    } else if lex_lt(a.hash, r[0].hash) {
        assert(add =~= seq![a] + r);
        assert forall|i: int, j: int| 0 <= i < j < add.len()
            implies lex_lt((#[trigger] add[i]).hash, (#[trigger] add[j]).hash) by {
            if i == 0 {
                assert(add[j] == r[j - 1]);
                if j == 1 {
                    assert(add[j].hash == r[0].hash);
                } else {
                    assert(lex_lt(r[0].hash, r[j - 1].hash));
                    lemma_lex_trans(a.hash, r[0].hash, r[j - 1].hash);
                }
            } else {
                assert(add[i] == r[i - 1] && add[j] == r[j - 1]);
                assert(lex_lt(r[i - 1].hash, r[j - 1].hash));
            }
        }
        assert forall|h: Seq<u8>| has_hash(add, h) implies (has_hash(r, h) || h == a.hash) by {
            let i = choose|i: int| 0 <= i < add.len() && (#[trigger] add[i]).hash == h;
            if i == 0 {
                assert(add[0] == a);
            } else {
                assert(add[i] == r[i - 1]);
                assert(r[i - 1].hash == h);
            }
        }
        assert forall|h: Seq<u8>| (has_hash(r, h) || h == a.hash) implies has_hash(add, h) by {
            if h == a.hash {
                assert(add[0].hash == h);
            } else {
                let i = choose|i: int| 0 <= i < r.len() && (#[trigger] r[i]).hash == h;
                assert(add[i + 1] == r[i]);
                assert(add[i + 1].hash == h);
            }
        }
        assert forall|k: int| 0 <= k < add.len()
            implies add[k] == a || r.contains(#[trigger] add[k]) by {
            if k > 0 {
                assert(add[k] == r[k - 1]);
            }
        }
        assert forall|h: Seq<u8>| has_hash(r, h)
            implies first_with(add, h) == first_with(r, h) by {
            let i = choose|i: int| 0 <= i < r.len() && (#[trigger] r[i]).hash == h;
            if i == 0 {
                lemma_lex_trichotomy(a.hash, r[0].hash);
            } else {
                assert(lex_lt(r[0].hash, r[i].hash));
                lemma_lex_trans(a.hash, r[0].hash, r[i].hash);
                lemma_lex_trichotomy(a.hash, r[i].hash);
            }
            assert(add[0] == a);
            assert(a.hash != h);
            assert(add.drop_first() =~= r);
        }
        assert(add[0] == a);
    } else {
        // The added identifier is greater than the head's: it goes into
        // the tail.
        lemma_lex_trichotomy(a.hash, r[0].hash);
        assert(lex_lt(r[0].hash, a.hash));
        let rd = r.drop_first();
        assert(sorted_strict(rd)) by {
            assert forall|i: int, j: int| 0 <= i < j < rd.len()
                implies lex_lt((#[trigger] rd[i]).hash, (#[trigger] rd[j]).hash) by {
                assert(rd[i] == r[i + 1] && rd[j] == r[j + 1]);
                assert(lex_lt(r[i + 1].hash, r[j + 1].hash));
            }
        }
        lemma_add_props(rd, a);
        let addd = spec_add(rd, a);
        assert(add =~= seq![r[0]] + addd);
        assert forall|i: int, j: int| 0 <= i < j < add.len()
            implies lex_lt((#[trigger] add[i]).hash, (#[trigger] add[j]).hash) by {
            if i == 0 {
                assert(add[j] == addd[j - 1]);
                if addd[j - 1] == a {
                    assert(lex_lt(r[0].hash, a.hash));
                } else {
                    let m = choose|m: int| 0 <= m < rd.len() && rd[m] == addd[j - 1];
                    assert(rd[m] == r[m + 1]);
                    assert(lex_lt(r[0].hash, r[m + 1].hash));
                }
            } else {
                assert(add[i] == addd[i - 1] && add[j] == addd[j - 1]);
                assert(lex_lt(addd[i - 1].hash, addd[j - 1].hash));
            }
        }
        assert forall|h: Seq<u8>| has_hash(add, h) implies (has_hash(r, h) || h == a.hash) by {
            let i = choose|i: int| 0 <= i < add.len() && (#[trigger] add[i]).hash == h;
            if i == 0 {
                assert(r[0].hash == h);
            } else {
                assert(add[i] == addd[i - 1]);
                assert(has_hash(addd, h)) by {
                    assert(addd[i - 1].hash == h);
                }
                if has_hash(rd, h) {
                    let m = choose|m: int| 0 <= m < rd.len() && (#[trigger] rd[m]).hash == h;
                    assert(r[m + 1].hash == h);
                }
            }
        }
        assert forall|h: Seq<u8>| (has_hash(r, h) || h == a.hash) implies has_hash(add, h) by {
            if h == a.hash {
                assert(has_hash(addd, h));
                let m = choose|m: int| 0 <= m < addd.len() && (#[trigger] addd[m]).hash == h;
                assert(add[m + 1] == addd[m]);
                assert(add[m + 1].hash == h);
            } else {
                let i = choose|i: int| 0 <= i < r.len() && (#[trigger] r[i]).hash == h;
                if i == 0 {
                    assert(add[0].hash == h);
                } else {
                    assert(rd[i - 1].hash == h);
                    assert(has_hash(rd, h));
                    assert(has_hash(addd, h));
                    let m = choose|m: int| 0 <= m < addd.len() && (#[trigger] addd[m]).hash == h;
                    assert(add[m + 1].hash == h);
                }
            }
        }
        assert forall|k: int| 0 <= k < add.len()
            implies add[k] == a || r.contains(#[trigger] add[k]) by {
            if k == 0 {
                assert(add[0] == r[0]);
                assert(r.contains(r[0]));
            } else {
                assert(add[k] == addd[k - 1]);
                if addd[k - 1] == a {
                } else {
                    let m = choose|m: int| 0 <= m < rd.len() && rd[m] == addd[k - 1];
                    assert(r[m + 1] == addd[k - 1]);
                    assert(r.contains(r[m + 1]));
                }
            }
        }
        assert forall|h: Seq<u8>| has_hash(r, h)
            implies first_with(add, h) == first_with(r, h) by {
            if r[0].hash == h {
                assert(add[0] == r[0]);
            } else {
                assert(add.drop_first() =~= addd);
                assert(has_hash(rd, h)) by {
                    let i = choose|i: int| 0 <= i < r.len() && (#[trigger] r[i]).hash == h;
                    assert(rd[i - 1].hash == h);
                }
                assert(first_with(addd, h) == first_with(rd, h));
            }
        }
        if !has_hash(r, a.hash) {
            assert(!has_hash(rd, a.hash)) by {
                if has_hash(rd, a.hash) {
                    let m = choose|m: int| 0 <= m < rd.len() && (#[trigger] rd[m]).hash == a.hash;
                    assert(r[m + 1].hash == a.hash);
                }
            }
            assert(add.drop_first() =~= addd);
            assert(first_with(addd, a.hash) == a);
        }
    }
}

/// What building the canonical set does: the result is sorted strictly
/// ascending, a content identifier is present exactly when some discovered
/// asset carried it, and the asset retained for it is the earliest
/// discovered one.
pub proof fn lemma_canonical_props(s: Seq<SpecAsset>)
    ensures
        sorted_strict(spec_canonical(s)),
        forall|h: Seq<u8>| has_hash(spec_canonical(s), h) <==> has_hash(s, h),
        forall|h: Seq<u8>| has_hash(s, h)
            ==> first_with(spec_canonical(s), h) == first_with(s, h),
    decreases s.len(),
{
    let c = spec_canonical(s);
    if s.len() == 0 {
        assert forall|h: Seq<u8>| has_hash(c, h) implies has_hash(s, h) by {}
    } else {
        let sd = s.drop_last();
        let a = s.last();
        lemma_canonical_props(sd);
        lemma_add_props(spec_canonical(sd), a);
        assert forall|h: Seq<u8>| has_hash(s, h) implies has_hash(c, h) by {
            let i = choose|i: int| 0 <= i < s.len() && (#[trigger] s[i]).hash == h;
            if i < s.len() - 1 {
                assert(sd[i].hash == h);
                assert(has_hash(sd, h));
            } else {
                assert(h == a.hash);
            }
        }
        assert forall|h: Seq<u8>| has_hash(c, h) implies has_hash(s, h) by {
            if has_hash(sd, h) {
                let i = choose|i: int| 0 <= i < sd.len() && (#[trigger] sd[i]).hash == h;
                assert(s[i].hash == h);
            } else {
                assert(h == a.hash);
                assert(s[s.len() - 1].hash == h);
            }
        }
        assert forall|h: Seq<u8>| has_hash(s, h)
            implies first_with(c, h) == first_with(s, h) by {
            if has_hash(sd, h) {
                lemma_first_with_extend(s, h);
                assert(first_with(spec_canonical(sd), h) == first_with(sd, h));
            } else {
                let i = choose|i: int| 0 <= i < s.len() && (#[trigger] s[i]).hash == h;
                if i < s.len() - 1 {
                    assert(sd[i].hash == h);
                    assert(has_hash(sd, h));
                }
                assert(i == s.len() - 1);
                assert(h == a.hash);
                assert(!has_hash(spec_canonical(sd), a.hash));
                lemma_first_with_only_last(s, h);
            }
        }
    }
}

/// When a content identifier occurs before the last element, dropping the
/// last element does not change which asset is the earliest with it.
proof fn lemma_first_with_extend(s: Seq<SpecAsset>, h: Seq<u8>)
    requires
        s.len() > 0,
        has_hash(s.drop_last(), h),
    ensures
        first_with(s, h) == first_with(s.drop_last(), h),
    decreases s.len(),
{
    let sd = s.drop_last();
    if s[0].hash == h {
    } else {
        assert(sd[0] == s[0]);
        let sf = s.drop_first();
        assert(sf.drop_last() =~= sd.drop_first());
        assert(has_hash(sf.drop_last(), h)) by {
            let i = choose|i: int| 0 <= i < sd.len() && (#[trigger] sd[i]).hash == h;
            assert(i != 0);
            assert(sd.drop_first()[i - 1].hash == h);
        }
        lemma_first_with_extend(sf, h);
    }
}

/// When only the last element carries the content identifier, it is the
/// earliest with it.
proof fn lemma_first_with_only_last(s: Seq<SpecAsset>, h: Seq<u8>)
    requires
        s.len() > 0,
        s.last().hash == h,
        !has_hash(s.drop_last(), h),
    ensures
        first_with(s, h) == s.last(),
    decreases s.len(),
{
    let sd = s.drop_last();
    if s.len() == 1 {
        assert(s[0] == s.last());
    } else {
        assert(s[0] == sd[0]);
        assert(s[0].hash != h) by {
            if s[0].hash == h {
                assert(sd[0].hash == h);
            }
        }
        let sf = s.drop_first();
        assert(sf.last() == s.last());
        assert(sf.drop_last() =~= sd.drop_first());
        assert(!has_hash(sf.drop_last(), h)) by {
            if has_hash(sf.drop_last(), h) {
                let i = choose|i: int| 0 <= i < sf.drop_last().len()
                    && (#[trigger] sf.drop_last()[i]).hash == h;
                assert(sd[i + 1].hash == h);
            }
        }
        lemma_first_with_only_last(sf, h);
    }
}

/// Law: however many source files share identical bytes, the canonical
/// set holds at most one asset per distinct content identifier.
pub proof fn lemma_canonical_unique(s: Seq<SpecAsset>)
    ensures
        forall|i: int, j: int|
            0 <= i < j < spec_canonical(s).len()
                ==> (#[trigger] spec_canonical(s)[i]).hash
                    != (#[trigger] spec_canonical(s)[j]).hash,
{
    let c = spec_canonical(s);
    lemma_canonical_props(s);
    assert forall|i: int, j: int| 0 <= i < j < c.len()
        implies (#[trigger] c[i]).hash != (#[trigger] c[j]).hash by {
        assert(lex_lt(c[i].hash, c[j].hash));
        lemma_lex_trichotomy(c[i].hash, c[j].hash);
    }
}

/// Law: assets with identical bytes collapse to a single canonical entry,
/// and the entry retained is the earliest-discovered one.
pub proof fn lemma_duplicate_collapse(s: Seq<SpecAsset>, i: int, j: int)
    requires
        0 <= i < j < s.len(),
        s[i].hash == s[j].hash,
    ensures
        has_hash(spec_canonical(s), s[i].hash),
        forall|k: int|
            0 <= k < spec_canonical(s).len()
                && (#[trigger] spec_canonical(s)[k]).hash == s[i].hash
                ==> spec_canonical(s)[k] == first_with(s, s[i].hash),
{
    let c = spec_canonical(s);
    let h = s[i].hash;
    lemma_canonical_props(s);
    lemma_canonical_unique(s);
    assert(has_hash(s, h)) by {
        assert(s[i].hash == h);
    }
    assert forall|k: int| 0 <= k < c.len() && (#[trigger] c[k]).hash == h
        implies c[k] == first_with(s, h) by {
        lemma_first_with_at(c, h, k);
    }
}

/// In a sequence whose content identifiers are pairwise distinct, the
/// element at any index carrying an identifier is the earliest with it.
proof fn lemma_first_with_at(c: Seq<SpecAsset>, h: Seq<u8>, k: int)
    requires
        0 <= k < c.len(),
        c[k].hash == h,
        forall|i: int, j: int|
            0 <= i < j < c.len() ==> (#[trigger] c[i]).hash != (#[trigger] c[j]).hash,
    ensures
        first_with(c, h) == c[k],
    decreases c.len(),
{
    if k == 0 {
    } else {
        assert(c[0].hash != h);
        let cf = c.drop_first();
        assert(cf[k - 1] == c[k]);
        assert forall|i: int, j: int| 0 <= i < j < cf.len()
            implies (#[trigger] cf[i]).hash != (#[trigger] cf[j]).hash by {
            assert(cf[i] == c[i + 1] && cf[j] == c[j + 1]);
            assert(c[i + 1].hash != c[j + 1].hash);
        }
        lemma_first_with_at(cf, h, k - 1);
    }
}

/// Splits one addition at the boundary of the elements that come before
/// the added identifier.
proof fn lemma_add_split(r: Seq<SpecAsset>, a: SpecAsset, j: int)
    requires
        0 <= j <= r.len(),
        forall|k: int| 0 <= k < j ==> lex_lt((#[trigger] r[k]).hash, a.hash),
    ensures
        spec_add(r, a) == r.subrange(0, j) + spec_add(r.subrange(j, r.len() as int), a),
    decreases j,
{
    if j == 0 {
        assert(r.subrange(0, 0) =~= Seq::<SpecAsset>::empty());
        assert(r.subrange(0, r.len() as int) =~= r);
        assert(spec_add(r, a) =~= r.subrange(0, 0) + spec_add(r.subrange(0, r.len() as int), a));
    } else {
        assert(lex_lt(r[0].hash, a.hash));
        lemma_lex_trichotomy(r[0].hash, a.hash);
        let rd = r.drop_first();
        assert forall|k: int| 0 <= k < j - 1 implies lex_lt((#[trigger] rd[k]).hash, a.hash) by {
            assert(rd[k] == r[k + 1]);
            assert(lex_lt(r[k + 1].hash, a.hash));
        }
        lemma_add_split(rd, a, j - 1);
        assert(rd.subrange(0, j - 1) =~= r.subrange(1, j));
        assert(rd.subrange(j - 1, rd.len() as int) =~= r.subrange(j, r.len() as int));
        assert(spec_add(r, a) =~= r.subrange(0, j) + spec_add(r.subrange(j, r.len() as int), a));
    }
}

/// Copies a byte vector.
fn clone_bytes(v: &Vec<u8>) -> (r: Vec<u8>)
    ensures
        r@ == v@,
{
    let r = v.clone();
    proof {
        assert forall|i: int| 0 <= i < v@.len() implies r@[i] == v@[i] by {
            assert(cloned::<u8>(v[i], r[i]));
        }
        assert(r@ =~= v@);
    }
    r
}

/// Copies an asset, model included.
fn clone_asset(a: &Asset) -> (r: Asset)
    ensures
        r@ == a@,
{
    let r = Asset { path: a.path.clone(), hash: clone_bytes(&a.hash) };
    r
}

/// Adds one asset to a canonical vector, keeping it duplicate-free and
/// sorted: a no-op when the content identifier is already present, an
/// ordered insertion otherwise.
fn insert_canonical(r: &mut Vec<Asset>, a: Asset)
    ensures
        views(final(r)@) == spec_add(views(old(r)@), a@),
{
    let ghost r0 = views(r@);
    let mut j: usize = 0;
    while j < r.len() && bytes_lt(&r[j].hash, &a.hash)
        invariant
            j <= r.len(),
            r@ == old(r)@,
            r0 == views(r@),
            r0.len() == r@.len(),
            forall|k: int| 0 <= k < j ==> lex_lt((#[trigger] r0[k]).hash, a@.hash),
        decreases r.len() - j,
    {
        proof {
            assert(r0[j as int] == r@[j as int]@);
        }
        j = j + 1;
    }
    proof {
        lemma_add_split(r0, a@, j as int);
    }
    if j < r.len() {
        proof {
            assert(r0.subrange(j as int, r0.len() as int)[0] == r@[j as int]@);
        }
        if bytes_eq(&r[j].hash, &a.hash) {
            // Already present: the earlier discovery is retained.
            proof {
                assert(spec_add(r0.subrange(j as int, r0.len() as int), a@)
                    =~= r0.subrange(j as int, r0.len() as int));
                assert(r0.subrange(0, j as int) + r0.subrange(j as int, r0.len() as int) =~= r0);
                assert(views(r@) == spec_add(views(old(r)@), a@));
            }
            return;
        }
        proof {
            lemma_lex_trichotomy(a@.hash, r@[j as int]@.hash);
            assert(lex_lt(a@.hash, r0.subrange(j as int, r0.len() as int)[0].hash));
            assert(spec_add(r0.subrange(j as int, r0.len() as int), a@)
                =~= seq![a@] + r0.subrange(j as int, r0.len() as int));
        }
        r.insert(j, a);
        proof {
            assert(views(r@) =~= r0.subrange(0, j as int) + (seq![a@] + r0.subrange(
                j as int,
                r0.len() as int,
            )));
        }
    } else {
        proof {
            assert(r0.subrange(j as int, r0.len() as int) =~= Seq::<SpecAsset>::empty());
        }
        r.push(a);
        proof {
            assert(views(r@) =~= r0.subrange(0, j as int) + seq![a@]);
        }
    }
}

/// Builds the canonical set of a discovered asset collection: sorted by
/// content identifier ascending, duplicates removed, the earliest
/// discovery of each identifier retained.
pub fn canonicalize(ms: &Vec<Asset>) -> (r: Vec<Asset>)
    ensures
        views(r@) == spec_canonical(views(ms@)),
        all_wf(ms@) ==> all_wf(r@),
{
    let mut r: Vec<Asset> = Vec::new();
    let mut i: usize = 0;
    while i < ms.len()
        invariant
            i <= ms.len(),
            views(r@) == spec_canonical(views(ms@).subrange(0, i as int)),
        decreases ms.len() - i,
    {
        let a = clone_asset(&ms[i]);
        insert_canonical(&mut r, a);
        i = i + 1;
        proof {
            let p = views(ms@).subrange(0, i as int);
            assert(p.drop_last() =~= views(ms@).subrange(0, i - 1));
            assert(p.last() == views(ms@)[i - 1]);
            assert(views(ms@)[i - 1] == ms@[i - 1]@);
        }
    }
    proof {
        assert(views(ms@).subrange(0, ms@.len() as int) =~= views(ms@));
        if all_wf(ms@) {
            let s = views(ms@);
            let c = views(r@);
            lemma_canonical_props(s);
            assert forall|k: int| 0 <= k < r@.len() implies (#[trigger] r@[k]).wf() by {
                assert(c[k] == r@[k]@);
                assert(has_hash(c, c[k].hash)) by {
                    assert(0 <= k < c.len() && c[k].hash == c[k].hash);
                }
                assert(has_hash(s, c[k].hash));
                let j = choose|j: int| 0 <= j < s.len() && (#[trigger] s[j]).hash == c[k].hash;
                assert(s[j] == ms@[j]@);
                assert(ms@[j].wf());
            }
        }
    }
    r
}

} // verus!
