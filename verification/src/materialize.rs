//! The asset materializer's verified half: which placement strategy is
//! available, and which assets of the canonical set still need placing
//! into the output store. Re-running against a store that already holds
//! some names plans only the missing ones and never touches an existing
//! entry.

use vstd::prelude::*;
use crate::asset::{Asset, SpecAsset, views};
use crate::error::StoreError;
use crate::hashing::DIGEST_LEN;
use crate::hex::{hex_of, to_hex, lemma_hex_len};
use crate::strings::{string_views, list_contains_str};

verus! {

/// How an asset's bytes are placed into the output store.
pub enum AssetCopyMode {
    /// Duplicate the file's bytes.
    Copy,
    /// Hard-link the destination to the source path.
    Hardlink,
    /// Symbolically link the destination to the source path.
    Symlink,
    /// Place nothing: an index-only run.
    NoOp,
}

/// One pending placement: the source path of the asset's bytes and the
/// destination name derived from its content identifier.
pub struct Placement {
    pub source: String,
    pub name: String,
}

/// The model of a placement.
pub struct SpecPlacement {
    pub source: Seq<char>,
    pub name: Seq<char>,
}

impl View for Placement {
    type V = SpecPlacement;

    open spec fn view(&self) -> SpecPlacement {
        SpecPlacement { source: self.source@, name: self.name@ }
    }
}

/// The models of a sequence of placements.
pub open spec fn placement_views(s: Seq<Placement>) -> Seq<SpecPlacement> {
    s.map_values(|p: Placement| p@)
}

/// Rejects a placement mode the platform cannot provide: symbolic links
/// where the platform lacks the primitive. Every other mode is accepted.
pub fn check_mode_supported(mode: &AssetCopyMode, symlink_supported: bool) -> (r: Result<
    (),
    StoreError,
>)
    ensures
        (r is Err) == (mode is Symlink && !symlink_supported),
        r matches Err(e) ==> e is PlatformUnsupported,
{
    match mode {
        AssetCopyMode::Symlink => if symlink_supported {
            Ok(())
        } else {
            Err(StoreError::PlatformUnsupported)
        },
        _ => Ok(()),
    }
}

/// The placements a canonical set needs against a store already holding
/// the given names: one per asset whose hexadecimal name is not yet
/// present, in canonical order.
pub open spec fn spec_plan(s: Seq<SpecAsset>, existing: Seq<Seq<char>>) -> Seq<SpecPlacement>
    decreases s.len(),
{
    if s.len() == 0 {
        Seq::<SpecPlacement>::empty()
    } else {
        let head = if existing.contains(hex_of(s[0].hash)) {
            Seq::<SpecPlacement>::empty()
        } else {
            seq![SpecPlacement { source: s[0].path, name: hex_of(s[0].hash) }]
        };
        head + spec_plan(s.drop_first(), existing)
    }
}

/// Law: a run against a store already holding some of the expected names
/// plans exactly the assets whose names are missing — no planned name is
/// already present, and every asset whose name is absent is planned.
pub proof fn lemma_plan_only_missing(s: Seq<SpecAsset>, existing: Seq<Seq<char>>)
    ensures
        forall|k: int|
            0 <= k < spec_plan(s, existing).len() ==> !existing.contains(
                (#[trigger] spec_plan(s, existing)[k]).name,
            ),
        forall|i: int|
            0 <= i < s.len() && !existing.contains(hex_of((#[trigger] s[i]).hash)) ==> spec_plan(
                s,
                existing,
            ).contains(SpecPlacement { source: s[i].path, name: hex_of(s[i].hash) }),
    decreases s.len(),
{
    let plan = spec_plan(s, existing);
    if s.len() > 0 {
        lemma_plan_only_missing(s.drop_first(), existing);
        let rest = spec_plan(s.drop_first(), existing);
        let head = if existing.contains(hex_of(s[0].hash)) {
            Seq::<SpecPlacement>::empty()
        } else {
            seq![SpecPlacement { source: s[0].path, name: hex_of(s[0].hash) }]
        };
        assert forall|k: int| 0 <= k < plan.len() implies !existing.contains(
            (#[trigger] plan[k]).name,
        ) by {
            if k < head.len() {
                assert(plan[k] == head[k]);
            } else {
                assert(plan[k] == rest[k - head.len()]);
                assert(!existing.contains(rest[k - head.len()].name));
            }
        }
        assert forall|i: int|
            0 <= i < s.len() && !existing.contains(hex_of((#[trigger] s[i]).hash)) implies plan
            .contains(SpecPlacement { source: s[i].path, name: hex_of(s[i].hash) }) by {
            let p = SpecPlacement { source: s[i].path, name: hex_of(s[i].hash) };
            if i == 0 {
                assert(plan[0] == p);
            } else {
                assert(s.drop_first()[i - 1] == s[i]);
                assert(rest.contains(p));
                let k = choose|k: int| 0 <= k < rest.len() && rest[k] == p;
                assert(plan[head.len() + k] == p);
            }
        }
    }
}

/// Law: every planned destination name is the forty-character
/// hexadecimal encoding of a content identifier.
pub proof fn lemma_plan_names_are_forty_chars(s: Seq<SpecAsset>, existing: Seq<Seq<char>>)
    requires
        forall|i: int| 0 <= i < s.len() ==> (#[trigger] s[i]).hash.len() == DIGEST_LEN,
    ensures
        forall|k: int|
            0 <= k < spec_plan(s, existing).len() ==> (#[trigger] spec_plan(s, existing)[k]).name.len()
                == 2 * DIGEST_LEN,
    decreases s.len(),
{
    if s.len() > 0 {
        let sf = s.drop_first();
        assert forall|i: int| 0 <= i < sf.len() implies (#[trigger] sf[i]).hash.len()
            == DIGEST_LEN by {
            assert(sf[i] == s[i + 1]);
        }
        lemma_plan_names_are_forty_chars(sf, existing);
        let plan = spec_plan(s, existing);
        let rest = spec_plan(sf, existing);
        let head = if existing.contains(hex_of(s[0].hash)) {
            Seq::<SpecPlacement>::empty()
        } else {
            seq![SpecPlacement { source: s[0].path, name: hex_of(s[0].hash) }]
        };
        assert forall|k: int| 0 <= k < plan.len() implies (#[trigger] plan[k]).name.len() == 2
            * DIGEST_LEN by {
            if k < head.len() {
                assert(plan[k] == head[k]);
                lemma_hex_len(s[0].hash);
            } else {
                assert(plan[k] == rest[k - head.len()]);
                assert(rest[k - head.len()].name.len() == 2 * DIGEST_LEN);
            }
        }
    }
}

/// Plans the placements of a canonical set: nothing for an index-only
/// run, else one placement per asset whose destination name is not yet in
/// the store, in canonical order.
pub fn plan_placements(ms: &Vec<Asset>, existing: &Vec<String>, mode: &AssetCopyMode) -> (plan:
    Vec<Placement>)
    ensures
        mode is NoOp ==> plan@.len() == 0,
        !(mode is NoOp) ==> placement_views(plan@) == spec_plan(
            views(ms@),
            string_views(existing@),
        ),
{
    let mut plan: Vec<Placement> = Vec::new();
    if let AssetCopyMode::NoOp = mode {
        return plan;
    }
    let ghost s = views(ms@);
    let ghost ex = string_views(existing@);
    let mut i: usize = 0;
    proof {
        assert(s.skip(0) =~= s);
        assert(placement_views(plan@) =~= Seq::<SpecPlacement>::empty());
    }
    while i < ms.len()
        invariant
            i <= ms.len(),
            s == views(ms@),
            ex == string_views(existing@),
            s.len() == ms@.len(),
            placement_views(plan@) + spec_plan(s.skip(i as int), ex) == spec_plan(s, ex),
        decreases ms.len() - i,
    {
        proof {
            assert(s.skip(i as int)[0] == s[i as int]);
            assert(s.skip(i as int).drop_first() =~= s.skip(i + 1));
            assert(s[i as int] == ms@[i as int]@);
        }
        let name = to_hex(ms[i].hash.as_slice());
        if !list_contains_str(existing, name.as_str()) {
            let source = ms[i].path.clone();
            let p = Placement { source, name };
            plan.push(p);
            proof {
                assert(placement_views(plan@) =~= placement_views(plan@.drop_last()) + seq![
                    SpecPlacement { source: s[i as int].path, name: hex_of(s[i as int].hash) },
                ]);
            }
        }
        proof {
            assert(placement_views(plan@) + spec_plan(s.skip(i + 1), ex) =~= spec_plan(s, ex));
        }
        i = i + 1;
    }
    proof {
        assert(s.skip(s.len() as int).len() == 0);
        assert(spec_plan(s.skip(s.len() as int), ex) =~= Seq::<SpecPlacement>::empty());
        assert(placement_views(plan@) =~= placement_views(plan@) + spec_plan(
            s.skip(s.len() as int),
            ex,
        ));
    }
    plan
}

} // verus!
