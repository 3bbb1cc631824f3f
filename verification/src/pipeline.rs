//! The run's verified core: resolve the enabled mods from the world
//! configuration, walk the mod roots in their fixed precedence — world
//! mods, then game mods, then extra search paths — build the canonical
//! set, serialize the index, and plan the placements.

use vstd::prelude::*;
use crate::asset::{Asset, SpecAsset, views, all_wf};
use crate::canonical::{canonicalize, spec_canonical};
use crate::collect::{
    FsEntry,
    search_modpack_dir,
    spec_walk,
    spec_walk_entry,
    spec_filter,
    has_file,
    lemma_filter_excludes,
};
use crate::config::{get_mod_list, spec_enabled_mods, ini_general_of, ini_parses, lemma_enabled_iff};
use crate::error::StoreError;
use crate::index::{encode_index, hashes_of, spec_encode};
use crate::materialize::{
    AssetCopyMode,
    Placement,
    check_mode_supported,
    plan_placements,
    placement_views,
    spec_plan,
};
use crate::strings::string_views;

verus! {

/// One root to search for mods: where it lies and what it holds.
pub struct ModRoot {
    pub base: String,
    pub entries: Vec<FsEntry>,
}

/// What a walk of an optional root discovers: nothing when the root is
/// absent.
pub open spec fn spec_opt_walk(w: Option<&ModRoot>, f: Option<Seq<Seq<char>>>) -> Seq<SpecAsset> {
    match w {
        Some(r) => spec_walk(r.entries@, f, r.base@),
        Option::None => Seq::<SpecAsset>::empty(),
    }
}

/// What walks of the extra search roots discover, in the order given.
pub open spec fn spec_extra_walks(extras: Seq<ModRoot>, f: Option<Seq<Seq<char>>>) -> Seq<
    SpecAsset,
>
    decreases extras.len(),
{
    if extras.len() == 0 {
        Seq::<SpecAsset>::empty()
    } else {
        spec_walk(extras[0].entries@, f, extras[0].base@) + spec_extra_walks(
            extras.drop_first(),
            f,
        )
    }
}

/// The full discovery of a run, in the fixed precedence: world mods under
/// the enablement filter, then game mods unfiltered, then each extra root
/// under the filter.
pub open spec fn spec_collect_all(
    mods: Seq<Seq<char>>,
    worldmods: Option<&ModRoot>,
    gamemods: &ModRoot,
    extras: Seq<ModRoot>,
) -> Seq<SpecAsset> {
    spec_opt_walk(worldmods, Some(mods)) + spec_walk(
        gamemods.entries@,
        Option::<Seq<Seq<char>>>::None,
        gamemods.base@,
    ) + spec_extra_walks(extras, Some(mods))
}

/// Walks every root in the fixed precedence and accumulates the
/// discovered assets in discovery order.
pub fn collect_all(
    mods: &Vec<String>,
    worldmods: Option<&ModRoot>,
    gamemods: &ModRoot,
    extras: &Vec<ModRoot>,
) -> (ms: Vec<Asset>)
    ensures
        views(ms@) == spec_collect_all(string_views(mods@), worldmods, gamemods, extras@),
        all_wf(ms@),
{
    let ghost f = Some(string_views(mods@));
    let mut ms: Vec<Asset> = Vec::new();
    proof {
        assert(all_wf(ms@));
        assert(views(ms@) =~= Seq::<SpecAsset>::empty());
    }
    match worldmods {
        Some(w) => {
            search_modpack_dir(&mut ms, &w.entries, w.base.as_str(), Some(mods));
            proof {
                assert(views(ms@) =~= spec_opt_walk(worldmods, f));
            }
        },
        None => {
            proof {
                assert(views(ms@) =~= spec_opt_walk(worldmods, f));
            }
        },
    }
    search_modpack_dir(&mut ms, &gamemods.entries, gamemods.base.as_str(), None);
    let ghost mid = views(ms@);
    proof {
        assert(mid =~= spec_opt_walk(worldmods, f) + spec_walk(
            gamemods.entries@,
            Option::<Seq<Seq<char>>>::None,
            gamemods.base@,
        ));
    }
    let mut i: usize = 0;
    proof {
        assert(extras@.skip(0) =~= extras@);
        assert(views(ms@) + spec_extra_walks(extras@.skip(0), f) =~= mid + spec_extra_walks(
            extras@,
            f,
        ));
    }
    while i < extras.len()
        invariant
            i <= extras.len(),
            f == Some(string_views(mods@)),
            views(ms@) + spec_extra_walks(extras@.skip(i as int), f) == mid + spec_extra_walks(
                extras@,
                f,
            ),
            all_wf(ms@),
        decreases extras.len() - i,
    {
        proof {
            assert(extras@.skip(i as int)[0] == extras@[i as int]);
            assert(extras@.skip(i as int).drop_first() =~= extras@.skip(i + 1));
        }
        let root = &extras[i];
        search_modpack_dir(&mut ms, &root.entries, root.base.as_str(), Some(mods));
        proof {
            assert(views(ms@) + spec_extra_walks(extras@.skip(i + 1), f) =~= mid
                + spec_extra_walks(extras@, f));
        }
        i = i + 1;
    }
    proof {
        assert(extras@.skip(extras@.len() as int).len() == 0);
        assert(spec_extra_walks(extras@.skip(extras@.len() as int), f)
            =~= Seq::<SpecAsset>::empty());
        assert(views(ms@) =~= views(ms@) + spec_extra_walks(extras@.skip(extras@.len() as int), f));
        assert(views(ms@) =~= spec_collect_all(string_views(mods@), worldmods, gamemods, extras@));
    }
    ms
}

/// Law: a leaf mod whose flag `load_mod_<name>` is absent from the
/// configuration, or set to anything but exactly `true`, contributes no
/// assets when walked under the enablement filter — however much media it
/// holds; the same mod walked without a filter contributes all its media.
pub proof fn lemma_disabled_mod_contributes_nothing(
    pairs: Seq<(Seq<char>, Seq<char>)>,
    name: String,
    entries: Vec<FsEntry>,
    base: Seq<char>,
)
    requires
        !has_file(entries@, "modpack.txt"@),
        has_file(entries@, "init.lua"@),
        !(exists|i: int|
            0 <= i < pairs.len() && (#[trigger] pairs[i]).0 == "load_mod_"@ + name@ && pairs[i].1
                == "true"@),
    ensures
        spec_walk_entry(
            FsEntry::Dir { name, entries },
            Some(spec_enabled_mods(pairs)),
            base,
        ) == Seq::<SpecAsset>::empty(),
        spec_walk_entry(FsEntry::Dir { name, entries }, Option::None, base)
            == crate::collect::spec_mod_assets(
            entries@,
            crate::strings::spec_join(base, name@),
        ),
{
    lemma_enabled_iff(pairs, name@);
    lemma_filter_excludes(name, entries, spec_enabled_mods(pairs), base);
}

/// Resolves the enabled mods from the world configuration text, walks
/// every root, and builds the canonical set. Succeeds exactly when the
/// configuration is well-formed — an absent world root is no error —
/// and fails with a configuration error otherwise.
pub fn build_canonical_set(
    config_text: &str,
    worldmods: Option<&ModRoot>,
    gamemods: &ModRoot,
    extras: &Vec<ModRoot>,
) -> (r: Result<Vec<Asset>, StoreError>)
    ensures
        r is Ok <==> ini_parses(config_text@),
        r matches Ok(c) ==> views(c@) == spec_canonical(
            spec_collect_all(
                spec_enabled_mods(ini_general_of(config_text@)),
                worldmods,
                gamemods,
                extras@,
            ),
        ) && all_wf(c@),
        r matches Err(e) ==> e is ConfigError,
{
    let mods = match get_mod_list(config_text) {
        Ok(m) => m,
        Err(e) => {
            return Err(e);
        },
    };
    let ms = collect_all(&mods, worldmods, gamemods, extras);
    Ok(canonicalize(&ms))
}

/// Everything a run produces for its caller to carry out: the canonical
/// set, the serialized index, and the placements still to make.
pub struct RunOutput {
    pub canonical: Vec<Asset>,
    pub index_bytes: Vec<u8>,
    pub plan: Vec<Placement>,
}

/// The verified core of a whole run. Fails with `PlatformUnsupported`
/// when symbolic links are requested without platform support, with a
/// configuration error when the world configuration is malformed, and
/// succeeds exactly otherwise: it hands back the canonical set, its
/// serialized index, and the placements whose destination names the
/// store does not yet hold.
pub fn run_core(
    config_text: &str,
    worldmods: Option<&ModRoot>,
    gamemods: &ModRoot,
    extras: &Vec<ModRoot>,
    existing: &Vec<String>,
    mode: &AssetCopyMode,
    symlink_supported: bool,
) -> (r: Result<RunOutput, StoreError>)
    ensures
        r is Ok <==> (ini_parses(config_text@) && !(mode is Symlink && !symlink_supported)),
        (mode is Symlink && !symlink_supported) ==> (r matches Err(e) && e is PlatformUnsupported),
        r matches Err(e) ==> (e is ConfigError || e is PlatformUnsupported),
        r matches Ok(out) ==> ({
            let c = spec_canonical(
                spec_collect_all(
                    spec_enabled_mods(ini_general_of(config_text@)),
                    worldmods,
                    gamemods,
                    extras@,
                ),
            );
            &&& views(out.canonical@) == c
            &&& out.index_bytes@ == spec_encode(hashes_of(c))
            &&& (mode is NoOp ==> out.plan@.len() == 0)
            &&& (!(mode is NoOp) ==> placement_views(out.plan@) == spec_plan(
                c,
                string_views(existing@),
            ))
        }),
{
    match check_mode_supported(mode, symlink_supported) {
        Ok(()) => {},
        Err(e) => {
            return Err(e);
        },
    }
    let canonical = match build_canonical_set(config_text, worldmods, gamemods, extras) {
        Ok(c) => c,
        Err(e) => {
            return Err(e);
        },
    };
    let index_bytes = encode_index(&canonical);
    let plan = plan_placements(&canonical, existing, mode);
    Ok(RunOutput { canonical, index_bytes, plan })
}

} // verus!
