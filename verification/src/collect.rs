//! The mod tree walker and the media collector, on an in-memory model of
//! the directory tree. A directory holding a `modpack.txt` file groups
//! further mods and is descended into; one holding an `init.lua` file is a
//! leaf mod whose media subfolders (`textures`, `models`, `sounds`) are
//! collected; anything else is skipped silently. A leaf mod is collected
//! only when the enablement filter, if present, admits its name.

use vstd::prelude::*;
use crate::asset::{Asset, SpecAsset, views, all_wf};
use crate::hashing::{digest_of, hash_bytes};
use crate::strings::{spec_join, join_path, str_eq, string_views, list_contains_str};

verus! {

broadcast use vstd::std_specs::vec::group_vec_axioms;

/// One entry of the modeled directory tree: a file with its bytes, or a
/// directory with its entries.
pub enum FsEntry {
    File { name: String, bytes: Vec<u8> },
    Dir { name: String, entries: Vec<FsEntry> },
}

/// True when the entry is a file of this name.
pub open spec fn is_file_named(e: FsEntry, n: Seq<char>) -> bool {
    match e {
        FsEntry::File { name, .. } => name@ == n,
        FsEntry::Dir { .. } => false,
    }
}

/// True when the entry is a directory of this name.
pub open spec fn is_dir_named(e: FsEntry, n: Seq<char>) -> bool {
    match e {
        FsEntry::File { .. } => false,
        FsEntry::Dir { name, .. } => name@ == n,
    }
}

/// True when the entries contain a file of this name.
pub open spec fn has_file(entries: Seq<FsEntry>, n: Seq<char>) -> bool {
    exists|i: int| 0 <= i < entries.len() && is_file_named(#[trigger] entries[i], n)
}

/// The first directory of this name among the entries, if any.
pub open spec fn find_dir(entries: Seq<FsEntry>, n: Seq<char>) -> Option<FsEntry>
    decreases entries.len(),
{
    if entries.len() == 0 {
        Option::<FsEntry>::None
    } else if is_dir_named(entries[0], n) {
        Some(entries[0])
    } else {
        find_dir(entries.drop_first(), n)
    }
}

/// The asset a single entry of a media folder yields: one per file, named
/// by the folder's path and the file's name, identified by the digest of
/// the file's bytes; subdirectories yield nothing.
pub open spec fn spec_file_asset(e: FsEntry, base: Seq<char>) -> Seq<SpecAsset> {
    match e {
        FsEntry::File { name, bytes } => seq![
            SpecAsset { path: spec_join(base, name@), hash: digest_of(bytes@) },
        ],
        FsEntry::Dir { .. } => Seq::<SpecAsset>::empty(),
    }
}

/// The assets of a media folder: one per direct file entry, in
/// enumeration order; subdirectories are not descended into.
pub open spec fn spec_media_assets(entries: Seq<FsEntry>, base: Seq<char>) -> Seq<SpecAsset>
    decreases entries.len(),
{
    if entries.len() == 0 {
        Seq::<SpecAsset>::empty()
    } else {
        spec_file_asset(entries[0], base) + spec_media_assets(entries.drop_first(), base)
    }
}

/// The assets of one media subfolder of a mod directory: those of the
/// first subdirectory of that name, or none when the mod has no such
/// subfolder.
pub open spec fn spec_media_dir_assets(
    entries: Seq<FsEntry>,
    base: Seq<char>,
    dname: Seq<char>,
) -> Seq<SpecAsset> {
    match find_dir(entries, dname) {
        Some(FsEntry::Dir { entries: sub, .. }) => spec_media_assets(sub@, spec_join(base, dname)),
        _ => Seq::<SpecAsset>::empty(),
    }
}

/// The assets of a leaf mod: its media subfolders in the fixed order
/// `textures`, `models`, `sounds`.
pub open spec fn spec_mod_assets(entries: Seq<FsEntry>, base: Seq<char>) -> Seq<SpecAsset> {
    spec_media_dir_assets(entries, base, "textures"@) + spec_media_dir_assets(
        entries,
        base,
        "models"@,
    ) + spec_media_dir_assets(entries, base, "sounds"@)
}

/// True when the enablement filter admits this mod name: an absent filter
/// admits every mod.
pub open spec fn filter_admits(filter: Option<Seq<Seq<char>>>, name: Seq<char>) -> bool {
    match filter {
        Option::None => true,
        Some(list) => list.contains(name),
    }
}

/// What one directory entry contributes to the walk: a modpack is
/// descended into with the same filter, an admitted leaf mod yields its
/// media, and everything else yields nothing.
pub open spec fn spec_walk_entry(
    e: FsEntry,
    filter: Option<Seq<Seq<char>>>,
    base: Seq<char>,
) -> Seq<SpecAsset>
    decreases e,
{
    match e {
        FsEntry::File { .. } => Seq::<SpecAsset>::empty(),
        FsEntry::Dir { name, entries } => if has_file(entries@, "modpack.txt"@) {
            spec_walk(entries@, filter, spec_join(base, name@))
        } else if has_file(entries@, "init.lua"@) {
            if filter_admits(filter, name@) {
                spec_mod_assets(entries@, spec_join(base, name@))
            } else {
                Seq::<SpecAsset>::empty()
            }
        } else {
            Seq::<SpecAsset>::empty()
        },
    }
}

/// The assets a walk of these entries discovers, in entry order.
pub open spec fn spec_walk(
    entries: Seq<FsEntry>,
    filter: Option<Seq<Seq<char>>>,
    base: Seq<char>,
) -> Seq<SpecAsset>
    decreases entries,
{
    if entries.len() == 0 {
        Seq::<SpecAsset>::empty()
    } else {
        spec_walk_entry(entries[0], filter, base) + spec_walk(entries.drop_first(), filter, base)
    }
}

/// The model of an optional enablement filter.
pub open spec fn spec_filter(filter: Option<&Vec<String>>) -> Option<Seq<Seq<char>>> {
    match filter {
        Option::None => Option::<Seq<Seq<char>>>::None,
        Some(list) => Some(string_views(list@)),
    }
}

/// Law: a leaf mod whose name the filter does not admit contributes no
/// assets, however much media it holds; the same mod walked without a
/// filter contributes all its media.
pub proof fn lemma_filter_excludes(
    name: String,
    entries: Vec<FsEntry>,
    list: Seq<Seq<char>>,
    base: Seq<char>,
)
    requires
        !has_file(entries@, "modpack.txt"@),
        has_file(entries@, "init.lua"@),
    ensures
        !list.contains(name@) ==> spec_walk_entry(
            FsEntry::Dir { name, entries },
            Some(list),
            base,
        ) == Seq::<SpecAsset>::empty(),
        spec_walk_entry(FsEntry::Dir { name, entries }, Option::None, base) == spec_mod_assets(
            entries@,
            spec_join(base, name@),
        ),
{
}

/// True when the entries contain a file of this name.
fn dir_has_file(entries: &Vec<FsEntry>, n: &str) -> (r: bool)
    ensures
        r == has_file(entries@, n@),
{
    let mut i: usize = 0;
    while i < entries.len()
        invariant
            i <= entries.len(),
            forall|k: int| 0 <= k < i ==> !is_file_named(#[trigger] entries@[k], n@),
        decreases entries.len() - i,
    {
        match &entries[i] {
            FsEntry::File { name, .. } => {
                if str_eq(name.as_str(), n) {
                    proof {
                        assert(is_file_named(entries@[i as int], n@));
                    }
                    return true;
                }
            },
            FsEntry::Dir { .. } => {},
        }
        i = i + 1;
    }
    false
}

/// The index of the first directory of this name among the entries.
fn find_dir_at(entries: &Vec<FsEntry>, n: &str) -> (r: Option<usize>)
    ensures
        match r {
            Some(i) => i < entries@.len() && is_dir_named(entries@[i as int], n@) && find_dir(
                entries@,
                n@,
            ) == Some(entries@[i as int]),
            Option::None => find_dir(entries@, n@) is None,
        },
{
    let mut i: usize = 0;
    proof {
        assert(entries@.skip(0) =~= entries@);
    }
    while i < entries.len()
        invariant
            i <= entries.len(),
            find_dir(entries@, n@) == find_dir(entries@.skip(i as int), n@),
        decreases entries.len() - i,
    {
        proof {
            assert(entries@.skip(i as int)[0] == entries@[i as int]);
            assert(entries@.skip(i as int).drop_first() =~= entries@.skip(i + 1));
        }
        match &entries[i] {
            FsEntry::Dir { name, .. } => {
                if str_eq(name.as_str(), n) {
                    proof {
                        assert(is_dir_named(entries@[i as int], n@));
                    }
                    return Some(i);
                }
            },
            FsEntry::File { .. } => {},
        }
        i = i + 1;
    }
    proof {
        assert(entries@.skip(entries@.len() as int).len() == 0);
    }
    None
}

/// Collects one asset per direct file entry of a media folder, in
/// enumeration order: the file's path and the digest of its bytes.
pub fn search_media_dir(ms: &mut Vec<Asset>, entries: &Vec<FsEntry>, base: &str)
    ensures
        views(final(ms)@) == views(old(ms)@) + spec_media_assets(entries@, base@),
        all_wf(old(ms)@) ==> all_wf(final(ms)@),
{
    let ghost total = spec_media_assets(entries@, base@);
    let mut i: usize = 0;
    proof {
        assert(entries@.skip(0) =~= entries@);
        assert(views(ms@) + total =~= views(old(ms)@) + total);
    }
    while i < entries.len()
        invariant
            i <= entries.len(),
            total == spec_media_assets(entries@, base@),
            views(ms@) + spec_media_assets(entries@.skip(i as int), base@) == views(old(ms)@)
                + total,
            all_wf(old(ms)@) ==> all_wf(ms@),
        decreases entries.len() - i,
    {
        proof {
            assert(entries@.skip(i as int)[0] == entries@[i as int]);
            assert(entries@.skip(i as int).drop_first() =~= entries@.skip(i + 1));
        }
        match &entries[i] {
            FsEntry::File { name, bytes } => {
                let h = hash_bytes(bytes.as_slice());
                let p = join_path(base, name.as_str());
                let a = Asset::new(p, h);
                ms.push(a);
                proof {
                    assert(views(ms@) =~= views(ms@.drop_last()) + spec_file_asset(
                        entries@[i as int],
                        base@,
                    ));
                    assert(views(ms@) + spec_media_assets(entries@.skip(i + 1), base@)
                        =~= views(old(ms)@) + total);
                }
            },
            FsEntry::Dir { .. } => {
                proof {
                    assert(spec_file_asset(entries@[i as int], base@)
                        =~= Seq::<SpecAsset>::empty());
                    assert(views(ms@) + spec_media_assets(entries@.skip(i + 1), base@)
                        =~= views(old(ms)@) + total);
                }
            },
        }
        i = i + 1;
    }
    proof {
        assert(entries@.skip(entries@.len() as int).len() == 0);
        assert(spec_media_assets(entries@.skip(entries@.len() as int), base@)
            =~= Seq::<SpecAsset>::empty());
        assert(views(ms@) =~= views(ms@) + spec_media_assets(
            entries@.skip(entries@.len() as int),
            base@,
        ));
    }
}

/// Collects the assets of one media subfolder of a mod directory, when
/// the mod has a subdirectory of that name.
fn search_one_media(ms: &mut Vec<Asset>, entries: &Vec<FsEntry>, base: &str, dname: &str)
    ensures
        views(final(ms)@) == views(old(ms)@) + spec_media_dir_assets(entries@, base@, dname@),
        all_wf(old(ms)@) ==> all_wf(final(ms)@),
{
    match find_dir_at(entries, dname) {
        Some(i) => {
            match &entries[i] {
                FsEntry::Dir { entries: sub, .. } => {
                    let p = join_path(base, dname);
                    search_media_dir(ms, sub, p.as_str());
                },
                FsEntry::File { .. } => {
                    proof {
                        assert(false);
                    }
                },
            }
        },
        None => {},
    }
}

/// Collects the media of a leaf mod: its `textures`, `models` and
/// `sounds` subfolders, in that order.
pub fn search_mod_dir(ms: &mut Vec<Asset>, entries: &Vec<FsEntry>, base: &str)
    ensures
        views(final(ms)@) == views(old(ms)@) + spec_mod_assets(entries@, base@),
        all_wf(old(ms)@) ==> all_wf(final(ms)@),
{
    search_one_media(ms, entries, base, "textures");
    search_one_media(ms, entries, base, "models");
    search_one_media(ms, entries, base, "sounds");
}

/// Walks the entries of a mod root or modpack: descends into modpacks,
/// collects each leaf mod the filter admits, and skips everything else.
pub fn search_modpack_dir(
    ms: &mut Vec<Asset>,
    entries: &Vec<FsEntry>,
    base: &str,
    filter: Option<&Vec<String>>,
)
    ensures
        views(final(ms)@) == views(old(ms)@) + spec_walk(entries@, spec_filter(filter), base@),
        all_wf(old(ms)@) ==> all_wf(final(ms)@),
    decreases entries@,
{
    let ghost f = spec_filter(filter);
    let ghost total = spec_walk(entries@, f, base@);
    let mut i: usize = 0;
    proof {
        assert(entries@.skip(0) =~= entries@);
        assert(views(ms@) + total =~= views(old(ms)@) + total);
    }
    while i < entries.len()
        invariant
            i <= entries.len(),
            f == spec_filter(filter),
            total == spec_walk(entries@, f, base@),
            views(ms@) + spec_walk(entries@.skip(i as int), f, base@) == views(old(ms)@) + total,
            all_wf(old(ms)@) ==> all_wf(ms@),
        decreases entries.len() - i,
    {
        proof {
            assert(entries@.skip(i as int)[0] == entries@[i as int]);
            assert(entries@.skip(i as int).drop_first() =~= entries@.skip(i + 1));
        }
        let ghost contribution = spec_walk_entry(entries@[i as int], f, base@);
        match &entries[i] {
            FsEntry::Dir { name, entries: sub } => {
                if dir_has_file(sub, "modpack.txt") {
                    let p = join_path(base, name.as_str());
                    search_modpack_dir(ms, sub, p.as_str(), filter);
                } else if dir_has_file(sub, "init.lua") {
                    let admitted = match filter {
                        Some(list) => list_contains_str(list, name.as_str()),
                        None => true,
                    };
                    if admitted {
                        let p = join_path(base, name.as_str());
                        search_mod_dir(ms, sub, p.as_str());
                    }
                }
            },
            FsEntry::File { .. } => {},
        }
        proof {
            assert(views(ms@) + spec_walk(entries@.skip(i + 1), f, base@) =~= views(old(ms)@)
                + total);
        }
        i = i + 1;
    }
    proof {
        assert(entries@.skip(entries@.len() as int).len() == 0);
        assert(spec_walk(entries@.skip(entries@.len() as int), f, base@)
            =~= Seq::<SpecAsset>::empty());
        assert(views(ms@) =~= views(ms@) + spec_walk(
            entries@.skip(entries@.len() as int),
            f,
            base@,
        ));
    }
}

} // verus!
