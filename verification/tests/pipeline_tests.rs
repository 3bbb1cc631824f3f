use mthstore::asset::Asset;
use mthstore::collect::FsEntry;
use mthstore::error::StoreError;
use mthstore::hex::to_hex;
use mthstore::index::decode_index;
use mthstore::materialize::AssetCopyMode;
use mthstore::pipeline::{ModRoot, build_canonical_set, run_core};

fn file(name: &str, bytes: &[u8]) -> FsEntry {
    FsEntry::File { name: name.to_string(), bytes: bytes.to_vec() }
}

fn dir(name: &str, entries: Vec<FsEntry>) -> FsEntry {
    FsEntry::Dir { name: name.to_string(), entries }
}

fn leaf_mod(name: &str, texture: &str, bytes: &[u8]) -> FsEntry {
    dir(name, vec![file("init.lua", b""), dir("textures", vec![file(texture, bytes)])])
}

/// World has an enabled mod A and a disabled mod B, both with the same
/// texture bytes; the game has a mod C with different bytes.
fn scenario_roots() -> (ModRoot, ModRoot) {
    let worldmods = ModRoot {
        base: "world/worldmods".to_string(),
        entries: vec![leaf_mod("a", "t.png", b"abc"), leaf_mod("b", "t.png", b"abc")],
    };
    let gamemods = ModRoot {
        base: "game/mods".to_string(),
        entries: vec![leaf_mod("c", "u.png", b"xyz")],
    };
    (worldmods, gamemods)
}

#[test]
fn disabled_duplicate_collapses_to_two_entries() {
    let (worldmods, gamemods) = scenario_roots();
    let config = "load_mod_a = true\nload_mod_b = false\n";
    let extras: Vec<ModRoot> = Vec::new();
    let existing: Vec<String> = Vec::new();
    let out = run_core(
        config,
        Some(&worldmods),
        &gamemods,
        &extras,
        &existing,
        &AssetCopyMode::Copy,
        true,
    )
    .unwrap();

    // Exactly two distinct identifiers: hash("abc") and hash("xyz").
    assert_eq!(out.canonical.len(), 2);
    let names: Vec<String> =
        out.canonical.iter().map(|a| to_hex(a.hash.as_slice())).collect();
    assert!(names.contains(&"a9993e364706816aba3e25717850c26c9cd0d89d".to_string()));
    assert!(names.contains(&"66b27417d37e024c46526c2f6d358a754fc552f3".to_string()));

    // Manifest: 6 header bytes + 2 * 20.
    assert_eq!(out.index_bytes.len(), 46);
    assert_eq!(&out.index_bytes[0..6], b"MTHS\x00\x01");

    // The store receives exactly the two names; B contributed nothing.
    assert_eq!(out.plan.len(), 2);
    for p in &out.plan {
        assert!(!p.source.contains("/b/"));
        assert_eq!(p.name.len(), 40);
    }

    // Provenance: the "abc" entry comes from the enabled world mod A.
    let a_entry = out
        .canonical
        .iter()
        .find(|a| to_hex(a.hash.as_slice()) == "a9993e364706816aba3e25717850c26c9cd0d89d")
        .unwrap();
    assert_eq!(a_entry.path, "world/worldmods/a/textures/t.png");
}

#[test]
fn index_decodes_back_to_the_canonical_identifiers() {
    let (worldmods, gamemods) = scenario_roots();
    let config = "load_mod_a = true\n";
    let extras: Vec<ModRoot> = Vec::new();
    let existing: Vec<String> = Vec::new();
    let out = run_core(
        config,
        Some(&worldmods),
        &gamemods,
        &extras,
        &existing,
        &AssetCopyMode::NoOp,
        true,
    )
    .unwrap();
    assert!(out.plan.is_empty());
    let decoded = decode_index(&out.index_bytes).unwrap();
    assert_eq!(decoded.len(), out.canonical.len());
    for (d, a) in decoded.iter().zip(out.canonical.iter()) {
        assert_eq!(d, &a.hash);
    }
}

#[test]
fn world_duplicate_of_game_media_keeps_world_provenance() {
    // A world mod and a game mod share bytes: the world discovery comes
    // first in the fixed precedence and its path is retained.
    let worldmods = ModRoot {
        base: "world/worldmods".to_string(),
        entries: vec![leaf_mod("w", "t.png", b"abc")],
    };
    let gamemods = ModRoot {
        base: "game/mods".to_string(),
        entries: vec![leaf_mod("g", "t.png", b"abc")],
    };
    let extras: Vec<ModRoot> = Vec::new();
    let config = "load_mod_w = true\n";
    let c = build_canonical_set(config, Some(&worldmods), &gamemods, &extras).unwrap();
    assert_eq!(c.len(), 1);
    assert_eq!(c[0].path, "world/worldmods/w/textures/t.png");
}

#[test]
fn symlink_without_support_fails_the_run() {
    let (worldmods, gamemods) = scenario_roots();
    let config = "load_mod_a = true\n";
    let extras: Vec<ModRoot> = Vec::new();
    let existing: Vec<String> = Vec::new();
    let r = run_core(
        config,
        Some(&worldmods),
        &gamemods,
        &extras,
        &existing,
        &AssetCopyMode::Symlink,
        false,
    );
    match r {
        Err(StoreError::PlatformUnsupported) => {}
        _ => panic!("expected the platform-unsupported error"),
    }
}

#[test]
fn absent_worldmods_root_is_not_an_error() {
    let gamemods = ModRoot {
        base: "game/mods".to_string(),
        entries: vec![leaf_mod("c", "u.png", b"xyz")],
    };
    let extras: Vec<ModRoot> = Vec::new();
    let existing: Vec<String> = Vec::new();
    let out = run_core(
        "load_mod_a = true\n",
        None,
        &gamemods,
        &extras,
        &existing,
        &AssetCopyMode::Copy,
        true,
    )
    .unwrap();
    assert_eq!(out.canonical.len(), 1);
    assert_eq!(out.canonical[0].path, "game/mods/c/textures/u.png");
}

#[test]
fn malformed_config_aborts_the_run() {
    let (worldmods, gamemods) = scenario_roots();
    let extras: Vec<ModRoot> = Vec::new();
    let r = build_canonical_set("[broken\n", Some(&worldmods), &gamemods, &extras);
    match r {
        Err(StoreError::ConfigError(_)) => {}
        _ => panic!("expected a configuration error"),
    }
}

#[test]
fn rerun_plans_only_missing_names() {
    let (worldmods, gamemods) = scenario_roots();
    let config = "load_mod_a = true\n";
    let extras: Vec<ModRoot> = Vec::new();
    // The store already holds the "abc" asset from an earlier run.
    let existing = vec!["a9993e364706816aba3e25717850c26c9cd0d89d".to_string()];
    let out = run_core(
        config,
        Some(&worldmods),
        &gamemods,
        &extras,
        &existing,
        &AssetCopyMode::Copy,
        true,
    )
    .unwrap();
    assert_eq!(out.canonical.len(), 2);
    assert_eq!(out.plan.len(), 1);
    assert_eq!(out.plan[0].name, "66b27417d37e024c46526c2f6d358a754fc552f3");
    assert_eq!(out.plan[0].source, "game/mods/c/textures/u.png");
}

#[test]
fn extra_paths_come_after_game_mods_and_are_filtered() {
    let worldmods = ModRoot { base: "world/worldmods".to_string(), entries: Vec::new() };
    let gamemods = ModRoot {
        base: "game/mods".to_string(),
        entries: vec![leaf_mod("g", "t.png", b"abc")],
    };
    let extras = vec![ModRoot {
        base: "extra".to_string(),
        entries: vec![leaf_mod("e_on", "t.png", b"abc"), leaf_mod("e_off", "u.png", b"xyz")],
    }];
    let config = "load_mod_e_on = true\n";
    let c = build_canonical_set(config, Some(&worldmods), &gamemods, &extras).unwrap();
    // "abc" appears under the game root first; "xyz" comes from a
    // disabled extra mod and is absent.
    assert_eq!(c.len(), 1);
    assert_eq!(c[0].path, "game/mods/g/textures/t.png");
}
