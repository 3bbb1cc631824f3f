use mthstore::asset::Asset;
use mthstore::collect::{FsEntry, search_media_dir, search_mod_dir, search_modpack_dir};
use mthstore::hashing::hash_bytes;

fn file(name: &str, bytes: &[u8]) -> FsEntry {
    FsEntry::File { name: name.to_string(), bytes: bytes.to_vec() }
}

fn dir(name: &str, entries: Vec<FsEntry>) -> FsEntry {
    FsEntry::Dir { name: name.to_string(), entries }
}

#[test]
fn media_dir_hashes_each_direct_file() {
    let entries = vec![
        file("a.png", b"abc"),
        file("b.ogg", b"xyz"),
        dir("nested", vec![file("c.png", b"ignored")]),
    ];
    let mut ms: Vec<Asset> = Vec::new();
    search_media_dir(&mut ms, &entries, "mods/m/textures");
    assert_eq!(ms.len(), 2);
    assert_eq!(ms[0].path, "mods/m/textures/a.png");
    assert_eq!(ms[0].hash, hash_bytes(b"abc"));
    assert_eq!(ms[1].path, "mods/m/textures/b.ogg");
    assert_eq!(ms[1].hash, hash_bytes(b"xyz"));
}

#[test]
fn mod_dir_collects_media_subfolders_in_fixed_order() {
    let entries = vec![
        file("init.lua", b"-- mod"),
        dir("sounds", vec![file("s.ogg", b"sss")]),
        dir("textures", vec![file("t.png", b"ttt")]),
        dir("docs", vec![file("readme.txt", b"no media")]),
    ];
    let mut ms: Vec<Asset> = Vec::new();
    search_mod_dir(&mut ms, &entries, "mods/m");
    // textures before sounds, whatever the enumeration order was.
    assert_eq!(ms.len(), 2);
    assert_eq!(ms[0].path, "mods/m/textures/t.png");
    assert_eq!(ms[1].path, "mods/m/sounds/s.ogg");
}

#[test]
fn walker_descends_modpacks_and_skips_non_mods() {
    let entries = vec![
        dir(
            "pack",
            vec![
                file("modpack.txt", b""),
                dir(
                    "inner",
                    vec![file("init.lua", b""), dir("textures", vec![file("t.png", b"abc")])],
                ),
            ],
        ),
        dir(".git", vec![file("HEAD", b"ref")]),
        file("stray.txt", b"not a directory entry of interest"),
    ];
    let mut ms: Vec<Asset> = Vec::new();
    search_modpack_dir(&mut ms, &entries, "root", None);
    assert_eq!(ms.len(), 1);
    assert_eq!(ms[0].path, "root/pack/inner/textures/t.png");
    assert_eq!(ms[0].hash, hash_bytes(b"abc"));
}

#[test]
fn filter_excludes_disabled_mods() {
    let entries = vec![
        dir(
            "enabled_mod",
            vec![file("init.lua", b""), dir("textures", vec![file("t.png", b"abc")])],
        ),
        dir(
            "disabled_mod",
            vec![file("init.lua", b""), dir("textures", vec![file("t.png", b"abc")])],
        ),
    ];
    let enabled = vec!["enabled_mod".to_string()];
    let mut ms: Vec<Asset> = Vec::new();
    search_modpack_dir(&mut ms, &entries, "worldmods", Some(&enabled));
    assert_eq!(ms.len(), 1);
    assert_eq!(ms[0].path, "worldmods/enabled_mod/textures/t.png");
}

#[test]
fn no_filter_collects_regardless_of_enablement() {
    // The same disabled mod under the game's root is collected: game mods
    // cannot be disabled.
    let entries = vec![
        dir(
            "disabled_mod",
            vec![file("init.lua", b""), dir("textures", vec![file("t.png", b"abc")])],
        ),
    ];
    let mut ms: Vec<Asset> = Vec::new();
    search_modpack_dir(&mut ms, &entries, "game/mods", None);
    assert_eq!(ms.len(), 1);
    assert_eq!(ms[0].path, "game/mods/disabled_mod/textures/t.png");
}

#[test]
fn modpacks_are_never_filtered() {
    // A modpack whose name is not in the filter is still descended into;
    // only leaf mods are filtered.
    let entries = vec![
        dir(
            "some_pack",
            vec![
                file("modpack.txt", b""),
                dir("inner", vec![file("init.lua", b""), dir("models", vec![file("m.obj", b"mm")])]),
            ],
        ),
    ];
    let enabled = vec!["inner".to_string()];
    let mut ms: Vec<Asset> = Vec::new();
    search_modpack_dir(&mut ms, &entries, "r", Some(&enabled));
    assert_eq!(ms.len(), 1);
    assert_eq!(ms[0].path, "r/some_pack/inner/models/m.obj");
}
