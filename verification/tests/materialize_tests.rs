use mthstore::asset::Asset;
use mthstore::error::StoreError;
use mthstore::hex::to_hex;
use mthstore::materialize::{AssetCopyMode, check_mode_supported, plan_placements};

fn asset(path: &str, hash_head: u8) -> Asset {
    let mut hash = vec![hash_head];
    hash.extend(std::iter::repeat(0u8).take(19));
    Asset::new(path.to_string(), hash)
}

#[test]
fn symlink_mode_needs_platform_support() {
    match check_mode_supported(&AssetCopyMode::Symlink, false) {
        Err(StoreError::PlatformUnsupported) => {}
        _ => panic!("expected the platform-unsupported error"),
    }
    assert!(check_mode_supported(&AssetCopyMode::Symlink, true).is_ok());
}

#[test]
fn other_modes_never_need_platform_support() {
    assert!(check_mode_supported(&AssetCopyMode::Copy, false).is_ok());
    assert!(check_mode_supported(&AssetCopyMode::Hardlink, false).is_ok());
    assert!(check_mode_supported(&AssetCopyMode::NoOp, false).is_ok());
}

#[test]
fn platform_unsupported_message() {
    let e = StoreError::PlatformUnsupported;
    assert_eq!(e.message(), "Symlinking not supported on this platform!");
}

#[test]
fn plan_skips_names_already_in_the_store() {
    let ms = vec![asset("src/a", 1), asset("src/b", 2), asset("src/c", 3)];
    let existing = vec![to_hex(ms[1].hash.as_slice())];
    let plan = plan_placements(&ms, &existing, &AssetCopyMode::Copy);
    assert_eq!(plan.len(), 2);
    assert_eq!(plan[0].source, "src/a");
    assert_eq!(plan[0].name, to_hex(ms[0].hash.as_slice()));
    assert_eq!(plan[1].source, "src/c");
    assert_eq!(plan[1].name, to_hex(ms[2].hash.as_slice()));
}

#[test]
fn plan_with_everything_present_is_empty() {
    let ms = vec![asset("src/a", 1), asset("src/b", 2)];
    let existing = vec![
        to_hex(ms[0].hash.as_slice()),
        to_hex(ms[1].hash.as_slice()),
    ];
    let plan = plan_placements(&ms, &existing, &AssetCopyMode::Hardlink);
    assert!(plan.is_empty());
}

#[test]
fn index_only_mode_plans_nothing() {
    let ms = vec![asset("src/a", 1)];
    let existing: Vec<String> = Vec::new();
    let plan = plan_placements(&ms, &existing, &AssetCopyMode::NoOp);
    assert!(plan.is_empty());
}

#[test]
fn destination_names_are_lowercase_hex_of_the_identifier() {
    let mut hash = vec![0xabu8; 20];
    hash[19] = 0xcd;
    let ms = vec![Asset::new("src/x".to_string(), hash)];
    let existing: Vec<String> = Vec::new();
    let plan = plan_placements(&ms, &existing, &AssetCopyMode::Symlink);
    assert_eq!(plan.len(), 1);
    assert_eq!(plan[0].name, "abababababababababababababababababababcd");
    assert_eq!(plan[0].name.len(), 40);
}
