use mthstore::asset::Asset;
use mthstore::canonical::canonicalize;

fn asset(path: &str, hash_head: u8) -> Asset {
    let mut hash = vec![hash_head];
    hash.extend(std::iter::repeat(0u8).take(19));
    Asset::new(path.to_string(), hash)
}

#[test]
fn duplicates_collapse_to_one_entry() {
    let ms = vec![asset("world/a", 7), asset("game/b", 7), asset("extra/c", 7)];
    let c = canonicalize(&ms);
    assert_eq!(c.len(), 1);
    assert_eq!(c[0].hash[0], 7);
    // The earliest-discovered provenance is the one retained.
    assert_eq!(c[0].path, "world/a");
}

#[test]
fn canonical_set_is_sorted_ascending() {
    let ms = vec![asset("p3", 9), asset("p1", 1), asset("p2", 5)];
    let c = canonicalize(&ms);
    assert_eq!(c.len(), 3);
    assert_eq!(c[0].hash[0], 1);
    assert_eq!(c[1].hash[0], 5);
    assert_eq!(c[2].hash[0], 9);
}

#[test]
fn empty_collection_stays_empty() {
    let ms: Vec<Asset> = Vec::new();
    let c = canonicalize(&ms);
    assert!(c.is_empty());
}

#[test]
fn mixed_duplicates_keep_first_of_each() {
    let ms = vec![
        asset("w/one", 4),
        asset("w/two", 2),
        asset("g/one_again", 4),
        asset("g/three", 6),
        asset("x/two_again", 2),
    ];
    let c = canonicalize(&ms);
    assert_eq!(c.len(), 3);
    assert_eq!(c[0].path, "w/two");
    assert_eq!(c[1].path, "w/one");
    assert_eq!(c[2].path, "g/three");
}

#[test]
fn assets_compare_by_content_only() {
    let a = asset("one/path", 3);
    let b = asset("another/path", 3);
    let c = asset("one/path", 4);
    assert_eq!(a, b);
    assert_ne!(a, c);
}

#[test]
fn full_hash_order_is_lexicographic() {
    let mut h1 = vec![0u8; 20];
    h1[19] = 2;
    let mut h2 = vec![0u8; 20];
    h2[19] = 1;
    let ms = vec![Asset::new("late".to_string(), h1), Asset::new("early".to_string(), h2)];
    let c = canonicalize(&ms);
    assert_eq!(c.len(), 2);
    assert_eq!(c[0].path, "early");
    assert_eq!(c[1].path, "late");
}
