use mthstore::config::get_mod_list;
use mthstore::error::StoreError;

#[test]
fn enabled_mods_from_world_config() {
    let text = "gameid = minetest\nload_mod_foo = true\nload_mod_bar = false\nload_mod_baz = true\n";
    let list = get_mod_list(text).unwrap();
    assert_eq!(list, vec!["foo".to_string(), "baz".to_string()]);
}

#[test]
fn missing_or_other_values_mean_disabled() {
    let text = "load_mod_a = yes\nload_mod_b = True\nload_mod_c =\nunrelated = true\n";
    let list = get_mod_list(text).unwrap();
    assert!(list.is_empty());
}

#[test]
fn empty_config_enables_nothing() {
    let list = get_mod_list("").unwrap();
    assert!(list.is_empty());
}

#[test]
fn keys_without_the_prefix_are_ignored() {
    let text = "mod_foo = true\nloadmod_bar = true\nload_mod_real = true\n";
    let list = get_mod_list(text).unwrap();
    assert_eq!(list, vec!["real".to_string()]);
}

#[test]
fn only_the_general_section_counts() {
    let text = "load_mod_top = true\n[other]\nload_mod_hidden = true\n";
    let list = get_mod_list(text).unwrap();
    assert_eq!(list, vec!["top".to_string()]);
}

#[test]
fn malformed_config_is_a_config_error() {
    let text = "[never closed\nload_mod_foo = true\n";
    match get_mod_list(text) {
        Err(StoreError::ConfigError(_)) => {}
        _ => panic!("expected a configuration error"),
    }
}

#[test]
fn config_error_message_names_the_settings_file() {
    let text = "[never closed\n";
    let e = get_mod_list(text).unwrap_err();
    assert!(e.message().starts_with("Settings file error: "));
}
