use samsungtv::keys::{common_keys, key_listing, normalize, with_key_prefix};

#[test]
fn adds_prefix_and_uppercases() {
    assert_eq!(normalize("volup"), "KEY_VOLUP");
}

#[test]
fn keeps_existing_prefix() {
    assert_eq!(normalize("KEY_POWER"), "KEY_POWER");
}

#[test]
fn uppercases_prefixed_input() {
    assert_eq!(normalize("key_mute"), "KEY_MUTE");
}

#[test]
fn digits_get_prefix() {
    assert_eq!(normalize("5"), "KEY_5");
}

#[test]
fn normalizing_twice_changes_nothing() {
    for input in ["volup", "key_mute", "KEY_", "", "straße", "Key_hdmi"] {
        let once = normalize(input);
        assert!(once.starts_with("KEY_"));
        assert_eq!(normalize(&once), once);
        assert_eq!(with_key_prefix(once.clone()), once);
    }
}

#[test]
fn prefix_step_alone() {
    assert_eq!(with_key_prefix(String::new()), "KEY_");
    assert_eq!(with_key_prefix("KEY".to_string()), "KEY_KEY");
    assert_eq!(with_key_prefix("KEY_X".to_string()), "KEY_X");
    assert_eq!(with_key_prefix("key_x".to_string()), "KEY_key_x");
}

#[test]
fn unicode_uppercasing_reaches_the_code() {
    assert_eq!(normalize("straße"), "KEY_STRASSE");
}

#[test]
fn common_keys_are_normalized_codes() {
    let keys = common_keys();
    assert_eq!(keys.len(), 29);
    assert_eq!(keys[0], ("KEY_POWER", "power toggle"));
    for (key, description) in keys {
        assert_eq!(normalize(key), key);
        assert!(!description.is_empty());
    }
}

#[test]
fn common_keys_in_listing_order() {
    let keys = common_keys();
    assert_eq!(keys[1], ("KEY_VOLUP", "volume up"));
    assert_eq!(keys[2], ("KEY_VOLDOWN", "volume down"));
    assert_eq!(keys[3], ("KEY_MUTE", "mute toggle"));
    assert_eq!(keys[16], ("KEY_0", "digit 0"));
    assert_eq!(keys[28], ("KEY_STOP", "stop"));
}

#[test]
fn key_listing_pads_codes_to_twelve_columns() {
    let lines = key_listing();
    assert_eq!(lines.len(), 29);
    assert_eq!(lines[0], "KEY_POWER     power toggle");
    assert_eq!(lines[2], "KEY_VOLDOWN   volume down");
    for (line, (key, description)) in lines.iter().zip(common_keys()) {
        assert_eq!(*line, format!("{key:12}  {description}"));
    }
}
