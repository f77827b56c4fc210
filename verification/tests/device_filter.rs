use input_relay::config::{AppConfig, DeviceConfig};
use input_relay::device_filter::{DeviceFilter, KeyExpr};
use input_relay::input::{AnalogEvent, InputEvent, InputEventPacket, KeyboardEvent};
use input_relay::string_map::StringMap;

fn create_test_config() -> AppConfig {
    let mut device_configs = StringMap::new();

    // Create a test device config with remapping
    let mut remap = StringMap::new();
    remap.insert("SLIDER_1".to_string(), KeyExpr::Single("KEY_A".to_string()));
    remap.insert("SLIDER_2".to_string(), KeyExpr::Single("KEY_B".to_string()));
    remap.insert(
        "GAME_1".to_string(),
        KeyExpr::Single("KEY_SPACE".to_string()),
    );

    let device_config = DeviceConfig {
        map_backend: "uinput".to_string(),
        device_type: "keyboard".to_string(),
        remap,
        remap_whitelist: false,
    };

    device_configs.insert("test_device".to_string(), device_config);

    AppConfig {
        device: device_configs,
        ..Default::default()
    }
}

#[test]
fn test_device_filter_creation() {
    let config = create_test_config();
    let filter = DeviceFilter::new(&config);

    assert!(filter.has_device_config("test_device"));
    assert!(!filter.has_device_config("nonexistent_device"));
    assert_eq!(filter.get_device_backend("test_device"), Some("uinput"));
    assert_eq!(filter.get_device_type("test_device"), Some("keyboard"));
}

#[test]
fn test_key_remapping() {
    let config = create_test_config();
    let filter = DeviceFilter::new(&config);

    // Create a test packet with custom keys
    let mut packet = InputEventPacket::new("test_device".to_string(), 12345);
    packet.add_event(InputEvent::Keyboard(KeyboardEvent::KeyPress {
        key: "SLIDER_1".to_string(),
    }));
    packet.add_event(InputEvent::Keyboard(KeyboardEvent::KeyRelease {
        key: "GAME_1".to_string(),
    }));

    let transformed_packet = filter.transform_packet(packet).unwrap();

    // Check that keys were remapped
    match &transformed_packet.events[0] {
        InputEvent::Keyboard(KeyboardEvent::KeyPress { key }) => {
            assert_eq!(key, "KEY_A");
        }
        _ => panic!("Expected KeyPress event"),
    }

    match &transformed_packet.events[1] {
        InputEvent::Keyboard(KeyboardEvent::KeyRelease { key }) => {
            assert_eq!(key, "KEY_SPACE");
        }
        _ => panic!("Expected KeyRelease event"),
    }
}

#[test]
fn test_standard_keys_passthrough() {
    let config = create_test_config();
    let filter = DeviceFilter::new(&config);

    // Create a packet with standard evdev keys
    let mut packet = InputEventPacket::new("test_device".to_string(), 12345);
    packet.add_event(InputEvent::Keyboard(KeyboardEvent::KeyPress {
        key: "KEY_A".to_string(),
    }));

    let transformed_packet = filter.transform_packet(packet).unwrap();

    // Standard keys should pass through unchanged
    match &transformed_packet.events[0] {
        InputEvent::Keyboard(KeyboardEvent::KeyPress { key }) => {
            assert_eq!(key, "KEY_A");
        }
        _ => panic!("Expected KeyPress event"),
    }
}

#[test]
fn test_unconfigured_device() {
    let config = create_test_config();
    let filter = DeviceFilter::new(&config);

    // Create a packet for a device without configuration
    let mut packet = InputEventPacket::new("unknown_device".to_string(), 12345);
    packet.add_event(InputEvent::Keyboard(KeyboardEvent::KeyPress {
        key: "SLIDER_1".to_string(),
    }));

    let transformed_packet = filter.transform_packet(packet).unwrap();

    // Keys should remain unchanged for unconfigured devices
    match &transformed_packet.events[0] {
        InputEvent::Keyboard(KeyboardEvent::KeyPress { key }) => {
            assert_eq!(key, "SLIDER_1");
        }
        _ => panic!("Expected KeyPress event"),
    }
}

#[test]
fn test_is_standard_evdev_key() {
    assert!(DeviceFilter::is_standard_evdev_key("KEY_A"));
    assert!(DeviceFilter::is_standard_evdev_key("BTN_LEFT"));
    assert!(DeviceFilter::is_standard_evdev_key("ABS_X"));
    assert!(DeviceFilter::is_standard_evdev_key("REL_X"));

    assert!(!DeviceFilter::is_standard_evdev_key("SLIDER_1"));
    assert!(!DeviceFilter::is_standard_evdev_key("GAME_1"));
    assert!(!DeviceFilter::is_standard_evdev_key("CUSTOM_KEY"));
}

#[test]
fn test_remap_whitelist_enabled_with_mappings() {
    let mut device_configs = StringMap::new();

    // Create a test device config with whitelist enabled
    let mut remap = StringMap::new();
    remap.insert("SLIDER_1".to_string(), KeyExpr::Single("KEY_A".to_string()));
    remap.insert(
        "GAME_1".to_string(),
        KeyExpr::Single("KEY_SPACE".to_string()),
    );

    let device_config = DeviceConfig {
        map_backend: "uinput".to_string(),
        device_type: "keyboard".to_string(),
        remap,
        remap_whitelist: true,
    };

    device_configs.insert("test_device".to_string(), device_config);

    let config = AppConfig {
        device: device_configs,
        ..Default::default()
    };

    let filter = DeviceFilter::new(&config);

    // Create a packet with mixed keys - some in remap table, some not
    let mut packet = InputEventPacket::new("test_device".to_string(), 12345);
    packet.add_event(InputEvent::Keyboard(KeyboardEvent::KeyPress {
        key: "SLIDER_1".to_string(), // Should be remapped and kept
    }));
    packet.add_event(InputEvent::Keyboard(KeyboardEvent::KeyPress {
        key: "SLIDER_2".to_string(), // Should be filtered out (not in remap table)
    }));
    packet.add_event(InputEvent::Keyboard(KeyboardEvent::KeyRelease {
        key: "GAME_1".to_string(), // Should be remapped and kept
    }));
    packet.add_event(InputEvent::Keyboard(KeyboardEvent::KeyPress {
        key: "KEY_B".to_string(), // Standard key but should be filtered out (not in remap table)
    }));

    let transformed_packet = filter.transform_packet(packet).unwrap();

    // Should only have 2 events (the ones in the remap table)
    assert_eq!(transformed_packet.events.len(), 2);

    // Check that the kept events were remapped correctly
    match &transformed_packet.events[0] {
        InputEvent::Keyboard(KeyboardEvent::KeyPress { key }) => {
            assert_eq!(key, "KEY_A"); // SLIDER_1 -> KEY_A
        }
        _ => panic!("Expected KeyPress event"),
    }

    match &transformed_packet.events[1] {
        InputEvent::Keyboard(KeyboardEvent::KeyRelease { key }) => {
            assert_eq!(key, "KEY_SPACE"); // GAME_1 -> KEY_SPACE
        }
        _ => panic!("Expected KeyRelease event"),
    }
}

#[test]
fn test_remap_whitelist_enabled_no_mappings() {
    let mut device_configs = StringMap::new();

    // Create a test device config with whitelist enabled but no remap table
    let device_config = DeviceConfig {
        map_backend: "uinput".to_string(),
        device_type: "keyboard".to_string(),
        remap: StringMap::new(), // Empty remap table
        remap_whitelist: true,
    };

    device_configs.insert("test_device".to_string(), device_config);

    let config = AppConfig {
        device: device_configs,
        ..Default::default()
    };

    let filter = DeviceFilter::new(&config);

    // Create a packet with various keys
    let mut packet = InputEventPacket::new("test_device".to_string(), 12345);
    packet.add_event(InputEvent::Keyboard(KeyboardEvent::KeyPress {
        key: "SLIDER_1".to_string(),
    }));
    packet.add_event(InputEvent::Keyboard(KeyboardEvent::KeyPress {
        key: "KEY_A".to_string(),
    }));
    packet.add_event(InputEvent::Keyboard(KeyboardEvent::KeyPress {
        key: "BTN_LEFT".to_string(),
    }));

    let transformed_packet = filter.transform_packet(packet).unwrap();

    // All events should be filtered out since whitelist is enabled but remap table is empty
    assert_eq!(transformed_packet.events.len(), 0);
}

#[test]
fn test_remap_whitelist_disabled_default_behavior() {
    let mut device_configs = StringMap::new();

    // Create a test device config with whitelist disabled (default behavior)
    let mut remap = StringMap::new();
    remap.insert("SLIDER_1".to_string(), KeyExpr::Single("KEY_A".to_string()));

    let device_config = DeviceConfig {
        map_backend: "uinput".to_string(),
        device_type: "keyboard".to_string(),
        remap,
        remap_whitelist: false, // Explicitly disabled
    };

    device_configs.insert("test_device".to_string(), device_config);

    let config = AppConfig {
        device: device_configs,
        ..Default::default()
    };

    let filter = DeviceFilter::new(&config);

    // Create a packet with mixed keys
    let mut packet = InputEventPacket::new("test_device".to_string(), 12345);
    packet.add_event(InputEvent::Keyboard(KeyboardEvent::KeyPress {
        key: "SLIDER_1".to_string(), // Should be remapped
    }));
    packet.add_event(InputEvent::Keyboard(KeyboardEvent::KeyPress {
        key: "SLIDER_2".to_string(), // Should pass through unchanged
    }));
    packet.add_event(InputEvent::Keyboard(KeyboardEvent::KeyPress {
        key: "KEY_B".to_string(), // Should pass through unchanged
    }));

    let transformed_packet = filter.transform_packet(packet).unwrap();

    // All events should be kept in non-whitelist mode
    assert_eq!(transformed_packet.events.len(), 3);

    // Check transformations
    match &transformed_packet.events[0] {
        InputEvent::Keyboard(KeyboardEvent::KeyPress { key }) => {
            assert_eq!(key, "KEY_A"); // SLIDER_1 -> KEY_A
        }
        _ => panic!("Expected KeyPress event"),
    }

    match &transformed_packet.events[1] {
        InputEvent::Keyboard(KeyboardEvent::KeyPress { key }) => {
            assert_eq!(key, "SLIDER_2"); // unchanged
        }
        _ => panic!("Expected KeyPress event"),
    }

    match &transformed_packet.events[2] {
        InputEvent::Keyboard(KeyboardEvent::KeyPress { key }) => {
            assert_eq!(key, "KEY_B"); // unchanged
        }
        _ => panic!("Expected KeyPress event"),
    }
}

#[test]
fn test_remap_whitelist_default_value() {
    // Test that remap_whitelist defaults to false
    let default_config = DeviceConfig::default();
    assert!(!default_config.remap_whitelist);
}

#[test]
fn test_keyexpr_combo_expansion() {
    let mut device_configs = StringMap::new();

    // Create a test device config with combo mapping
    let mut remap = StringMap::new();
    remap.insert(
        "SLIDER_1".to_string(),
        KeyExpr::Combo(vec!["KEY_A".to_string(), "KEY_B".to_string()]),
    );

    let device_config = DeviceConfig {
        map_backend: "uinput".to_string(),
        device_type: "keyboard".to_string(),
        remap,
        remap_whitelist: false,
    };

    device_configs.insert("test_device".to_string(), device_config);

    let config = AppConfig {
        device: device_configs,
        ..Default::default()
    };

    let filter = DeviceFilter::new(&config);

    // Create a test packet with a key that maps to a combo
    let mut packet = InputEventPacket::new("test_device".to_string(), 12345);
    packet.add_event(InputEvent::Keyboard(KeyboardEvent::KeyPress {
        key: "SLIDER_1".to_string(),
    }));

    let transformed_packet = filter.transform_packet(packet).unwrap();

    // Should have 2 events (one for each key in the combo)
    assert_eq!(transformed_packet.events.len(), 2);

    // Check that both keys in the combo are present
    match &transformed_packet.events[0] {
        InputEvent::Keyboard(KeyboardEvent::KeyPress { key }) => {
            assert_eq!(key, "KEY_A");
        }
        _ => panic!("Expected KeyPress event"),
    }

    match &transformed_packet.events[1] {
        InputEvent::Keyboard(KeyboardEvent::KeyPress { key }) => {
            assert_eq!(key, "KEY_B");
        }
        _ => panic!("Expected KeyPress event"),
    }
}

#[test]
fn test_keyexpr_sequence_expansion() {
    let mut device_configs = StringMap::new();

    // Create a test device config with sequence mapping
    let mut remap = StringMap::new();
    remap.insert(
        "SLIDER_1".to_string(),
        KeyExpr::Sequence(vec![
            "KEY_A".to_string(),
            "KEY_B".to_string(),
            "KEY_C".to_string(),
        ]),
    );

    let device_config = DeviceConfig {
        map_backend: "uinput".to_string(),
        device_type: "keyboard".to_string(),
        remap,
        remap_whitelist: false,
    };

    device_configs.insert("test_device".to_string(), device_config);

    let config = AppConfig {
        device: device_configs,
        ..Default::default()
    };

    let filter = DeviceFilter::new(&config);

    // Create a test packet with a key that maps to a sequence
    let mut packet = InputEventPacket::new("test_device".to_string(), 12345);
    packet.add_event(InputEvent::Keyboard(KeyboardEvent::KeyPress {
        key: "SLIDER_1".to_string(),
    }));

    let transformed_packet = filter.transform_packet(packet).unwrap();

    // Should have 3 events (one for each key in the sequence)
    assert_eq!(transformed_packet.events.len(), 3);

    // Check that all keys in the sequence are present in order
    let expected_keys = ["KEY_A", "KEY_B", "KEY_C"];
    for (i, expected_key) in expected_keys.iter().enumerate() {
        match &transformed_packet.events[i] {
            InputEvent::Keyboard(KeyboardEvent::KeyPress { key }) => {
                assert_eq!(key, expected_key);
            }
            _ => panic!("Expected KeyPress event"),
        }
    }
}

#[test]
fn test_keyexpr_parsing() {
    // Test single key
    let single = KeyExpr::parse("KEY_A");
    assert_eq!(single, KeyExpr::Single("KEY_A".to_string()));

    // Test combo
    let combo = KeyExpr::parse("KEY_A+KEY_B");
    assert_eq!(
        combo,
        KeyExpr::Combo(vec!["KEY_A".to_string(), "KEY_B".to_string()])
    );

    // Test sequence
    let sequence = KeyExpr::parse("KEY_A,KEY_B,KEY_C");
    assert_eq!(
        sequence,
        KeyExpr::Sequence(vec![
            "KEY_A".to_string(),
            "KEY_B".to_string(),
            "KEY_C".to_string()
        ])
    );

    // Test combo with spaces
    let combo_spaces = KeyExpr::parse(" KEY_A + KEY_B ");
    assert_eq!(
        combo_spaces,
        KeyExpr::Combo(vec!["KEY_A".to_string(), "KEY_B".to_string()])
    );

    // Test sequence with spaces
    let sequence_spaces = KeyExpr::parse(" KEY_A , KEY_B , KEY_C ");
    assert_eq!(
        sequence_spaces,
        KeyExpr::Sequence(vec![
            "KEY_A".to_string(),
            "KEY_B".to_string(),
            "KEY_C".to_string()
        ])
    );
}

#[test]
fn test_keyexpr_to_string() {
    // Test single key
    let single = KeyExpr::Single("KEY_A".to_string());
    assert_eq!(single.to_string(), "KEY_A");

    // Test combo
    let combo = KeyExpr::Combo(vec!["KEY_A".to_string(), "KEY_B".to_string()]);
    assert_eq!(combo.to_string(), "KEY_A+KEY_B");

    // Test sequence
    let sequence = KeyExpr::Sequence(vec![
        "KEY_A".to_string(),
        "KEY_B".to_string(),
        "KEY_C".to_string(),
    ]);
    assert_eq!(sequence.to_string(), "KEY_A,KEY_B,KEY_C");
}

fn press(key: &str) -> InputEvent {
    InputEvent::Keyboard(KeyboardEvent::KeyPress {
        key: key.to_string(),
    })
}

fn release(key: &str) -> InputEvent {
    InputEvent::Keyboard(KeyboardEvent::KeyRelease {
        key: key.to_string(),
    })
}

fn filter_with(remap: StringMap<KeyExpr>, remap_whitelist: bool) -> DeviceFilter {
    let mut device = StringMap::new();
    device.insert(
        "pad".to_string(),
        DeviceConfig {
            map_backend: "uinput".to_string(),
            device_type: "keyboard".to_string(),
            remap,
            remap_whitelist,
        },
    );
    DeviceFilter::new(&AppConfig { device })
}

fn packet_of(events: Vec<InputEvent>) -> InputEventPacket {
    InputEventPacket {
        device_id: "pad".to_string(),
        timestamp: 7,
        events,
    }
}

fn analog() -> InputEvent {
    InputEvent::Analog(AnalogEvent {
        axis: "ABS_X".to_string(),
        value: -3,
    })
}

#[test]
fn events_other_than_keys_pass_in_order() {
    let mut remap = StringMap::new();
    remap.insert("A".to_string(), KeyExpr::parse("X+Y"));
    let filter = filter_with(remap, true);
    let out = filter
        .transform_packet(packet_of(vec![
            analog(),
            press("A"),
            press("B"),
            InputEvent::Other(vec![1, 2, 3]),
        ]))
        .unwrap();
    assert_eq!(
        out,
        packet_of(vec![
            analog(),
            press("X"),
            press("Y"),
            InputEvent::Other(vec![1, 2, 3]),
        ])
    );
}

#[test]
fn releases_expand_like_presses() {
    let mut remap = StringMap::new();
    remap.insert("A".to_string(), KeyExpr::parse("X,Y"));
    let filter = filter_with(remap, false);
    let out = filter
        .transform_packet(packet_of(vec![release("A"), release("B")]))
        .unwrap();
    assert_eq!(out.events, vec![release("X"), release("Y"), release("B")]);
    assert_eq!(out.device_id, "pad");
    assert_eq!(out.timestamp, 7);
}

#[test]
fn expansion_of_one_event() {
    let mut remap = StringMap::new();
    remap.insert("A".to_string(), KeyExpr::Combo(vec![]));
    let config = DeviceConfig {
        remap,
        ..Default::default()
    };
    let filter = filter_with(StringMap::new(), false);
    assert_eq!(filter.expand_event(press("A"), &config).unwrap(), vec![]);
    assert_eq!(
        filter.expand_event(press("B"), &config).unwrap(),
        vec![press("B")]
    );
}

#[test]
fn nothing_remapped_changes_nothing() {
    let filter = filter_with(StringMap::new(), false);
    let events = vec![press("A"), analog(), release("A")];
    let out = filter.transform_packet(packet_of(events.clone())).unwrap();
    assert_eq!(out.events, events);
}

#[test]
fn transforming_in_two_parts_gives_the_same() {
    let mut remap = StringMap::new();
    remap.insert("A".to_string(), KeyExpr::parse("X+Y+Z"));
    let filter = filter_with(remap, true);
    let first = vec![press("A"), press("B")];
    let second = vec![release("A"), analog()];
    let mut whole = first.clone();
    whole.extend(second.clone());
    let mut parts = filter.transform_packet(packet_of(first)).unwrap().events;
    parts.extend(filter.transform_packet(packet_of(second)).unwrap().events);
    assert_eq!(
        filter.transform_packet(packet_of(whole)).unwrap().events,
        parts
    );
}

#[test]
fn a_copied_filter_has_the_same_rules() {
    let filter = filter_with(StringMap::new(), true);
    let copy = filter.clone();
    assert_eq!(copy.get_device_backend("pad"), Some("uinput"));
    assert_eq!(copy.get_device_type("pad"), Some("keyboard"));
    assert_eq!(copy.get_device_backend("other"), None);
    assert_eq!(copy.get_device_type("other"), None);
    assert!(copy
        .transform_packet(packet_of(vec![press("A")]))
        .unwrap()
        .events
        .is_empty());
}

#[test]
fn parsing_of_unusual_texts() {
    assert_eq!(KeyExpr::parse(""), KeyExpr::Single("".to_string()));
    assert_eq!(KeyExpr::parse("\u{3000}A\n"), KeyExpr::Single("A".to_string()));
    assert_eq!(
        KeyExpr::parse("+"),
        KeyExpr::Combo(vec!["".to_string(), "".to_string()])
    );
    assert_eq!(
        KeyExpr::parse("A+B,C"),
        KeyExpr::Sequence(vec!["A+B".to_string(), "C".to_string()])
    );
    assert_eq!(
        KeyExpr::parse(" \u{e9} , \u{4e2d} \u{6587},"),
        KeyExpr::Sequence(vec![
            "\u{e9}".to_string(),
            "\u{4e2d} \u{6587}".to_string(),
            "".to_string()
        ])
    );
}

#[test]
fn writing_and_parsing_again_is_stable() {
    for text in [
        "KEY_A", "", " ", "+", ",", " A + B ", "A,B+C, D", ",,", "++", "A B", "\tA\t+",
    ] {
        let once = KeyExpr::parse(text);
        assert_eq!(KeyExpr::parse(&once.to_string()), once);
    }
}

#[test]
fn texts_that_denote_something_else() {
    let one = KeyExpr::Combo(vec!["A".to_string()]);
    assert_eq!(
        KeyExpr::parse(&one.to_string()),
        KeyExpr::Single("A".to_string())
    );
    let comma = KeyExpr::Single("A,B".to_string());
    assert_ne!(KeyExpr::parse(&comma.to_string()), comma);
    let plus = KeyExpr::Sequence(vec!["A+B".to_string(), "C".to_string()]);
    assert_eq!(KeyExpr::parse(&plus.to_string()), plus);
}

#[test]
fn texts_of_short_lists() {
    assert_eq!(KeyExpr::Combo(vec![]).to_string(), "");
    assert_eq!(KeyExpr::Sequence(vec!["A".to_string()]).to_string(), "A");
}

#[test]
fn prefixes_are_exact() {
    assert!(DeviceFilter::is_standard_evdev_key("KEY_"));
    assert!(!DeviceFilter::is_standard_evdev_key("KEY"));
    assert!(!DeviceFilter::is_standard_evdev_key("key_A"));
    assert!(!DeviceFilter::is_standard_evdev_key(" KEY_A"));
    assert!(!DeviceFilter::is_standard_evdev_key(""));
}
