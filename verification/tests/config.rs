use ironland_copositor::config::{
    default_shortcuts, known_actions, parse_binding, placement_fits, resolve_output_position, Config, HeldModifiers,
    KeyModifiers, KeyboardSettings, OutputPosition, OutputSettings, RawConfig, key_lookup, BindingRequest,
    Keybinding, resolve_keybindings, KeyLookup, config_step, ConfigFile, ConfigStep,
};
use ironland_copositor::geometry::{Point, Rect, Size};

fn size(w: i32, h: i32) -> Size {
    Size { w, h }
}

fn rect(x: i32, y: i32, w: i32, h: i32) -> Rect {
    Rect::new(x, y, w, h)
}

fn point(x: i32, y: i32) -> Point {
    Point { x, y }
}

fn shortcut_keys(config: &Config, action: &str) -> Vec<String> {
    config.shortcuts.iter().find(|(a, _)| a == action).map(|(_, k)| k.clone()).unwrap()
}

#[test]
fn rejects_unknown_modifier() {
    assert!(parse_binding("hyper+q").is_none());
}

#[test]
fn every_default_shortcut_parses() {
    for (action, specs) in default_shortcuts() {
        for spec in specs {
            assert!(parse_binding(&spec).is_some(), "default binding {action}={spec} failed to parse");
        }
    }
}

#[test]
fn partial_shortcuts_override_only_the_named_action() {
    let raw = RawConfig {
        keyboard: KeyboardSettings::default(),
        terminal: None,
        top_bar: false,
        shortcuts: vec![("quit".to_string(), vec!["ctrl+alt+q".to_string()])],
        outputs: Vec::new(),
    };

    let merged = Config::from_raw(raw);

    assert_eq!(shortcut_keys(&merged, "quit"), vec!["ctrl+alt+q"]);
    assert_eq!(shortcut_keys(&merged, "toggle_launcher"), vec!["super+space"]);
}

#[test]
fn auto_placement_stacks_to_the_right() {
    let settings = OutputSettings::default();
    let placed = [("eDP-1".to_string(), rect(0, 0, 1920, 1080))];
    let pos = resolve_output_position(&settings, "HDMI-A-1", size(1920, 1080), &placed);
    assert_eq!(pos, point(1920, 0));
}

#[test]
fn relative_positions_place_next_to_target() {
    let placed = [("eDP-1".to_string(), rect(0, 0, 1920, 1080))];

    let right = OutputSettings {
        position: Some(OutputPosition::RightOf { right_of: "eDP-1".to_string() }),
        ..Default::default()
    };
    assert_eq!(resolve_output_position(&right, "b", size(800, 600), &placed), point(1920, 0));

    let left = OutputSettings {
        position: Some(OutputPosition::LeftOf { left_of: "eDP-1".to_string() }),
        ..Default::default()
    };
    assert_eq!(resolve_output_position(&left, "b", size(800, 600), &placed), point(-800, 0));

    let above = OutputSettings {
        position: Some(OutputPosition::Above { above: "eDP-1".to_string() }),
        ..Default::default()
    };
    assert_eq!(resolve_output_position(&above, "b", size(800, 600), &placed), point(0, -600));

    let below = OutputSettings {
        position: Some(OutputPosition::Below { below: "eDP-1".to_string() }),
        ..Default::default()
    };
    assert_eq!(resolve_output_position(&below, "b", size(800, 600), &placed), point(0, 1080));
}

#[test]
fn mirror_of_takes_priority_over_position() {
    let placed = [("eDP-1".to_string(), rect(0, 0, 1920, 1080))];
    let settings = OutputSettings {
        mirror_of: Some("eDP-1".to_string()),
        position: Some(OutputPosition::RightOf { right_of: "eDP-1".to_string() }),
        ..Default::default()
    };
    assert_eq!(resolve_output_position(&settings, "HDMI-A-1", size(1920, 1080), &placed), point(0, 0));
}

#[test]
fn missing_reference_output_falls_back_to_auto_placement() {
    let placed = [("eDP-1".to_string(), rect(0, 0, 1920, 1080))];
    let settings = OutputSettings {
        position: Some(OutputPosition::RightOf { right_of: "not-connected".to_string() }),
        ..Default::default()
    };
    assert_eq!(resolve_output_position(&settings, "b", size(800, 600), &placed), point(1920, 0));
}

#[test]
fn absolute_position_and_missing_mirror_target() {
    let placed = [("eDP-1".to_string(), rect(0, 0, 1920, 1080))];
    let settings = OutputSettings {
        mirror_of: Some("gone".to_string()),
        position: Some(OutputPosition::Absolute { x: 100, y: 200 }),
        ..Default::default()
    };
    assert_eq!(resolve_output_position(&settings, "b", size(800, 600), &placed), point(100, 200));
}

#[test]
fn auto_placement_uses_the_largest_right_edge() {
    let placed = [
        ("a".to_string(), rect(0, 0, 1920, 1080)),
        ("b".to_string(), rect(3000, 0, 500, 500)),
        ("c".to_string(), rect(1920, 0, 800, 600)),
    ];
    let pos = resolve_output_position(&OutputSettings::default(), "d", size(10, 10), &placed);
    assert_eq!(pos, point(3500, 0));
    let none: [(String, Rect); 0] = [];
    assert_eq!(resolve_output_position(&OutputSettings::default(), "d", size(10, 10), &none), point(0, 0));
}

#[test]
fn parse_binding_reads_modifiers_and_key() {
    let (mods, key) = parse_binding("ctrl+q").unwrap();
    assert_eq!(mods, KeyModifiers { ctrl: true, ..Default::default() });
    assert_eq!(key.name, "q");
    assert!(!key.case_insensitive);

    let (mods, key) = parse_binding(" Control + SHIFT + m ").unwrap();
    assert!(mods.ctrl && mods.shift && !mods.alt && !mods.logo);
    assert_eq!(key.name, "M");

    let (mods, key) = parse_binding("ctrl+RETURN").unwrap();
    assert!(mods.ctrl);
    assert_eq!(key.name, "RETURN");
    assert!(key.case_insensitive);

    let (mods, key) = parse_binding("win+alt++backspace").unwrap();
    assert!(mods.logo && mods.alt);
    assert_eq!(key.name, "backspace");
}

#[test]
fn parse_binding_rejects_empty_specs() {
    assert!(parse_binding("").is_none());
    assert!(parse_binding(" + ").is_none());
}

#[test]
fn key_lookup_cases_single_letters_by_shift() {
    let k = key_lookup("Q", false);
    assert_eq!(k.name, "q");
    assert!(!k.case_insensitive);
    let k = key_lookup("q", true);
    assert_eq!(k.name, "Q");
    let k = key_lookup("F1", true);
    assert_eq!(k.name, "F1");
    assert!(k.case_insensitive);
}

#[test]
fn modifiers_match_ignoring_lock_keys() {
    let mods = KeyModifiers { ctrl: true, logo: true, ..Default::default() };
    let held = HeldModifiers { ctrl: true, logo: true, caps_lock: true, num_lock: true, ..Default::default() };
    assert!(mods.matches(&held));
    let held = HeldModifiers { ctrl: true, ..Default::default() };
    assert!(!mods.matches(&held));
}

#[test]
fn known_actions_match_the_default_table() {
    let names: Vec<String> = default_shortcuts().into_iter().map(|(a, _)| a).collect();
    let known: Vec<String> = known_actions().into_iter().map(String::from).collect();
    assert_eq!(names, known);
    assert_eq!(known.len(), 23);
}

#[test]
fn default_config_uses_builtin_values() {
    let config = Config::default();
    assert_eq!(config.terminal, "weston-terminal");
    assert!(!config.top_bar);
    assert!(config.outputs.is_empty());
    assert_eq!(shortcut_keys(&config, "quit"), vec!["super+alt+backspace", "super+q"]);
}

#[test]
fn from_raw_keeps_file_values() {
    let raw = RawConfig {
        keyboard: KeyboardSettings { layout: "de".to_string(), options: "caps:escape".to_string(), ..Default::default() },
        terminal: Some("foot".to_string()),
        top_bar: true,
        shortcuts: vec![
            ("custom".to_string(), vec!["super+z".to_string()]),
            ("quit".to_string(), vec![]),
        ],
        outputs: vec![
            ("DP-1".to_string(), OutputSettings { primary: false, ..Default::default() }),
            ("eDP-1".to_string(), OutputSettings { primary: true, ..Default::default() }),
        ],
    };
    let config = Config::from_raw(raw);
    assert_eq!(config.terminal, "foot");
    assert!(config.top_bar);
    assert_eq!(config.keyboard.layout, "de");
    assert_eq!(config.keyboard.xkb_options(), Some("caps:escape".to_string()));
    assert_eq!(KeyboardSettings::default().xkb_options(), None);
    assert!(shortcut_keys(&config, "quit").is_empty());
    assert_eq!(shortcut_keys(&config, "custom"), vec!["super+z"]);
    assert_eq!(config.shortcuts.len(), 24);
    assert_eq!(config.primary_output_name(), Some("eDP-1"));
    assert!(config.output_settings("eDP-1").primary);
    assert_eq!(config.output_settings("HDMI-A-1"), OutputSettings::default());
}

#[test]
fn parsed_keybindings_skip_unknown_actions_and_bad_specs() {
    let raw = RawConfig {
        keyboard: KeyboardSettings::default(),
        terminal: None,
        top_bar: false,
        shortcuts: vec![
            ("custom".to_string(), vec!["super+z".to_string()]),
            ("run_terminal".to_string(), vec!["hyper+t".to_string(), "super+Return".to_string()]),
        ],
        outputs: Vec::new(),
    };
    let config = Config::from_raw(raw);
    let requests = config.parsed_keybindings();
    assert!(requests.iter().all(|r| r.action != "custom"));
    let run: Vec<_> = requests.iter().filter(|r| r.action == "run_terminal").collect();
    assert_eq!(run.len(), 1);
    assert_eq!(run[0].key.name, "Return");
    assert!(run[0].modifiers.logo);
    let quit: Vec<_> = requests.iter().filter(|r| r.action == "quit").collect();
    assert_eq!(quit.len(), 2);
}

#[test]
fn keybinding_needs_a_found_keysym() {
    let request = BindingRequest {
        modifiers: KeyModifiers { logo: true, ..Default::default() },
        key: key_lookup("q", false),
        action: "quit".to_string(),
    };
    assert!(Keybinding::from_lookup(request.clone(), 0).is_none());
    let binding = Keybinding::from_lookup(request, 0x71).unwrap();
    assert_eq!(binding.keysym, 0x71);
    assert_eq!(binding.action, "quit");
}

#[test]
fn placement_fits_rejects_overflowing_positions() {
    let placed = [("eDP-1".to_string(), rect(i32::MAX - 10, 0, 100, 100))];
    assert!(!placement_fits(&OutputSettings::default(), size(10, 10), &placed));
    let right = OutputSettings {
        position: Some(OutputPosition::RightOf { right_of: "eDP-1".to_string() }),
        ..Default::default()
    };
    assert!(!placement_fits(&right, size(10, 10), &placed));
    let left = OutputSettings {
        position: Some(OutputPosition::LeftOf { left_of: "eDP-1".to_string() }),
        ..Default::default()
    };
    assert!(placement_fits(&left, size(10, 10), &placed));
    assert_eq!(resolve_output_position(&left, "b", size(10, 10), &placed), point(i32::MAX - 20, 0));
    let ok = [("eDP-1".to_string(), rect(0, 0, 1920, 1080))];
    assert!(placement_fits(&OutputSettings::default(), size(10, 10), &ok));
}

#[test]
fn resolving_keeps_found_keysyms_in_order() {
    let request = |key: &str, shift: bool, action: &str| BindingRequest {
        modifiers: KeyModifiers { logo: true, shift, ..Default::default() },
        key: key_lookup(key, shift),
        action: action.to_string(),
    };
    let requests = vec![
        request("q", false, "quit"),
        request("notarealkey", false, "kill_window"),
        request("m", true, "scale_down"),
    ];
    let bindings = resolve_keybindings(requests, &vec![0x71, 0, 0x4d]);
    assert_eq!(bindings.len(), 2);
    assert_eq!((bindings[0].keysym, bindings[0].action.as_str()), (0x71, "quit"));
    assert!(!bindings[0].modifiers.shift);
    assert_eq!((bindings[1].keysym, bindings[1].action.as_str()), (0x4d, "scale_down"));
    assert!(bindings[1].modifiers.shift && bindings[1].modifiers.logo);
    assert!(resolve_keybindings(Vec::new(), &Vec::new()).is_empty());
}

#[test]
fn known_action_names_are_distinct() {
    let known = known_actions();
    for i in 0..known.len() {
        for j in i + 1..known.len() {
            assert_ne!(known[i], known[j]);
        }
    }
}

#[test]
fn rejects_unknown_key() {
    // No keysym is named "notarealkey": the keysym table answers 0 for it.
    let (modifiers, key) = parse_binding("ctrl+notarealkey").unwrap();
    assert_eq!(key.name, "notarealkey");
    assert!(key.case_insensitive);
    let request = BindingRequest { modifiers, key, action: "quit".to_string() };
    assert!(resolve_keybindings(vec![request], &vec![0]).is_empty());
}

#[test]
fn keybindings_look_up_every_parsed_key() {
    let raw = RawConfig {
        keyboard: KeyboardSettings::default(),
        terminal: None,
        top_bar: false,
        shortcuts: vec![
            ("quit".to_string(), vec!["super+q".to_string(), "ctrl+notarealkey".to_string()]),
            ("custom".to_string(), vec!["super+z".to_string()]),
        ],
        outputs: Vec::new(),
    };
    let config = Config::from_raw(raw);
    let table = |key: &KeyLookup| match key.name.as_str() {
        "q" => 0x71,
        "M" => 0x4d,
        _ => 0,
    };
    let bindings = config.keybindings(table);
    let quit: Vec<_> = bindings.iter().filter(|b| b.action == "quit").collect();
    assert_eq!(quit.len(), 1);
    assert_eq!(quit[0].keysym, 0x71);
    assert!(quit[0].modifiers.logo);
    let scale_down: Vec<_> = bindings.iter().filter(|b| b.action == "scale_down").collect();
    assert_eq!(scale_down.len(), 1);
    assert_eq!(scale_down[0].keysym, 0x4d);
    assert!(bindings.iter().all(|b| b.action != "custom" && b.keysym != 0));
    assert_eq!(bindings.len(), 2);
}

#[test]
fn config_search_stops_at_the_first_readable_file() {
    assert!(matches!(config_step(ConfigFile::Missing), ConfigStep::TryNext));
    assert!(matches!(config_step(ConfigFile::Unreadable), ConfigStep::TryNext));
    match config_step(ConfigFile::Malformed) {
        ConfigStep::Use(c) => {
            assert_eq!(c.terminal, "weston-terminal");
            assert_eq!(c.shortcuts.len(), 23);
        },
        ConfigStep::TryNext => panic!("a malformed file ends the search"),
    }
    let raw = RawConfig {
        keyboard: KeyboardSettings::default(),
        terminal: Some("foot".to_string()),
        top_bar: true,
        shortcuts: Vec::new(),
        outputs: Vec::new(),
    };
    match config_step(ConfigFile::Read(raw)) {
        ConfigStep::Use(c) => {
            assert_eq!(c.terminal, "foot");
            assert!(c.top_bar);
        },
        ConfigStep::TryNext => panic!("a parsed file ends the search"),
    }
}
