use punto_rs::config::{assign_bool, assign_combo, assign_number, Config};

/// The configuration file as shipped: every setting at its default value.
const SHIPPED: &str = "# punto-rs — layout correction of typed text
#
# Combinations are written as key names or scan codes joined with '+'.
hotkey = insert
phrase-hotkey = super+insert
pause-hotkey = super+pause
layout-switch = super+space

# Delays in milliseconds.
key-delay = 6
post-backspace-delay = 20
switch-delay = 120
buffer-timeout = 30000

max-strokes = 512
track-mouse = yes
session-guard = yes
# devices = \"AT Translated Set 2 keyboard\"
";

#[test]
fn shipped_config_matches_defaults() {
    let cfg = Config::parse(SHIPPED).unwrap();
    assert_eq!(cfg.hotkey, Config::default().hotkey);
    assert_eq!(cfg.pause_hotkey, Config::default().pause_hotkey);
    assert!(cfg.session_guard);
}

#[test]
fn parses_names_numbers_comments_and_devices() {
    let cfg = Config::parse("hotkey=119 # Pause\nlayout-switch=29+42\ndevices=\"Keyboard A, Keyboard B\"\ntrack-mouse=no\nswitch-delay=200\n").unwrap();
    assert_eq!(cfg.hotkey, vec![119]);
    assert_eq!(cfg.layout_switch, vec![29, 42]);
    assert_eq!(cfg.devices, vec!["Keyboard A", "Keyboard B"]);
    assert!(!cfg.track_mouse);
    assert_eq!(cfg.switch_delay_ms, 200);
}

#[test]
fn rejects_invalid_and_ambiguous_config() {
    for text in [
        "hotkey=hyperkey",
        "hotkey=0",
        "layout-switch=65535",
        "hotkey=256",
        "hotkey=super+super+insert",
        "hotkey=",
        "hotkey=insert+super",
        "hotkey=super+insert",
        "phrase-hotkey=super+pause",
        "layout-switch=insert",
        "hotkey=insert\nhotkey=pause",
        "unknown=1",
        "missing equals",
        "key-delay=0",
        "key-delay=101",
        "switch-delay=2001",
        "max-strokes=0",
        "max-strokes=4097",
        "buffer-timeout=999",
        "session-guard=maybe",
    ] {
        assert!(Config::parse(text).is_err(), "accepted {text:?}");
    }
}

#[test]
fn accepts_bounds_and_modifier_only_switch() {
    Config::parse("key-delay=1\npost-backspace-delay=0\nswitch-delay=2000\nmax-strokes=4096\nbuffer-timeout=300000\nlayout-switch=ctrl+shift").unwrap();
}

#[test]
fn empty_text_gives_defaults() {
    let cfg = Config::parse("").unwrap();
    let d = Config::default();
    assert_eq!(cfg.hotkey, d.hotkey);
    assert_eq!(cfg.phrase_hotkey, d.phrase_hotkey);
    assert_eq!(cfg.layout_switch, d.layout_switch);
    assert_eq!(cfg.key_delay_ms, 6);
    assert_eq!(cfg.post_backspace_ms, 20);
    assert_eq!(cfg.switch_delay_ms, 120);
    assert_eq!(cfg.max_strokes, 512);
    assert_eq!(cfg.buffer_timeout_ms, 30_000);
    assert!(cfg.devices.is_empty());
}

#[test]
fn reports_every_error_with_its_line() {
    let err = Config::parse("# comment\nmissing equals\n\nunknown=1\nkey-delay=0\nkey-delay=5").unwrap_err();
    assert_eq!(
        err,
        "строка 2: нет '='\nстрока 4: неизвестный ключ 'unknown'\nстрока 5: недопустимое значение '0' для 'key-delay'\nстрока 6: повтор ключа 'key-delay'"
    );
}

#[test]
fn reports_equal_combinations_and_non_modifier_prefix() {
    assert_eq!(
        Config::parse("hotkey=super+insert").unwrap_err(),
        "'phrase-hotkey' и 'hotkey' совпадают"
    );
    assert_eq!(
        Config::parse("hotkey=insert+super").unwrap_err(),
        "'hotkey': перед последней клавишей допустимы только модификаторы\n'phrase-hotkey' и 'hotkey' совпадают"
    );
    assert_eq!(
        Config::parse("hotkey=30+110").unwrap_err(),
        "'hotkey': перед последней клавишей допустимы только модификаторы"
    );
}

#[test]
fn quotes_case_and_plus_sign_in_values() {
    let cfg = Config::parse("track-mouse = \" OFF \"\nsession-guard=True\nmax-strokes=+64\ndevices=\" , A ,,B \"").unwrap();
    assert!(!cfg.track_mouse);
    assert!(cfg.session_guard);
    assert_eq!(cfg.max_strokes, 64);
    assert_eq!(cfg.devices, vec!["A", "B"]);
}

#[test]
fn crlf_lines_are_accepted() {
    let cfg = Config::parse("hotkey=119\r\nkey-delay=7\r\n").unwrap();
    assert_eq!(cfg.hotkey, vec![119]);
    assert_eq!(cfg.key_delay_ms, 7);
}

#[test]
fn assign_helpers_set_only_valid_values() {
    let chars = |s: &str| s.chars().collect::<Vec<char>>();
    let mut n = 7u64;
    assert!(!assign_number(&chars("101"), &mut n, 1, 100));
    assert_eq!(n, 7);
    assert!(assign_number(&chars("+42"), &mut n, 1, 100));
    assert_eq!(n, 42);
    let mut b = true;
    assert!(!assign_bool(&chars("maybe"), &mut b));
    assert!(b);
    assert!(assign_bool(&chars("NO"), &mut b));
    assert!(!b);
    let mut combo = vec![110u16];
    assert!(!assign_combo(&chars("insert+insert"), &mut combo));
    assert_eq!(combo, vec![110]);
    assert!(assign_combo(&chars("125 + 57"), &mut combo));
    assert_eq!(combo, vec![125, 57]);
}

#[test]
fn settings_left_out_keep_their_defaults() {
    let cfg = Config::parse("# only the delay\nkey-delay = 9\n").unwrap();
    let d = Config::default();
    assert_eq!(cfg.key_delay_ms, 9);
    assert_eq!(cfg.hotkey, d.hotkey);
    assert_eq!(cfg.phrase_hotkey, d.phrase_hotkey);
    assert_eq!(cfg.layout_switch, d.layout_switch);
    assert_eq!(cfg.switch_delay_ms, d.switch_delay_ms);
    assert_eq!(cfg.max_strokes, d.max_strokes);
    assert_eq!(cfg.devices, d.devices);
}
