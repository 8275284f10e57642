use punto_rs::keys::{
    is_char, is_command_modifier, is_phrase_end, is_pointer_button, is_separator, is_shift,
    parse_combo,
};

#[test]
fn classifies_scan_codes() {
    assert!(is_char(2) && is_char(13) && is_char(30) && is_char(43) && is_char(53));
    assert!(!is_char(1) && !is_char(14) && !is_char(15) && !is_char(28) && !is_char(42));
    assert!(is_separator(57) && is_separator(15) && !is_separator(28));
    assert!(is_phrase_end(28) && is_phrase_end(96) && !is_phrase_end(57));
    assert!(is_shift(42) && is_shift(54) && !is_shift(29));
    for code in [29, 97, 56, 100, 125, 126] {
        assert!(is_command_modifier(code));
    }
    assert!(!is_command_modifier(42));
    assert!(is_pointer_button(0x110) && is_pointer_button(0x117) && !is_pointer_button(0x118));
}

#[test]
fn parses_numbers_and_names() {
    assert_eq!(parse_combo("125+57"), Some(vec![125, 57]));
    assert_eq!(parse_combo(" super + Space "), Some(vec![125, 57]));
    assert_eq!(parse_combo("CTRL+shift"), Some(vec![29, 42]));
    assert_eq!(parse_combo("pause"), Some(vec![119]));
    assert_eq!(parse_combo("insert"), Some(vec![110]));
}

#[test]
fn rejects_bad_combinations() {
    for text in ["", "+", "125+", "hyperkey", "0", "256", "65535", "70000", "super+super", "1.5"] {
        assert_eq!(parse_combo(text), None, "accepted {text:?}");
    }
}

#[test]
fn decimal_codes_joined_by_plus_parse_back() {
    for v in [vec![110u16], vec![125, 57], vec![1, 255, 29, 42]] {
        let text = v.iter().map(|c| c.to_string()).collect::<Vec<_>>().join("+");
        assert_eq!(punto_rs::keys::parse_combo(&text), Some(v));
    }
}
