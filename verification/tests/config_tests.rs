use xuzzel::config::{parse_color_value, parse_hex_color, parse_match_fields, Config, MatchField, MatchMode};

#[test]
fn color_parser_supports_rgb_and_rgba() {
    assert_eq!(parse_hex_color("112233").unwrap(), 0x00112233);
    assert_eq!(parse_hex_color("11223344").unwrap(), 0x00112233);
}

#[test]
fn color_parser_rejects_invalid_lengths() {
    assert!(parse_hex_color("12345").is_err());
}

#[test]
fn color_parser_reports_length_and_digit_errors() {
    assert_eq!(
        parse_hex_color("12345").unwrap_err(),
        "expected 6 or 8 hex digits for color, got 5"
    );
    assert_eq!(parse_hex_color("12345g").unwrap_err(), "invalid digit found in string");
    // Length is counted in bytes: three two-byte characters make six.
    assert_eq!(parse_hex_color("ééé").unwrap_err(), "invalid digit found in string");
    assert_eq!(parse_hex_color("+12345").unwrap(), 0x12345);
    assert_eq!(parse_hex_color("ABCDEF").unwrap(), 0xabcdef);
}

#[test]
fn color_value_strips_hash_and_spaces() {
    assert_eq!(parse_color_value("  #112233 ").unwrap(), 0x112233);
    assert_eq!(parse_color_value("##fdf6e3ff").unwrap(), 0xfdf6e3);
    assert!(parse_color_value("#12").is_err());
}

#[test]
fn match_fields_parse_names_in_order() {
    assert_eq!(
        parse_match_fields("name,exec,keywords").unwrap(),
        vec![MatchField::Name, MatchField::Exec, MatchField::Keywords]
    );
    assert_eq!(
        parse_match_fields(" filename , ,comment,").unwrap(),
        vec![MatchField::Filename, MatchField::Comment]
    );
    assert_eq!(parse_match_fields("name,bogus,exec").unwrap_err(), "unknown field 'bogus'");
    assert_eq!(parse_match_fields("").unwrap(), Vec::<MatchField>::new());
}

#[test]
fn default_config_matches_documented_values() {
    let config = Config::default();
    assert_eq!(config.prompt, "> ");
    assert_eq!(config.lines, 15);
    assert_eq!(config.fields, vec![MatchField::Filename, MatchField::Name, MatchField::Generic]);
    assert_eq!(config.match_mode, MatchMode::Fzf);
    assert_eq!(config.terminal_command, "xterm -e {cmd}");
    assert_eq!(config.colors.background, 0x00fdf6e3);
    assert_eq!(config.border.width, 1);
    assert_eq!(config.border.radius, 10);
}

#[test]
fn alpha_digits_are_dropped() {
    for hex in ["00000000", "ffffffff", "1a2B3c4D", "deadbeef"] {
        assert_eq!(parse_hex_color(hex), parse_hex_color(&hex[..6]));
    }
}
