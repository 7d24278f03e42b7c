use taker_config::config::{choose_source, default_file_text, ConfigSource};
use taker_config::document::lookup;
use taker_config::field::{parse_bounded, resolve_field};
use taker_config::TakerConfig;

fn with_newline(contents: &str) -> String {
    format!("{}\n", contents)
}

#[test]
fn test_valid_config() {
    let contents = r#"
        [taker_config]
        refund_locktime = 48
        refund_locktime_step = 48
        first_connect_attempts = 5
        first_connect_sleep_delay_sec = 1
        first_connect_attempt_timeout_sec = 20
        reconnect_attempts = 3200
        reconnect_short_sleep_delay = 10
        reconnect_long_sleep_delay = 60
        short_long_sleep_delay_transition = 60
        reconnect_attempt_timeout_sec = 300
        "#;
    let config = TakerConfig::new(&with_newline(contents));
    let default_config = TakerConfig::default();
    assert_eq!(config, default_config);
}

#[test]
fn test_missing_fields() {
    let contents = r#"
            [taker_config]
            refund_locktime = 48
        "#;
    let config = TakerConfig::new(&with_newline(contents));
    assert_eq!(config.refund_locktime, 48);
    assert_eq!(config, TakerConfig::default());
}

#[test]
fn test_incorrect_data_type() {
    let contents = r#"
            [taker_config]
            refund_locktime = "not_a_number"
        "#;
    let config = TakerConfig::new(&with_newline(contents));
    assert_eq!(config, TakerConfig::default());
}

#[test]
fn test_different_data() {
    let contents = r#"
            [taker_config]
            refund_locktime = 49
        "#;
    let config = TakerConfig::new(&with_newline(contents));
    assert_eq!(config.refund_locktime, 49);
    assert_eq!(
        TakerConfig {
            refund_locktime: 48,
            ..config
        },
        TakerConfig::default()
    )
}

#[test]
fn test_missing_file() {
    // No file yet: the loader reads the file it has just written.
    let written = default_file_text();
    let config = TakerConfig::new(std::str::from_utf8(&written).unwrap());
    assert_eq!(config, TakerConfig::default());
}

#[test]
fn default_file_text_is_canonical() {
    let expected = "[taker_config]\n\
                    refund_locktime = 48\n\
                    refund_locktime_step = 48\n\
                    first_connect_attempts = 5\n\
                    first_connect_sleep_delay_sec = 1\n\
                    first_connect_attempt_timeout_sec = 20\n\
                    reconnect_attempts = 3200\n\
                    reconnect_short_sleep_delay = 10\n\
                    reconnect_long_sleep_delay = 60\n\
                    short_long_sleep_delay_transition = 60\n\
                    reconnect_attempt_timeout_sec = 300\n";
    assert_eq!(default_file_text(), expected.as_bytes().to_vec());
}

#[test]
fn file_text_round_trip() {
    let config = TakerConfig {
        refund_locktime: 65535,
        refund_locktime_step: 0,
        first_connect_attempts: 4294967295,
        first_connect_sleep_delay_sec: 18446744073709551615,
        first_connect_attempt_timeout_sec: 7,
        reconnect_attempts: 12,
        reconnect_short_sleep_delay: 100,
        reconnect_long_sleep_delay: 1000,
        short_long_sleep_delay_transition: 9,
        reconnect_attempt_timeout_sec: 10,
    };
    let text = config.to_file_text();
    assert_eq!(TakerConfig::new(std::str::from_utf8(&text).unwrap()), config);
}

#[test]
fn second_load_keeps_user_edits() {
    let mut text = default_file_text();
    text.extend_from_slice(b"reconnect_attempts = 7\n");
    let config = TakerConfig::new(std::str::from_utf8(&text).unwrap());
    assert_eq!(config.reconnect_attempts, 7);
    assert_eq!(
        TakerConfig {
            reconnect_attempts: 3200,
            ..config
        },
        TakerConfig::default()
    );
}

#[test]
fn partial_section_keeps_given_fields() {
    let contents = "[taker_config]\nfirst_connect_attempts = 9\nreconnect_long_sleep_delay = 120\n";
    let config = TakerConfig::new(contents);
    let expected = TakerConfig {
        first_connect_attempts: 9,
        reconnect_long_sleep_delay: 120,
        ..TakerConfig::default()
    };
    assert_eq!(config, expected);
}

#[test]
fn missing_section_gives_defaults() {
    let config = TakerConfig::new("[maker_config]\nrefund_locktime = 20\n");
    assert_eq!(config, TakerConfig::default());
    assert_eq!(TakerConfig::new(""), TakerConfig::default());
    assert_eq!(TakerConfig::new("refund_locktime = 20\n"), TakerConfig::default());
}

#[test]
fn out_of_range_value_falls_back() {
    let config = TakerConfig::new("[taker_config]\nrefund_locktime = 65536\nreconnect_attempts = -1\n");
    assert_eq!(config, TakerConfig::default());
    let config = TakerConfig::new("[taker_config]\nrefund_locktime = 65535\n");
    assert_eq!(config.refund_locktime, 65535);
}

#[test]
fn comments_and_other_sections_are_ignored() {
    let contents = "# refund_locktime = 1\n[taker_config]\n# refund_locktime = 2\nrefund_locktime_step = 30\n[other]\nrefund_locktime = 3\n";
    let config = TakerConfig::new(contents);
    assert_eq!(config.refund_locktime, 48);
    assert_eq!(config.refund_locktime_step, 30);
}

#[test]
fn last_assignment_wins_and_reopened_section_restarts() {
    let config = TakerConfig::new("[taker_config]\nrefund_locktime = 50\nrefund_locktime = 51\n");
    assert_eq!(config.refund_locktime, 51);
    let config = TakerConfig::new("[taker_config]\nrefund_locktime = 50\n[taker_config]\nrefund_locktime_step = 51\n");
    assert_eq!(config.refund_locktime, 48);
    assert_eq!(config.refund_locktime_step, 51);
}

#[test]
fn crlf_lines_are_read() {
    let config = TakerConfig::new("[taker_config]\r\nrefund_locktime = 60\r\n");
    assert_eq!(config.refund_locktime, 60);
}

#[test]
fn lookup_trims_key_and_value() {
    let doc = b"[ s ]\n[s]\n  k  =  v w  \nk2=x=y\n";
    assert_eq!(lookup(doc, b"s", b"k"), Some(b"v w".to_vec()));
    assert_eq!(lookup(doc, b"s", b"k2"), Some(b"x=y".to_vec()));
    assert_eq!(lookup(doc, b"s", b"k3"), None);
    assert_eq!(lookup(doc, b" s ", b"k"), None);
}

#[test]
fn parse_bounded_cases() {
    assert_eq!(parse_bounded(b"300", 65535), Some(300));
    assert_eq!(parse_bounded(b"+49", 65535), Some(49));
    assert_eq!(parse_bounded(b"007", 65535), Some(7));
    assert_eq!(parse_bounded(b"65536", 65535), None);
    assert_eq!(parse_bounded(b"18446744073709551615", u64::MAX), Some(u64::MAX));
    assert_eq!(parse_bounded(b"18446744073709551616", u64::MAX), None);
    assert_eq!(parse_bounded(b"", 65535), None);
    assert_eq!(parse_bounded(b"+", 65535), None);
    assert_eq!(parse_bounded(b"-1", 65535), None);
    assert_eq!(parse_bounded(b"1 2", 65535), None);
    assert_eq!(parse_bounded(b"\"48\"", 65535), None);
}

#[test]
fn resolve_field_cases() {
    assert_eq!(resolve_field(None, 5, 100), 5);
    assert_eq!(resolve_field(Some(b"abc"), 5, 100), 5);
    assert_eq!(resolve_field(Some(b"101"), 5, 100), 5);
    assert_eq!(resolve_field(Some(b"100"), 5, 100), 100);
}

#[test]
fn source_choice() {
    assert_eq!(choose_source(true, true), ConfigSource::Explicit);
    assert_eq!(choose_source(true, false), ConfigSource::Explicit);
    assert_eq!(choose_source(false, true), ConfigSource::WorkingDir);
    assert_eq!(choose_source(false, false), ConfigSource::ConfigDir);
}
