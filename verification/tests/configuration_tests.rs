use bins::configuration::{
    config_parse_error, config_paths, parse_config_text, size_parts, BetterLookups, BinsConfiguration, ConfigValue,
    DEFAULT_CONFIG_FILE,
};
use bins::configuration::parse_usize;

fn parse_usize_str(t: &str) -> Option<usize> {
    parse_usize(&t.chars().collect())
}

fn table(entries: Vec<(&str, ConfigValue)>) -> ConfigValue {
    ConfigValue::Table(entries.into_iter().map(|(k, v)| (k.to_string(), v)).collect())
}

fn s(x: &str) -> ConfigValue {
    ConfigValue::Str(x.to_string())
}

fn sample() -> BinsConfiguration {
    BinsConfiguration::from_value(table(vec![
        (
            "general",
            table(vec![
                ("file_size_limit", s("1.5 MiB")),
                ("disallowed_file_patterns", ConfigValue::Array(vec![s("*.key"), s("*.pem")])),
                ("disallowed_file_types", ConfigValue::Array(vec![s("PEM RSA Private Key"), s("ELF")])),
            ]),
        ),
        ("defaults", table(vec![("private", ConfigValue::Boolean(false)), ("service", s("sprunge"))])),
        ("gist", table(vec![("username", s("me")), ("access_token", s("tok"))])),
        ("pastebin", table(vec![("api_key", s("key"))])),
        ("hastebin", table(vec![("server", s("http://paste.example"))])),
        ("bitbucket", table(vec![("username", s("bb")), ("app_password", ConfigValue::Integer(3))])),
    ]))
}

#[test]
fn getters_read_the_document() {
    let c = sample();
    assert!(!c.get_defaults_private());
    assert!(c.get_defaults_auth());
    assert!(!c.get_defaults_copy());
    assert_eq!(c.get_defaults_bin(), Some("sprunge"));
    assert_eq!(c.get_gist_username(), Some("me"));
    assert_eq!(c.get_gist_access_token(), Some("tok"));
    assert_eq!(c.get_pastebin_api_key(), Some("key"));
    assert_eq!(c.get_hastebin_server(), Some("http://paste.example"));
    assert_eq!(c.get_bitbucket_username(), Some("bb"));
    assert_eq!(c.get_bitbucket_app_password(), None);
    assert_eq!(c.get_general_disallowed_file_patterns().map(|a| a.len()), Some(2));
}

#[test]
fn disallowed_types_are_lowercased() {
    let c = sample();
    assert_eq!(
        c.get_general_disallowed_file_types(),
        Some(vec!["pem rsa private key".to_string(), "elf".to_string()])
    );
    let bad = BinsConfiguration::from_value(table(vec![(
        "general",
        table(vec![("disallowed_file_types", ConfigValue::Array(vec![s("a"), ConfigValue::Float]))]),
    )]));
    assert_eq!(bad.get_general_disallowed_file_types(), None);
}

#[test]
fn defaults_bin_prefers_bin_over_service() {
    let c = BinsConfiguration::from_value(table(vec![(
        "defaults",
        table(vec![("bin", s("gist")), ("service", s("sprunge"))]),
    )]));
    assert_eq!(c.get_defaults_bin(), Some("gist"));
    let empty = BinsConfiguration::from_value(table(Vec::new()));
    assert_eq!(empty.get_defaults_bin(), None);
    assert!(empty.get_defaults_private());
    assert!(empty.get_general_file_size_limit().is_none());
}

#[test]
fn lookups_follow_tables_and_arrays() {
    let root = sample().root;
    assert_eq!(root.lookup_str("general.disallowed_file_patterns.1"), Some("*.pem"));
    assert_eq!(root.lookup_str("general.disallowed_file_patterns.0"), Some("*.key"));
    assert_eq!(root.lookup_str("general.disallowed_file_patterns.2"), None);
    assert_eq!(root.lookup_str("general.\"file_size_limit\""), Some("1.5 MiB"));
    assert_eq!(root.lookup_str_or("gist.nothing", "fallback"), "fallback");
    assert_eq!(root.lookup_bool("defaults.private"), Some(false));
    assert_eq!(root.lookup_bool("defaults.service"), None);
    assert!(root.lookup_bool_or("defaults.nothing", true));
    assert!(root.lookup("").is_some());
}

#[test]
fn size_limit_is_split_into_number_and_unit() {
    let p = sample().get_general_file_size_limit().unwrap();
    assert_eq!(p.number, "1.5");
    assert_eq!(p.unit, "mib");
    assert_eq!(p.multiplier().unwrap(), 1048576);
    let q = size_parts(" 10 kB ");
    assert_eq!(q.number, "10");
    assert_eq!(q.multiplier().unwrap(), 1000);
    assert_eq!(size_parts("42").multiplier().unwrap(), 1);
    assert_eq!(size_parts("3GiB").multiplier().unwrap(), 1073741824);
    assert_eq!(size_parts("2gb").multiplier().unwrap(), 1000000000);
    assert_eq!(size_parts("2b").multiplier().unwrap(), 1);
    assert_eq!(size_parts("2 Kib").multiplier().unwrap(), 1024);
    assert_eq!(size_parts("2MB").multiplier().unwrap(), 1000000);
}

#[test]
fn unknown_unit_is_an_error() {
    match size_parts("5 bk").multiplier() {
        Err(e) => assert_eq!(e.message(), "invalid unit for max file size: \"bk\""),
        Ok(_) => panic!("expected an error"),
    }
}

#[test]
fn config_paths_in_priority_order() {
    assert_eq!(
        config_paths(Some("/etc/xdg"), Some("/home/u")),
        vec!["/etc/xdg/bins.cfg", "/home/u/.config/bins.cfg", "/home/u/.bins.cfg"]
    );
    assert_eq!(config_paths(None, Some("/root/")), vec!["/root/.config/bins.cfg", "/root/.bins.cfg"]);
    assert_eq!(config_paths(Some(""), None), vec!["bins.cfg"]);
    assert!(config_paths(None, None).is_empty());
}

#[test]
fn parse_error_message_lists_errors() {
    let e = config_parse_error(&vec!["bad key".to_string(), "bad value".to_string()]);
    assert_eq!(
        e.message(),
        "could not parse config (try making a backup and deleting it)\n\nbad key\nbad value"
    );
}

#[test]
fn default_config_has_all_sections() {
    for section in ["[general]", "[defaults]", "[gist]", "[pastebin]", "[hastebin]", "[bitbucket]"] {
        assert!(DEFAULT_CONFIG_FILE.contains(section));
    }
    assert!(DEFAULT_CONFIG_FILE.contains("private = true"));
}

#[test]
fn usize_text_is_read_like_parse() {
    assert_eq!(parse_usize_str("12"), Some(12));
    assert_eq!(parse_usize_str("+7"), Some(7));
    assert_eq!(parse_usize_str("+"), None);
    assert_eq!(parse_usize_str(""), None);
    assert_eq!(parse_usize_str("1x"), None);
    assert_eq!(parse_usize_str("99999999999999999999999"), None);
}

#[test]
fn configuration_text_is_parsed_into_settings() {
    let c = parse_config_text("[defaults]\nprivate = false\nbin = \"gist\"\n\n[gist]\nusername = \"me\"\n").unwrap();
    assert!(!c.get_defaults_private());
    assert!(c.get_defaults_auth());
    assert!(!c.get_defaults_copy());
    assert_eq!(c.get_defaults_bin(), Some("gist"));
    assert_eq!(c.get_gist_username(), Some("me"));
    assert_eq!(c.get_gist_access_token(), None);
}

#[test]
fn default_configuration_text_parses() {
    let c = parse_config_text(DEFAULT_CONFIG_FILE).unwrap();
    assert!(c.get_defaults_private());
    assert!(c.get_defaults_auth());
    assert!(!c.get_defaults_copy());
    assert_eq!(c.get_pastebin_api_key(), Some(""));
    assert_eq!(c.get_hastebin_server(), None);
    assert!(c.get_general_file_size_limit().is_none());
}

#[test]
fn configuration_text_that_does_not_parse_gives_advice() {
    match parse_config_text("[defaults\nprivate = ") {
        Err(e) => assert!(e
            .message()
            .starts_with("could not parse config (try making a backup and deleting it)\n\n")),
        Ok(_) => panic!("expected a parse error"),
    }
}

#[test]
fn size_units_ignore_letter_case() {
    for t in ["1kib", "1KIB", "1KiB"] {
        let p = size_parts(t);
        assert_eq!(p.unit, "kib");
        assert_eq!(p.multiplier().unwrap(), 1024);
    }
}
