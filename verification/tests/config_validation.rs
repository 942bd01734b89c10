use socketup::addr::SocketAddr;
use socketup::check::Mode;
use socketup::config::{
    default_timeout_ms, validate, validate_name, validate_timeout, CheckKind, ConfigError, RawCheck,
    RawConfig, RawDefaults,
};

fn tcp(targets: &[&str]) -> RawCheck {
    RawCheck::Tcp {
        timeout_ms: None,
        mode: None,
        targets: targets.iter().map(|t| t.to_string()).collect(),
    }
}

fn config(defaults: RawDefaults, checks: Vec<(&str, RawCheck)>) -> RawConfig {
    RawConfig::new(
        defaults,
        checks.into_iter().map(|(n, c)| (n.to_string(), c)).collect(),
    )
    .expect("names in order")
}

fn validation_message(r: Result<socketup::config::Config, ConfigError>) -> String {
    match r {
        Err(ConfigError::Validation(m)) => m,
        other => panic!("expected a validation error, got {:?}", other),
    }
}

#[test]
fn hostname_targets_return_validation_exit_code() {
    for target in ["localhost:8080", "example.com:80", "foo:1234"] {
        let raw = config(RawDefaults::default(), vec![("a", tcp(&[target]))]);
        let err = validate(raw).expect_err("must be refused");
        assert_eq!(err.exit_code(), 5);
    }
}

#[test]
fn invalid_check_name_and_timeout_return_validation_code() {
    let bad_name = config(RawDefaults::default(), vec![("Bad", tcp(&["127.0.0.1:8080"]))]);
    assert_eq!(validate(bad_name).expect_err("bad name").exit_code(), 5);

    let bad_timeout = config(
        RawDefaults { timeout_ms: 0, mode: Mode::All },
        vec![("ok", tcp(&["127.0.0.1:8080"]))],
    );
    assert_eq!(validate(bad_timeout).expect_err("bad timeout").exit_code(), 5);
}

#[test]
fn defaults_are_one_second_and_all() {
    let d = RawDefaults::default();
    assert_eq!(d.timeout_ms, 1000);
    assert_eq!(d.mode, Mode::All);
    assert_eq!(default_timeout_ms(), 1000);
    assert_eq!(Mode::default(), Mode::All);
}

#[test]
fn valid_config_keeps_checks_in_order_with_effective_settings() {
    let raw = config(
        RawDefaults { timeout_ms: 1500, mode: Mode::Any },
        vec![
            ("admin", tcp(&["127.0.0.1:9901"])),
            (
                "ingress",
                RawCheck::Tcp {
                    timeout_ms: Some(2000),
                    mode: Some(Mode::All),
                    targets: vec!["127.0.0.1:8080".to_string(), " :9901 ".to_string()],
                },
            ),
        ],
    );
    let cfg = validate(raw).expect("valid");
    assert_eq!(cfg.len(), 2);
    assert_eq!(cfg.checks[0].0, "admin");
    assert_eq!(cfg.checks[1].0, "ingress");
    match &cfg.get("admin").expect("admin").kind {
        CheckKind::Tcp { targets, timeout_ms, mode } => {
            assert_eq!(*timeout_ms, 1500);
            assert_eq!(*mode, Mode::Any);
            assert_eq!(targets, &vec![SocketAddr::V4 { octets: [127, 0, 0, 1], port: 9901 }]);
        }
    }
    match &cfg.get("ingress").expect("ingress").kind {
        CheckKind::Tcp { targets, timeout_ms, mode } => {
            assert_eq!(*timeout_ms, 2000);
            assert_eq!(*mode, Mode::All);
            assert_eq!(targets.len(), 2);
            assert_eq!(targets[1], SocketAddr::V4 { octets: [127, 0, 0, 1], port: 9901 });
        }
    }
    assert!(cfg.get("missing").is_none());
}

#[test]
fn empty_config_is_valid() {
    let cfg = validate(config(RawDefaults::default(), vec![])).expect("valid");
    assert_eq!(cfg.len(), 0);
}

#[test]
fn validation_messages_name_the_first_broken_rule() {
    assert_eq!(
        validation_message(validate(config(
            RawDefaults { timeout_ms: 60001, mode: Mode::All },
            vec![("Bad", tcp(&[]))]
        ))),
        "defaults.timeout_ms must be in 1..=60000"
    );
    assert_eq!(
        validation_message(validate(config(RawDefaults::default(), vec![("", tcp(&["1"]))]))),
        "check name cannot be empty"
    );
    let long = "a".repeat(65);
    assert_eq!(
        validation_message(validate(config(RawDefaults::default(), vec![(long.as_str(), tcp(&["1"]))]))),
        format!("check name '{long}' exceeds 64 chars")
    );
    assert_eq!(
        validation_message(validate(config(RawDefaults::default(), vec![("-a", tcp(&["1"]))]))),
        "check name '-a' must match [a-z0-9][a-z0-9-]*"
    );
    assert_eq!(
        validation_message(validate(config(RawDefaults::default(), vec![("a", tcp(&[]))]))),
        "check 'a' has no targets"
    );
    assert_eq!(
        validation_message(validate(config(
            RawDefaults::default(),
            vec![(
                "a",
                RawCheck::Tcp { timeout_ms: Some(0), mode: None, targets: vec!["1".to_string()] }
            )]
        ))),
        "checks.a.timeout_ms must be in 1..=60000"
    );
    assert_eq!(
        validation_message(validate(config(
            RawDefaults::default(),
            vec![("a", tcp(&["1", "localhost:80", "0"]))]
        ))),
        "checks.a.targets contains invalid target 'localhost:80': target must be numeric ip:port"
    );
    assert_eq!(
        validation_message(validate(config(
            RawDefaults::default(),
            vec![("a", tcp(&["1"])), ("b", tcp(&[":0"])), ("z", tcp(&[]))]
        ))),
        "checks.b.targets contains invalid target ':0': port must be > 0"
    );
}

#[test]
fn names_and_timeouts_are_checked_on_their_own() {
    assert!(validate_name("a-1-b").is_ok());
    assert!(validate_name("9").is_ok());
    assert!(validate_name(&"z".repeat(64)).is_ok());
    assert!(validate_name(&"z".repeat(65)).is_err());
    // 22 three-byte characters are 66 bytes: too long, though only 22 chars.
    assert_eq!(
        validate_name(&"é".repeat(33)).unwrap_err().message(),
        format!("config validation error: check name '{}' exceeds 64 chars", "é".repeat(33))
    );
    assert!(validate_name("aé").is_err());
    assert!(validate_name("a_b").is_err());
    assert!(validate_timeout(1, "f").is_ok());
    assert!(validate_timeout(60000, "f").is_ok());
    assert_eq!(
        validate_timeout(60001, "f").unwrap_err().message(),
        "config validation error: f must be in 1..=60000"
    );
}

#[test]
fn config_errors_map_to_exit_codes_and_messages() {
    let nr = ConfigError::NotReadable("x".to_string());
    let pe = ConfigError::Parse("y".to_string());
    let ve = ConfigError::Validation("z".to_string());
    assert_eq!(nr.exit_code(), 3);
    assert_eq!(pe.exit_code(), 4);
    assert_eq!(ve.exit_code(), 5);
    assert_eq!(nr.message(), "config not readable: x");
    assert_eq!(pe.message(), "config parse error: y");
    assert_eq!(ve.message(), "config validation error: z");
}

#[test]
fn config_text_must_be_yaml() {
    assert!(socketup::config::parse_config_text("checks:\n  a:\n    type: tcp\n").is_ok());
    assert!(socketup::config::parse_config_text("").is_ok());
    match socketup::config::parse_config_text("checks: [unclosed\n") {
        Err(ConfigError::Parse(m)) => assert!(!m.is_empty()),
        other => panic!("expected a parse error, got {:?}", other.map(|_| ())),
    }
    let err = socketup::config::parse_config_text("a: b: c").unwrap_err();
    assert_eq!(err.exit_code(), 4);
}

#[test]
fn config_text_yields_serde_yaml_document_and_message() {
    let good = "defaults:\n  timeout_ms: 5\nchecks:\n  a:\n    type: tcp\n    targets: [\"1\"]\n";
    assert_eq!(
        socketup::config::parse_config_text(good).expect("yaml"),
        serde_yaml::from_str::<serde_yaml::Value>(good).expect("yaml")
    );
    assert_ne!(
        socketup::config::parse_config_text(good).expect("yaml"),
        serde_yaml::from_str::<serde_yaml::Value>("").expect("yaml")
    );
    let bad = "checks: [unclosed\n";
    match socketup::config::parse_config_text(bad) {
        Err(ConfigError::Parse(m)) => assert_eq!(
            m,
            serde_yaml::from_str::<serde_yaml::Value>(bad).unwrap_err().to_string()
        ),
        other => panic!("expected a parse error, got {:?}", other.map(|_| ())),
    }
}

#[test]
fn raw_configs_have_distinct_names_in_order() {
    let d = RawDefaults::default();
    assert!(RawConfig::new(d, vec![("a".to_string(), tcp(&["1"])), ("b".to_string(), tcp(&["1"]))]).is_some());
    assert!(RawConfig::new(d, vec![("b".to_string(), tcp(&["1"])), ("a".to_string(), tcp(&["1"]))]).is_none());
    assert!(RawConfig::new(d, vec![("a".to_string(), tcp(&["1"])), ("a".to_string(), tcp(&["1"]))]).is_none());
    assert!(RawConfig::new(d, vec![]).is_some());
    assert!(socketup::config::name_less_str("C", "a"));
    assert!(socketup::config::name_less_str("a", "ab"));
    assert!(!socketup::config::name_less_str("ab", "a"));
    assert!(!socketup::config::name_less_str("a", "a"));
    assert!(socketup::config::name_less_str("z", "é"));
    let (defaults, checks) = RawConfig::new(d, vec![("a".to_string(), tcp(&["1"]))])
        .expect("in order")
        .into_parts();
    assert_eq!(defaults, d);
    assert_eq!(checks.len(), 1);
    assert_eq!(checks[0].0, "a");
}
