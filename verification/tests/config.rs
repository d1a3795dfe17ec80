use webhook_listener::config::{
    parse_i64, parse_usize, CliArgs, Config, ConfigError, EnvVars, IntErrorKind,
};

fn args() -> CliArgs {
    CliArgs {
        bind: "127.0.0.1:8080".into(),
        db_path: "webhooks.db".into(),
    }
}

fn env(user: Option<&str>, password: Option<&str>, body: Option<&str>, retain: Option<&str>) -> EnvVars {
    EnvVars {
        dashboard_user: user.map(|s| s.to_string()),
        dashboard_password: password.map(|s| s.to_string()),
        body_limit_bytes: body.map(|s| s.to_string()),
        retain_per_endpoint: retain.map(|s| s.to_string()),
    }
}

#[test]
fn missing_user_is_error() {
    let err = Config::from_args_and_env(args(), env(None, Some("p"), None, None)).unwrap_err();
    match err {
        ConfigError::MissingEnv("WEBHOOK_DASHBOARD_USER") => {}
        other => panic!("unexpected: {other:?}"),
    }
}

#[test]
fn missing_password_is_error() {
    let err = Config::from_args_and_env(args(), env(Some("u"), None, None, None)).unwrap_err();
    match err {
        ConfigError::MissingEnv("WEBHOOK_DASHBOARD_PASSWORD") => {}
        other => panic!("unexpected: {other:?}"),
    }
}

#[test]
fn defaults_apply_when_only_credentials_set() {
    let cfg = Config::from_args_and_env(args(), env(Some("u"), Some("p"), None, None)).unwrap();
    assert_eq!(cfg.dashboard_user, "u");
    assert_eq!(cfg.dashboard_password, "p");
    assert_eq!(cfg.body_limit_bytes, 1_048_576);
    assert_eq!(cfg.retain_per_endpoint, 250);
}

#[test]
fn invalid_retain_zero_is_error() {
    let err = Config::from_args_and_env(args(), env(Some("u"), Some("p"), None, Some("0"))).unwrap_err();
    match err {
        ConfigError::InvalidEnv {
            var: "WEBHOOK_RETAIN_PER_ENDPOINT",
            ..
        } => {}
        other => panic!("unexpected: {other:?}"),
    }
}

#[test]
fn retain_below_one_reports_the_bound() {
    let err = Config::from_args_and_env(args(), env(Some("u"), Some("p"), None, Some("-3"))).unwrap_err();
    match err {
        ConfigError::InvalidEnv { var, message } => {
            assert_eq!(var, "WEBHOOK_RETAIN_PER_ENDPOINT");
            assert_eq!(message, "must be >= 1");
        }
        other => panic!("unexpected: {other:?}"),
    }
}

#[test]
fn empty_credentials_count_as_missing() {
    let err = Config::from_args_and_env(args(), env(Some(""), Some("p"), None, None)).unwrap_err();
    match err {
        ConfigError::MissingEnv("WEBHOOK_DASHBOARD_USER") => {}
        other => panic!("unexpected: {other:?}"),
    }
    let err = Config::from_args_and_env(args(), env(Some("u"), Some(""), None, None)).unwrap_err();
    match err {
        ConfigError::MissingEnv("WEBHOOK_DASHBOARD_PASSWORD") => {}
        other => panic!("unexpected: {other:?}"),
    }
}

#[test]
fn empty_optional_values_take_the_defaults() {
    let cfg = Config::from_args_and_env(args(), env(Some("u"), Some("p"), Some(""), Some(""))).unwrap();
    assert_eq!(cfg.body_limit_bytes, 1_048_576);
    assert_eq!(cfg.retain_per_endpoint, 250);
}

#[test]
fn explicit_values_are_used() {
    let cfg = Config::from_args_and_env(args(), env(Some("admin"), Some("secret"), Some("2048"), Some("+7"))).unwrap();
    assert_eq!(cfg.bind, "127.0.0.1:8080");
    assert_eq!(cfg.db_path, "webhooks.db");
    assert_eq!(cfg.body_limit_bytes, 2048);
    assert_eq!(cfg.retain_per_endpoint, 7);
}

#[test]
fn invalid_body_limit_reports_the_parse_error() {
    let err = Config::from_args_and_env(args(), env(Some("u"), Some("p"), Some("12kb"), None)).unwrap_err();
    match err {
        ConfigError::InvalidEnv { var, message } => {
            assert_eq!(var, "WEBHOOK_BODY_LIMIT_BYTES");
            assert_eq!(message, "invalid digit found in string");
        }
        other => panic!("unexpected: {other:?}"),
    }
    let err = Config::from_args_and_env(args(), env(Some("u"), Some("p"), Some("-1"), None)).unwrap_err();
    match err {
        ConfigError::InvalidEnv { var, message } => {
            assert_eq!(var, "WEBHOOK_BODY_LIMIT_BYTES");
            assert_eq!(message, "invalid digit found in string");
        }
        other => panic!("unexpected: {other:?}"),
    }
}

#[test]
fn invalid_retain_reports_the_parse_error() {
    let err = Config::from_args_and_env(args(), env(Some("u"), Some("p"), None, Some("99999999999999999999"))).unwrap_err();
    match err {
        ConfigError::InvalidEnv { var, message } => {
            assert_eq!(var, "WEBHOOK_RETAIN_PER_ENDPOINT");
            assert_eq!(message, "number too large to fit in target type");
        }
        other => panic!("unexpected: {other:?}"),
    }
}

#[test]
fn parsing_matches_std() {
    let samples = [
        "", "0", "7", "+7", "-7", "+", "-", "12a", "a12", "007", "-0", " 1", "1 ",
        "18446744073709551615", "18446744073709551616", "9223372036854775807",
        "9223372036854775808", "-9223372036854775808", "-9223372036854775809",
        "99999999999999999999999x", "\u{661}\u{662}",
    ];
    for s in samples {
        let ours = parse_usize(s);
        let std = s.parse::<usize>();
        match (ours, std) {
            (Ok(a), Ok(b)) => assert_eq!(a, b, "{s}"),
            (Err(k), Err(e)) => assert_eq!(format!("{:?}", k), format!("{:?}", e.kind()), "{s}"),
            (a, b) => panic!("usize {s}: {a:?} vs {b:?}"),
        }
        let ours = parse_i64(s);
        let std = s.parse::<i64>();
        match (ours, std) {
            (Ok(a), Ok(b)) => assert_eq!(a, b, "{s}"),
            (Err(k), Err(e)) => assert_eq!(format!("{:?}", k), format!("{:?}", e.kind()), "{s}"),
            (a, b) => panic!("i64 {s}: {a:?} vs {b:?}"),
        }
    }
}

#[test]
fn parse_error_kinds() {
    assert_eq!(parse_usize(""), Err(IntErrorKind::Empty));
    assert_eq!(parse_usize("+"), Err(IntErrorKind::InvalidDigit));
    assert_eq!(parse_i64("-9223372036854775809"), Err(IntErrorKind::NegOverflow));
    assert_eq!(parse_i64("-9223372036854775808"), Ok(i64::MIN));
    assert_eq!(parse_usize("250"), Ok(250));
}
