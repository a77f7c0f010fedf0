use xiaomi_proxy::config::{
    default_burst, default_host, default_max_retries, default_port, default_retry_base_ms,
    default_rpm, default_timeout, default_weight, parse_u16, ClientKeyConfig, Config,
    DatabaseConfig, DownstreamConfig, EnvOverrides, IntErrorKind, RateLimitConfig, ServerConfig,
};
use xiaomi_proxy::error::AppError;

fn sample_config() -> Config {
    Config {
        server: ServerConfig::default(),
        downstream: DownstreamConfig {
            openai_base_url: "https://openai.example".to_string(),
            anthropic_base_url: "https://anthropic.example".to_string(),
            timeout_secs: default_timeout(),
            max_retries: default_max_retries(),
            retry_base_ms: default_retry_base_ms(),
        },
        client_keys: vec![
            ClientKeyConfig { key: "client-one".to_string() },
            ClientKeyConfig { key: "client-two".to_string() },
        ],
        downstream_keys: vec![],
        rate_limit: RateLimitConfig::default(),
        database: DatabaseConfig::default(),
    }
}

fn no_overrides() -> EnvOverrides {
    EnvOverrides {
        port: None,
        host: None,
        openai_url: None,
        anthropic_url: None,
        database_url: None,
        database_token: None,
    }
}

#[test]
fn defaults_match_the_documented_values() {
    assert_eq!(default_host(), "0.0.0.0");
    assert_eq!(default_port(), 3000);
    assert_eq!(default_timeout(), 120);
    assert_eq!(default_max_retries(), 3);
    assert_eq!(default_retry_base_ms(), 500);
    assert_eq!(default_weight(), 1);
    assert_eq!(default_rpm(), 60);
    assert_eq!(default_burst(), 60);
    let server = ServerConfig::default();
    assert_eq!((server.host.as_str(), server.port), ("0.0.0.0", 3000));
    let rl = RateLimitConfig::default();
    assert_eq!((rl.requests_per_minute, rl.burst_size), (60, 60));
    let db = DatabaseConfig::default();
    assert!(db.url.is_empty() && db.token.is_empty());
}

#[test]
fn client_keys_are_recognised() {
    let config = sample_config();
    assert!(config.is_valid_client_key("client-one"));
    assert!(config.is_valid_client_key("client-two"));
    assert!(!config.is_valid_client_key("client-three"));
    assert!(!config.is_valid_client_key(""));
}

#[test]
fn mask_key_hides_short_keys() {
    assert_eq!(Config::mask_key(""), "***");
    assert_eq!(Config::mask_key("abc"), "***");
    assert_eq!(Config::mask_key("12345678"), "***");
}

#[test]
fn mask_key_shows_ends_of_long_keys() {
    assert_eq!(Config::mask_key("123456789"), "1234...6789");
    assert_eq!(Config::mask_key("sk-abcdefghijklmnop"), "sk-a...mnop");
}

#[test]
fn mask_key_works_on_byte_boundaries() {
    // "é" takes two bytes: the cuts after byte 4 and before the last 4 fall
    // between characters here.
    let key = "ééabcdéé";
    assert!(Config::mask_key_defined(key));
    assert_eq!(Config::mask_key(key), "éé...éé");
    // Here the cut after byte 4 falls inside a character.
    assert!(!Config::mask_key_defined("aééééé"));
}

#[test]
fn ports_parse_like_the_standard_library() {
    assert!(matches!(parse_u16("8080"), Ok(8080)));
    assert!(matches!(parse_u16("+80"), Ok(80)));
    assert!(matches!(parse_u16("0065535"), Ok(65535)));
    assert!(matches!(parse_u16(""), Err(IntErrorKind::Empty)));
    assert!(matches!(parse_u16("+"), Err(IntErrorKind::InvalidDigit)));
    assert!(matches!(parse_u16("-"), Err(IntErrorKind::InvalidDigit)));
    assert!(matches!(parse_u16("-1"), Err(IntErrorKind::InvalidDigit)));
    assert!(matches!(parse_u16(" 80"), Err(IntErrorKind::InvalidDigit)));
    assert!(matches!(parse_u16("65536"), Err(IntErrorKind::PosOverflow)));
    assert!(matches!(parse_u16("99999x"), Err(IntErrorKind::PosOverflow)));
    assert!(matches!(parse_u16("9x99999"), Err(IntErrorKind::InvalidDigit)));
    for s in ["0", "1", "443", "3000", "65535", "+7", "x", "1.5", "100000"] {
        let ours = parse_u16(s).ok();
        let std = s.parse::<u16>().ok();
        assert_eq!(ours, std, "{s}");
    }
}

#[test]
fn parse_error_messages_match_the_standard_library() {
    assert_eq!(IntErrorKind::Empty.message(), "".parse::<u16>().unwrap_err().to_string());
    assert_eq!(IntErrorKind::InvalidDigit.message(), "a".parse::<u16>().unwrap_err().to_string());
    assert_eq!(IntErrorKind::PosOverflow.message(), "70000".parse::<u16>().unwrap_err().to_string());
}

#[test]
fn environment_overrides_apply() {
    let mut config = sample_config();
    let env = EnvOverrides {
        port: Some("8081".to_string()),
        host: Some("127.0.0.1".to_string()),
        openai_url: Some("http://o".to_string()),
        anthropic_url: None,
        database_url: Some("libsql://db".to_string()),
        database_token: Some("tok".to_string()),
    };
    assert!(config.apply_env_overrides(env).is_ok());
    assert_eq!(config.server.port, 8081);
    assert_eq!(config.server.host, "127.0.0.1");
    assert_eq!(config.downstream.openai_base_url, "http://o");
    assert_eq!(config.downstream.anthropic_base_url, "https://anthropic.example");
    assert_eq!(config.database.url, "libsql://db");
    assert_eq!(config.database.token, "tok");
}

#[test]
fn bad_port_override_is_an_error_and_changes_nothing() {
    let mut config = sample_config();
    let mut env = no_overrides();
    env.port = Some("port".to_string());
    env.host = Some("10.0.0.1".to_string());
    assert!(matches!(config.apply_env_overrides(env), Err(IntErrorKind::InvalidDigit)));
    assert_eq!(config.server.port, 3000);
    assert_eq!(config.server.host, "0.0.0.0");
}

#[test]
fn no_overrides_keep_the_file_settings() {
    let mut config = sample_config();
    assert!(config.apply_env_overrides(no_overrides()).is_ok());
    assert_eq!(config.server.port, 3000);
    assert_eq!(config.downstream.openai_base_url, "https://openai.example");
}

#[test]
fn error_statuses_types_and_messages() {
    let cases: Vec<(AppError, u16, &str, &str)> = vec![
        (AppError::Unauthorized, 401, "authentication_error", "Unauthorized: invalid API key"),
        (AppError::RateLimited, 429, "rate_limit_error", "Rate limit exceeded"),
        (AppError::BadRequest("x".to_string()), 400, "invalid_request_error", "Bad request: x"),
        (AppError::Downstream("HTTP 503".to_string()), 502, "downstream_error", "Downstream error: HTTP 503"),
        (AppError::NoKeysAvailable, 503, "service_unavailable", "No available downstream keys"),
        (AppError::Internal("boom".to_string()), 500, "internal_error", "Internal error: boom"),
    ];
    for (e, status, ty, msg) in cases {
        assert_eq!(e.status_code(), status);
        assert_eq!(e.error_type(), ty);
        assert_eq!(e.message(), msg);
    }
}

#[test]
fn strings_become_internal_errors() {
    let e: AppError = AppError::from("exhausted retries".to_string());
    assert!(matches!(&e, AppError::Internal(m) if m == "exhausted retries"));
    assert_eq!(e.status_code(), 500);
}
