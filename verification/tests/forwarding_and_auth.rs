use xiaomi_proxy::config::{
    Config, DatabaseConfig, DownstreamConfig, DownstreamKeyConfig, RateLimitConfig, ServerConfig,
};
use xiaomi_proxy::error::AppError;
use xiaomi_proxy::middleware::auth::{authenticate, extract_client_key, ClientKey, ClientKeySet};
use xiaomi_proxy::middleware::basic_auth::basic_auth_allows;
use xiaomi_proxy::proxy::forwarder::{
    build_downstream_headers, downstream_url, header_value_valid, settle_streaming_status,
    streaming_error, Header, Protocol,
};
use xiaomi_proxy::proxy::key_pool::{AcquiredKey, KeyPool};

fn h(name: &str, value: &[u8]) -> Header {
    Header { name: name.to_string(), value: value.to_vec() }
}

fn pairs(hs: &[Header]) -> Vec<(String, Vec<u8>)> {
    hs.iter().map(|h| (h.name.clone(), h.value.clone())).collect()
}

fn config() -> Config {
    Config {
        server: ServerConfig::default(),
        downstream: DownstreamConfig {
            openai_base_url: "https://api.openai.example".to_string(),
            anthropic_base_url: "https://api.anthropic.example".to_string(),
            timeout_secs: 120,
            max_retries: 3,
            retry_base_ms: 500,
        },
        client_keys: vec![],
        downstream_keys: vec![],
        rate_limit: RateLimitConfig::default(),
        database: DatabaseConfig::default(),
    }
}

#[test]
fn protocol_urls_and_names() {
    let c = config();
    assert_eq!(Protocol::OpenAI.base_url(&c), "https://api.openai.example");
    assert_eq!(Protocol::Anthropic.base_url(&c), "https://api.anthropic.example");
    assert_eq!(Protocol::OpenAI.as_str(), "openai");
    assert_eq!(Protocol::Anthropic.as_str(), "anthropic");
    assert_eq!(
        downstream_url(&c, Protocol::Anthropic, "/v1/messages"),
        "https://api.anthropic.example/v1/messages"
    );
}

#[test]
fn client_credentials_are_replaced_for_openai() {
    let original = vec![
        h("authorization", b"Bearer client-key"),
        h("x-api-key", b"client-key"),
        h("host", b"proxy.local"),
        h("content-length", b"42"),
        h("content-type", b"application/json"),
        h("accept", b"*/*"),
    ];
    let out = build_downstream_headers(&original, "down-key", Protocol::OpenAI);
    assert_eq!(
        pairs(&out),
        vec![
            ("content-type".to_string(), b"application/json".to_vec()),
            ("accept".to_string(), b"*/*".to_vec()),
            ("authorization".to_string(), b"Bearer down-key".to_vec()),
        ]
    );
}

#[test]
fn anthropic_also_gets_x_api_key() {
    let original = vec![h("anthropic-version", b"2023-06-01"), h("x-api-key", b"client")];
    let out = build_downstream_headers(&original, "down-key", Protocol::Anthropic);
    assert_eq!(
        pairs(&out),
        vec![
            ("anthropic-version".to_string(), b"2023-06-01".to_vec()),
            ("authorization".to_string(), b"Bearer down-key".to_vec()),
            ("x-api-key".to_string(), b"down-key".to_vec()),
        ]
    );
}

#[test]
fn header_value_validity() {
    assert!(header_value_valid(b"Bearer abc\tdef"));
    assert!(header_value_valid(&[0xC3, 0xA9]));
    assert!(!header_value_valid(b"line\nbreak"));
    assert!(!header_value_valid(&[127]));
}

#[test]
fn streaming_errors_carry_status_and_body() {
    match streaming_error(529, "overloaded") {
        AppError::Downstream(m) => assert_eq!(m, "HTTP 529: overloaded"),
        _ => panic!("expected a downstream error"),
    }
}

#[test]
fn streaming_status_is_settled_against_the_key() {
    let mut pool = KeyPool::new(&[DownstreamKeyConfig { key: "k".to_string(), weight: 1 }]);
    let k = AcquiredKey { key: "k".to_string() };
    assert_eq!(settle_streaming_status(&mut pool, &k, 500), (false, None));
    assert_eq!(settle_streaming_status(&mut pool, &k, 502), (false, None));
    assert_eq!(settle_streaming_status(&mut pool, &k, 200), (true, None));
    assert_eq!(settle_streaming_status(&mut pool, &k, 500), (false, None));
    assert_eq!(settle_streaming_status(&mut pool, &k, 500), (false, None));
    assert_eq!(settle_streaming_status(&mut pool, &k, 500), (false, Some(0)));
    assert_eq!(pool.healthy_key_count(), 0);
}

fn accepted(keys: &[&str]) -> ClientKeySet {
    let mut set = ClientKeySet::new();
    for k in keys {
        set.insert(k.to_string());
    }
    set
}

#[test]
fn bearer_token_is_the_client_key() {
    let hs = vec![h("authorization", b"Bearer abc"), h("x-api-key", b"other")];
    assert_eq!(extract_client_key(&hs), Some("abc".to_string()));
}

#[test]
fn x_api_key_is_used_without_bearer() {
    let hs = vec![h("authorization", b"Basic xyz"), h("x-api-key", b"other")];
    assert_eq!(extract_client_key(&hs), Some("other".to_string()));
    let hs = vec![h("x-api-key", b"only")];
    assert_eq!(extract_client_key(&hs), Some("only".to_string()));
}

#[test]
fn unreadable_or_missing_keys_are_absent() {
    let hs = vec![h("authorization", &[b'B', b'e', b'a', b'r', b'e', b'r', b' ', 0xff])];
    assert_eq!(extract_client_key(&hs), None);
    assert_eq!(extract_client_key(&vec![]), None);
    let hs = vec![h("authorization", b"bearer abc")];
    assert_eq!(extract_client_key(&hs), None);
}

#[test]
fn first_authorization_header_counts() {
    let hs = vec![h("authorization", b"Bearer first"), h("authorization", b"Bearer second")];
    assert_eq!(extract_client_key(&hs), Some("first".to_string()));
}

#[test]
fn authentication_accepts_known_keys_only() {
    let keys = accepted(&["good"]);
    let ok = authenticate(&vec![h("authorization", b"Bearer good")], &keys);
    assert!(matches!(ok, Ok(ClientKey(k)) if k == "good"));
    let bad = authenticate(&vec![h("authorization", b"Bearer bad")], &keys);
    assert!(matches!(bad, Err(AppError::Unauthorized)));
    let none = authenticate(&vec![], &keys);
    assert!(matches!(none, Err(AppError::Unauthorized)));
}

#[test]
fn client_key_set_inserts_and_removes() {
    let mut keys = accepted(&["a", "b", "a"]);
    assert!(keys.contains(&"a".to_string()));
    keys.remove(&"a".to_string());
    assert!(!keys.contains(&"a".to_string()));
    assert!(keys.contains(&"b".to_string()));
}

#[test]
fn basic_auth_is_open_without_credentials() {
    assert!(basic_auth_allows("", "", &vec![]));
    assert!(basic_auth_allows("admin", "", &vec![]));
    assert!(basic_auth_allows("", "secret", &vec![]));
}

#[test]
fn basic_auth_checks_credentials() {
    // base64("user:pass") == "dXNlcjpwYXNz"
    assert!(basic_auth_allows("user", "pass", &vec![h("authorization", b"Basic dXNlcjpwYXNz")]));
    assert!(basic_auth_allows("user", "pass", &vec![h("authorization", b"Basic  dXNlcjpwYXNz \t")]));
    assert!(!basic_auth_allows("user", "pass", &vec![h("authorization", b"Basic dXNlcjpwYXNzCg==")]));
    assert!(!basic_auth_allows("user", "pass", &vec![h("authorization", b"Bearer dXNlcjpwYXNz")]));
    assert!(!basic_auth_allows("user", "pass", &vec![]));
    assert!(!basic_auth_allows("user", "other", &vec![h("authorization", b"Basic dXNlcjpwYXNz")]));
}
