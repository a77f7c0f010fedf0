use xiaomi_proxy::config::{ClientKeyConfig, DownstreamKeyConfig};
use xiaomi_proxy::handlers::admin::{
    downstream_key_to_add, logs_has_more, logs_window, new_client_key, usage_period, weight_update,
    AddClientKeyPayload, AddDownstreamKeyPayload, LogsQuery, UpdateDownstreamKeyPayload,
    UsageQuery,
};
use xiaomi_proxy::handlers::anthropic::{
    extract_anthropic_usage, message_plan, total_tokens, usage_counts,
};
use xiaomi_proxy::state::{plan_client_keys, plan_downstream_keys};
use xiaomi_proxy::storage::db::{db_target, is_remote_url, usage_query, DbTarget};
use xiaomi_proxy::storage::models::{ClientKeyModel, DownstreamKeyModel};
use xiaomi_proxy::text::{starts_with, to_decimal, trim_str};

#[test]
fn remote_urls() {
    assert!(is_remote_url("libsql://mydb.turso.io"));
    assert!(is_remote_url("http://localhost:8080"));
    assert!(is_remote_url("https://db.example"));
    assert!(!is_remote_url("data/proxy.db"));
    assert!(!is_remote_url(""));
    assert!(!is_remote_url("libsql:/x"));
}

#[test]
fn database_targets() {
    assert!(matches!(db_target("libsql://x"), DbTarget::Remote(u) if u == "libsql://x"));
    assert!(matches!(db_target(""), DbTarget::Local(p) if p == "local.db"));
    assert!(matches!(db_target("data/p.db"), DbTarget::Local(p) if p == "data/p.db"));
}

const SELECT: &str = "SELECT date(timestamp) as date, client_key, model, COUNT(*) as request_count, COALESCE(SUM(prompt_tokens), 0) as total_prompt_tokens, COALESCE(SUM(completion_tokens), 0) as total_completion_tokens, COALESCE(SUM(total_tokens), 0) as total_tokens FROM request_logs WHERE date(timestamp) >= ?1 AND date(timestamp) <= ?2";
const GROUP: &str = " GROUP BY date(timestamp), client_key, model ORDER BY date(timestamp) DESC";

#[test]
fn usage_query_without_filters() {
    let q = usage_query("2024-01-01", "2024-12-31", None, None);
    assert_eq!(q.sql, format!("{SELECT}{GROUP}"));
    assert_eq!(q.params, vec!["2024-01-01", "2024-12-31"]);
}

#[test]
fn usage_query_with_filters_numbers_parameters() {
    let q = usage_query("a", "b", Some("ck"), Some("m"));
    assert_eq!(q.sql, format!("{SELECT} AND client_key = ?3 AND model = ?4{GROUP}"));
    assert_eq!(q.params, vec!["a", "b", "ck", "m"]);
    let q = usage_query("a", "b", None, Some("m"));
    assert_eq!(q.sql, format!("{SELECT} AND model = ?3{GROUP}"));
    assert_eq!(q.params, vec!["a", "b", "m"]);
}

fn stored_client(key: &str) -> ClientKeyModel {
    ClientKeyModel { key: key.to_string(), description: None, rate_limit: None, created_at: None }
}

#[test]
fn client_keys_seed_from_config_only_when_database_is_empty() {
    let configured = vec![ClientKeyConfig { key: "c1".to_string() }];
    let plan = plan_client_keys(&vec![], &configured);
    assert!(plan.seed_from_config);
    assert!(plan.keys.contains(&"c1".to_string()));
    let plan = plan_client_keys(&vec![stored_client("d1")], &configured);
    assert!(!plan.seed_from_config);
    assert!(plan.keys.contains(&"d1".to_string()));
    assert!(!plan.keys.contains(&"c1".to_string()));
    let plan = plan_client_keys(&vec![], &vec![]);
    assert!(!plan.seed_from_config);
    assert!(!plan.keys.contains(&"".to_string()));
}

#[test]
fn downstream_keys_seed_from_config_only_when_database_is_empty() {
    let configured = vec![DownstreamKeyConfig { key: "k".to_string(), weight: 4 }];
    let plan = plan_downstream_keys(&vec![], &configured);
    assert!(plan.seed_from_config);
    assert_eq!(plan.keys.len(), 1);
    assert_eq!((plan.keys[0].key.as_str(), plan.keys[0].weight), ("k", 4));
    let stored = vec![
        DownstreamKeyModel { key: "s".to_string(), weight: 7, created_at: None },
        DownstreamKeyModel { key: "n".to_string(), weight: -1, created_at: None },
    ];
    let plan = plan_downstream_keys(&stored, &configured);
    assert!(!plan.seed_from_config);
    assert_eq!(plan.keys[0].weight, 7);
    assert_eq!(plan.keys[1].weight, u32::MAX);
}

#[test]
fn usage_period_defaults() {
    let q = UsageQuery { key: None, from: None, to: None, model: None };
    assert_eq!(usage_period(&q), ("1970-01-01".to_string(), "9999-12-31".to_string()));
    let q = UsageQuery { key: None, from: Some("2024-05-01".to_string()), to: None, model: None };
    assert_eq!(usage_period(&q).0, "2024-05-01");
}

#[test]
fn log_windows() {
    let q = LogsQuery { from: None, to: None, key: None, model: None, limit: None, offset: None };
    let w = logs_window(&q);
    assert_eq!((w.limit, w.offset), (100, 0));
    assert_eq!((w.from.as_str(), w.to.as_str()), ("1970-01-01", "9999-12-31"));
    let q = LogsQuery { from: None, to: None, key: None, model: None, limit: Some(1000), offset: Some(20) };
    let w = logs_window(&q);
    assert_eq!((w.limit, w.offset), (500, 20));
    assert!(logs_has_more(100, 100));
    assert!(!logs_has_more(99, 100));
}

#[test]
fn given_client_keys_are_trimmed() {
    let p = AddClientKeyPayload { key: Some("  my-key \n".to_string()), description: None, rate_limit: None };
    assert_eq!(new_client_key(&p), "my-key");
}

#[test]
fn missing_or_blank_client_keys_are_generated() {
    for key in [None, Some("   ".to_string())] {
        let p = AddClientKeyPayload { key, description: None, rate_limit: None };
        let k = new_client_key(&p);
        assert_eq!(k.len(), 35);
        assert!(k.starts_with("sk-"));
        assert!(k[3..].chars().all(|c| c.is_ascii_alphanumeric()));
    }
    let p = AddClientKeyPayload { key: None, description: None, rate_limit: None };
    assert_ne!(new_client_key(&p), new_client_key(&p));
}

#[test]
fn downstream_key_payloads() {
    let p = AddDownstreamKeyPayload { key: " dk ".to_string(), weight: 3 };
    assert_eq!(downstream_key_to_add(&p), ("dk".to_string(), 3));
    let p = AddDownstreamKeyPayload { key: "dk".to_string(), weight: (1i64 << 32) + 2 };
    assert_eq!(downstream_key_to_add(&p).1, 2);
    assert_eq!(weight_update(&UpdateDownstreamKeyPayload { weight: 0 }), (1, 1));
    assert_eq!(weight_update(&UpdateDownstreamKeyPayload { weight: -5 }), (1, 1));
    assert_eq!(weight_update(&UpdateDownstreamKeyPayload { weight: 9 }), (9, 9));
}

#[test]
fn anthropic_usage_is_read_from_the_body() {
    let body = br#"{"id":"m","usage":{"input_tokens":12,"output_tokens":34}}"#;
    assert_eq!(extract_anthropic_usage(body), (Some(12), Some(34)));
    let body = br#"{"usage":{"input_tokens":5}}"#;
    assert_eq!(extract_anthropic_usage(body), (Some(5), None));
    let body = br#"{"usage":{"input_tokens":-5,"output_tokens":"7"}}"#;
    assert_eq!(extract_anthropic_usage(body), (None, None));
    assert_eq!(extract_anthropic_usage(b"not json"), (None, None));
    let body = br#"{"usage":{"input_tokens":4294967297,"output_tokens":1}}"#;
    assert_eq!(extract_anthropic_usage(body), (Some(1), Some(1)));
}

#[test]
fn token_totals() {
    assert_eq!(usage_counts(Some(u64::MAX), None), (Some(u32::MAX), None));
    assert_eq!(total_tokens(Some(2), Some(3)), Some(5));
    assert_eq!(total_tokens(Some(2), None), None);
    assert_eq!(total_tokens(None, Some(3)), None);
}

#[test]
fn message_plans() {
    let p = message_plan(Some(true), Some("model-a".to_string()));
    assert!(p.stream);
    assert_eq!(p.model, "model-a");
    let p = message_plan(None, None);
    assert!(!p.stream);
    assert_eq!(p.model, "unknown");
    assert!(!message_plan(Some(false), None).stream);
}

#[test]
fn text_helpers() {
    assert_eq!(to_decimal(0), "0");
    assert_eq!(to_decimal(503), "503");
    assert_eq!(to_decimal(u64::MAX), u64::MAX.to_string());
    assert_eq!(trim_str("\u{3000} a b\u{a0}\t"), "a b");
    assert_eq!(trim_str("   "), "");
    assert!(starts_with("abc", "ab"));
    assert!(!starts_with("a", "ab"));
}
