use xiaomi_proxy::config::DownstreamKeyConfig;
use xiaomi_proxy::error::AppError;
use xiaomi_proxy::proxy::key_pool::{AcquiredKey, KeyPool};

fn cfg(key: &str, weight: u32) -> DownstreamKeyConfig {
    DownstreamKeyConfig { key: key.to_string(), weight }
}

fn acquired(key: &str) -> AcquiredKey {
    AcquiredKey { key: key.to_string() }
}

fn next(pool: &mut KeyPool) -> String {
    pool.acquire_key().map(|k| k.key).unwrap_or_else(|_| "<none>".to_string())
}

#[test]
fn weighted_round_robin_follows_weights() {
    let mut pool = KeyPool::new(&[cfg("a", 2), cfg("b", 1)]);
    let seq: Vec<String> = (0..6).map(|_| next(&mut pool)).collect();
    assert_eq!(seq, vec!["a", "a", "b", "a", "a", "b"]);
}

#[test]
fn rotation_share_matches_weights_over_a_turn() {
    let mut pool = KeyPool::new(&[cfg("a", 3), cfg("b", 0), cfg("c", 2)]);
    let mut a = 0;
    let mut c = 0;
    for _ in 0..5 {
        match next(&mut pool).as_str() {
            "a" => a += 1,
            "c" => c += 1,
            other => panic!("unexpected key {other}"),
        }
    }
    assert_eq!((a, c), (3, 2));
}

#[test]
fn empty_pool_has_no_keys() {
    let mut pool = KeyPool::new(&[]);
    assert!(matches!(pool.acquire_key(), Err(AppError::NoKeysAvailable)));
}

#[test]
fn zero_total_weight_has_no_keys() {
    let mut pool = KeyPool::new(&[cfg("a", 0), cfg("b", 0)]);
    assert!(matches!(pool.acquire_key(), Err(AppError::NoKeysAvailable)));
}

#[test]
fn three_failures_take_a_key_out_of_rotation() {
    let mut pool = KeyPool::new(&[cfg("a", 1), cfg("b", 1)]);
    assert!(pool.report_failure(&acquired("a")).is_none());
    assert!(pool.report_failure(&acquired("a")).is_none());
    assert_eq!(pool.healthy_key_count(), 2);
    assert!(pool.report_failure(&acquired("a")).is_some());
    assert_eq!(pool.healthy_key_count(), 1);
    for _ in 0..4 {
        assert_eq!(next(&mut pool), "b");
    }
}

#[test]
fn success_resets_the_run_of_failures() {
    let mut pool = KeyPool::new(&[cfg("a", 1)]);
    pool.report_failure(&acquired("a"));
    pool.report_failure(&acquired("a"));
    pool.report_success(&acquired("a"));
    assert!(pool.report_failure(&acquired("a")).is_none());
    assert!(pool.report_failure(&acquired("a")).is_none());
    assert_eq!(pool.healthy_key_count(), 1);
    let stats = pool.key_stats();
    assert_eq!(stats[0].consecutive_errors, 2);
}

#[test]
fn all_keys_out_of_rotation_means_no_keys() {
    let mut pool = KeyPool::new(&[cfg("a", 1)]);
    for _ in 0..3 {
        pool.report_failure(&acquired("a"));
    }
    assert!(matches!(pool.acquire_key(), Err(AppError::NoKeysAvailable)));
}

#[test]
fn recovery_puts_a_key_back() {
    let mut pool = KeyPool::new(&[cfg("a", 1)]);
    let mut ticket = None;
    for _ in 0..3 {
        ticket = pool.report_failure(&acquired("a"));
    }
    pool.recover_key(ticket.unwrap());
    assert_eq!(pool.healthy_key_count(), 1);
    assert_eq!(next(&mut pool), "a");
    assert_eq!(pool.key_stats()[0].consecutive_errors, 0);
}

#[test]
fn failures_of_unknown_keys_change_nothing() {
    let mut pool = KeyPool::new(&[cfg("a", 1)]);
    for _ in 0..5 {
        assert!(pool.report_failure(&acquired("zzz")).is_none());
    }
    assert_eq!(pool.healthy_key_count(), 1);
}

#[test]
fn add_key_updates_an_existing_key() {
    let mut pool = KeyPool::new(&[cfg("a", 1)]);
    for _ in 0..3 {
        pool.report_failure(&acquired("a"));
    }
    pool.add_key("a".to_string(), 5);
    assert_eq!(pool.key_count(), 1);
    let stats = pool.key_stats();
    assert_eq!(stats[0].weight, 5);
    assert!(stats[0].healthy);
    assert_eq!(stats[0].consecutive_errors, 0);
}

#[test]
fn add_key_appends_a_new_key() {
    let mut pool = KeyPool::new(&[cfg("a", 1)]);
    pool.add_key("b".to_string(), 2);
    assert_eq!(pool.key_count(), 2);
    let stats = pool.key_stats();
    assert_eq!(stats[1].actual_key, "b");
    assert_eq!(stats[1].weight, 2);
}

#[test]
fn remove_key_removes_every_copy() {
    let mut pool = KeyPool::new(&[cfg("a", 1), cfg("b", 1), cfg("a", 3)]);
    pool.remove_key("a");
    assert_eq!(pool.key_count(), 1);
    assert_eq!(pool.key_stats()[0].actual_key, "b");
    pool.remove_key("missing");
    assert_eq!(pool.key_count(), 1);
}

#[test]
fn request_counts_grow_with_acquisitions() {
    let mut pool = KeyPool::new(&[cfg("a", 1), cfg("b", 1)]);
    for _ in 0..5 {
        next(&mut pool);
    }
    let stats = pool.key_stats();
    assert_eq!(stats[0].request_count, 3);
    assert_eq!(stats[1].request_count, 2);
}

#[test]
fn key_stats_mask_the_keys() {
    let pool = KeyPool::new(&[cfg("sk-abcdefghijkl", 1), cfg("short", 1)]);
    assert!(pool.all_keys_maskable());
    let stats = pool.key_stats();
    assert_eq!(stats[0].key, "sk-a...ijkl");
    assert_eq!(stats[0].actual_key, "sk-abcdefghijkl");
    assert_eq!(stats[1].key, "***");
}

#[test]
fn usable_weight_must_fit_in_32_bits() {
    let pool = KeyPool::new(&[cfg("a", u32::MAX), cfg("b", 1)]);
    assert!(!pool.usable_weight_fits());
    let pool = KeyPool::new(&[cfg("a", u32::MAX - 1), cfg("b", 1)]);
    assert!(pool.usable_weight_fits());
}

#[test]
fn any_full_turn_is_shared_by_weight() {
    let mut pool = KeyPool::new(&[cfg("a", 3), cfg("b", 2)]);
    for start in 0..7 {
        let mut a = 0;
        let mut b = 0;
        for _ in 0..5 {
            match next(&mut pool).as_str() {
                "a" => a += 1,
                _ => b += 1,
            }
        }
        assert_eq!((a, b), (3, 2), "turn starting after {start} acquisitions");
        next(&mut pool);
    }
}

#[test]
fn unhealthy_keys_leave_the_turn() {
    let mut pool = KeyPool::new(&[cfg("a", 1), cfg("b", 2), cfg("c", 1)]);
    for _ in 0..3 {
        pool.report_failure(&acquired("b"));
    }
    let seq: Vec<String> = (0..4).map(|_| next(&mut pool)).collect();
    assert_eq!(seq.iter().filter(|k| k.as_str() == "b").count(), 0);
    assert_eq!(seq.iter().filter(|k| k.as_str() == "a").count(), 2);
}

#[test]
fn stale_recovery_leaves_a_re_added_key_alone() {
    let mut pool = KeyPool::new(&[cfg("a", 1), cfg("b", 1)]);
    let mut ticket = None;
    for _ in 0..3 {
        ticket = pool.report_failure(&acquired("a"));
    }
    let ticket = ticket.expect("third failure starts a cooldown");
    pool.remove_key("a");
    pool.add_key("a".to_string(), 1);
    pool.report_failure(&acquired("a"));
    pool.recover_key(ticket);
    let stats = pool.key_stats();
    assert_eq!(stats[1].actual_key, "a");
    assert_eq!(stats[1].consecutive_errors, 1);
}

#[test]
fn recovery_after_re_weighting_still_applies() {
    let mut pool = KeyPool::new(&[cfg("a", 1)]);
    let mut ticket = None;
    for _ in 0..3 {
        ticket = pool.report_failure(&acquired("a"));
    }
    assert!(pool.contains_key("a"));
    assert!(pool.can_add_key());
    pool.add_key("a".to_string(), 4);
    for _ in 0..3 {
        pool.report_failure(&acquired("a"));
    }
    pool.recover_key(ticket.unwrap());
    let stats = pool.key_stats();
    assert!(stats[0].healthy);
    assert_eq!(stats[0].weight, 4);
}

fn stats_rows(pool: &KeyPool) -> Vec<(String, String, u32, bool, u32, u32)> {
    pool.key_stats()
        .into_iter()
        .map(|s| (s.key, s.actual_key, s.weight, s.healthy, s.request_count, s.consecutive_errors))
        .collect()
}

#[test]
fn add_then_remove_gives_the_old_listing_back() {
    let mut pool = KeyPool::new(&[cfg("sk-first-key-0001", 2), cfg("sk-second-key-002", 1)]);
    next(&mut pool);
    assert!(pool.report_failure(&acquired("sk-second-key-002")).is_none());
    let before = stats_rows(&pool);
    let count = pool.key_count();
    pool.add_key("sk-third-key-0003".to_string(), 5);
    assert_eq!(pool.key_count(), count + 1);
    pool.remove_key("sk-third-key-0003");
    assert_eq!(stats_rows(&pool), before);
    assert_eq!(pool.key_count(), count);
}

#[test]
fn add_key_keeps_names_distinct() {
    let mut pool = KeyPool::new(&[cfg("sk-first-key-0001", 2), cfg("sk-second-key-002", 1)]);
    pool.add_key("sk-first-key-0001".to_string(), 7);
    pool.add_key("sk-third-key-0003".to_string(), 1);
    let names: Vec<String> = pool.key_stats().into_iter().map(|s| s.actual_key).collect();
    assert_eq!(names, vec!["sk-first-key-0001", "sk-second-key-002", "sk-third-key-0003"]);
    assert_eq!(names.iter().filter(|n| n.as_str() == "sk-first-key-0001").count(), 1);
}
