use sluice::config::{Protocol, Provider, ProviderKey, StoredConfig};
use sluice::pool::{lane_specs, LaneSpec, Pool, SlidingWindow, JITTER_MARGIN, PROVIDER_WINDOW};

const SECOND: u128 = 1_000_000_000;

#[test]
fn window_allows_limit_then_blocks_then_recovers() {
    let base = 5 * SECOND;
    let mut w = SlidingWindow::new(2, 60 * SECOND);
    assert!(w.try_acquire(base).is_ok());
    assert!(w.try_acquire(base + SECOND).is_ok());
    let blocked = w.try_acquire(base + 2 * SECOND);
    assert_eq!(blocked.unwrap_err(), base + 60 * SECOND);
    assert!(w.try_acquire(base + 61 * SECOND).is_ok());
}

#[test]
fn window_zero_limit_never_grants() {
    let mut w = SlidingWindow::new(0, 60 * SECOND);
    assert!(w.try_acquire(0).is_err());
}

fn provider(name: &str, rpm: usize, enabled: bool) -> Provider {
    Provider {
        name: name.into(),
        base_url: format!("http://{name}.test"),
        protocol: Protocol::default(),
        keys: vec![ProviderKey {
            key: format!("{name}-key"),
            enabled,
            rpm,
            owner: "admin".into(),
        }],
    }
}

#[test]
fn pool_flattens_enabled_keys_across_providers() {
    let sc = StoredConfig {
        providers: vec![
            provider("nim", 40, true),
            provider("groq", 20, true),
            provider("off", 30, false),
        ],
        ..Default::default()
    };
    let pool = Pool::new(lane_specs(&sc));
    assert_eq!(pool.len(), 2);
    assert_eq!(pool.capacity_rpm(), 60);
    assert_eq!(pool.rpms(), vec![40, 20]);
}

#[test]
fn pool_lane_carries_provider_routing() {
    let sc = StoredConfig {
        providers: vec![provider("nim", 40, true)],
        ..Default::default()
    };
    let mut pool = Pool::new(lane_specs(&sc));
    let lane = pool.lane_mut(0);
    assert_eq!(lane.base_url, "http://nim.test");
    assert_eq!(lane.key, "nim-key");
    assert!(lane.try_acquire(0).is_ok());
}

fn specs(n: usize) -> Vec<LaneSpec> {
    (0..n)
        .map(|i| LaneSpec {
            provider: "nim".into(),
            base_url: "http://nim.test".into(),
            key: format!("key-{i}"),
            protocol: Protocol::default(),
            rpm: 40,
        })
        .collect()
}

fn key_for(pool: &Pool, session: u64) -> String {
    pool.lanes()[pool.affinity_lane(session).unwrap()]
        .key
        .clone()
}

#[test]
fn affinity_is_stable_for_the_same_session() {
    let pool = Pool::new(specs(5));
    let first = pool.affinity_lane(0x00C0FFEE).unwrap();
    for _ in 0..10 {
        assert_eq!(pool.affinity_lane(0x00C0FFEE), Some(first));
    }
}

#[test]
fn affinity_spreads_sessions_over_every_lane() {
    let pool = Pool::new(specs(4));
    let mut hit = std::collections::HashSet::new();
    for s in 0..500u64 {
        hit.insert(pool.affinity_lane(s).unwrap());
    }
    assert_eq!(hit.len(), 4, "every lane should attract some sessions");
}

#[test]
fn affinity_on_an_empty_pool_is_none() {
    assert_eq!(Pool::new(vec![]).affinity_lane(1), None);
}

/// The reason for rendezvous hashing over `hash % lanes`: adding a key must
/// relocate only the new lane's share of conversations, not nearly all of them.
#[test]
fn growing_the_pool_relocates_only_the_new_lanes_share() {
    let before = Pool::new(specs(5));
    let after = Pool::new(specs(6));
    let moved = (0..1200u64)
        .filter(|&s| key_for(&before, s) != key_for(&after, s))
        .count();
    assert!(
        moved < 300,
        "relocated {moved}/1200 sessions; expected ~1/6 (200)"
    );
    assert!(
        (0..1200u64)
            .filter(|&s| key_for(&before, s) != key_for(&after, s))
            .all(|s| key_for(&after, s) == "key-5"),
        "whoever moves, moves to the new key"
    );
}

#[test]
fn a_benched_lane_is_out_of_rotation_until_its_cooldown_expires() {
    let mut pool = Pool::new(specs(1));
    let lane = pool.lane_mut(0);
    let now = SECOND;
    lane.bench(now + 5 * SECOND);
    assert!(lane.benched(now));
    assert!(!lane.benched(now + 6 * SECOND));
}

/// Two requests can discover the same sick key at once. The shorter of their
/// two backoffs must not cancel the longer one already in force.
#[test]
fn benching_a_lane_again_never_shortens_its_cooldown() {
    let mut pool = Pool::new(specs(1));
    let lane = pool.lane_mut(0);
    let now = SECOND;
    lane.bench(now + 30 * SECOND);
    lane.bench(now + 2 * SECOND);
    assert!(lane.benched(now + 10 * SECOND));
    assert_eq!(lane.cooldown_ends(now), Some(now + 30 * SECOND));
}

/// A settings save must not hand every key a fresh rate window. Without
/// carryover, editing anything at all lets the very next requests exceed the
/// provider's limit.
#[test]
fn a_rebuilt_pool_keeps_each_kept_keys_spent_budget() {
    let mut pool = Pool::with_window(specs(2), 60 * SECOND);
    let now = SECOND;
    for _ in 0..3 {
        pool.lane_mut(0).try_acquire(now).unwrap();
    }
    assert_eq!(pool.lane_mut(0).load(now), 3);

    let mut rebuilt = pool.rebuild(specs(2));
    assert_eq!(
        rebuilt.lane_mut(0).load(now),
        3,
        "the spent budget must survive the swap"
    );
    assert_eq!(
        rebuilt.lane_mut(1).load(now),
        0,
        "an untouched key is unaffected"
    );
}

#[test]
fn a_rebuilt_pool_keeps_a_benched_lane_benched() {
    let mut pool = Pool::with_window(specs(1), 60 * SECOND);
    let now = SECOND;
    pool.lane_mut(0).bench(now + 30 * SECOND);
    assert!(pool.rebuild(specs(1)).lanes()[0].benched(now));
}

#[test]
fn a_newly_added_key_starts_with_a_clean_window() {
    let mut pool = Pool::with_window(specs(1), 60 * SECOND);
    let now = SECOND;
    pool.lane_mut(0).try_acquire(now).unwrap();
    let mut grown = pool.rebuild(specs(2));
    assert_eq!(
        grown.lane_mut(0).load(now),
        1,
        "the existing key carries over"
    );
    assert_eq!(grown.lane_mut(1).load(now), 0, "the new key is fresh");
}

/// Affinity is keyed on lane identity, not lane index, so a pool rebuild that
/// reorders lanes keeps every conversation on the key it was already warm on.
#[test]
fn reordering_lanes_relocates_nothing() {
    let pool = Pool::new(specs(4));
    let mut reordered = specs(4);
    reordered.reverse();
    let shuffled = Pool::new(reordered);
    for s in 0..300u64 {
        assert_eq!(
            key_for(&pool, s),
            key_for(&shuffled, s),
            "session {s} moved when only lane order changed"
        );
    }
}

#[test]
fn the_pool_paces_with_a_margin_over_the_providers_window() {
    let mut pool = Pool::new(vec![LaneSpec { rpm: 1, ..specs(1).pop().unwrap() }]);
    pool.lane_mut(0).try_acquire(0).unwrap();
    assert_eq!(
        pool.lane_mut(0).try_acquire(PROVIDER_WINDOW),
        Err(PROVIDER_WINDOW + JITTER_MARGIN)
    );
    let mut short = Pool::for_provider_window(
        vec![LaneSpec { rpm: 1, ..specs(1).pop().unwrap() }],
        2 * SECOND,
    );
    short.lane_mut(0).try_acquire(0).unwrap();
    assert_eq!(
        short.lane_mut(0).try_acquire(SECOND),
        Err(2 * SECOND + JITTER_MARGIN)
    );
}

#[test]
fn affinity_among_some_lanes_picks_one_of_them() {
    let pool = Pool::new(specs(5));
    for s in 0..50u64 {
        let i = pool.affinity_among(s, &[1, 3]).unwrap();
        assert!(i == 1 || i == 3);
        let all = pool.affinity_lane(s).unwrap();
        if all == 1 || all == 3 {
            assert_eq!(i, all, "the heaviest of all is the heaviest of some");
        }
    }
    assert_eq!(pool.affinity_among(1, &[]), None);
}

#[test]
fn the_time_to_retry_is_exact() {
    let mut w = SlidingWindow::new(1, 10 * SECOND);
    w.try_acquire(SECOND).unwrap();
    let at = w.try_acquire(2 * SECOND).unwrap_err();
    assert_eq!(at, 11 * SECOND);
    assert!(w.try_acquire(at - 1).is_err());
    assert!(w.try_acquire(at).is_ok());
    assert_eq!(w.load(at), 1);
}

#[test]
fn no_instant_sees_more_than_the_limit() {
    let mut w = SlidingWindow::new(3, 10 * SECOND);
    let mut grants: Vec<u128> = Vec::new();
    for i in 0..60u128 {
        let now = i * SECOND;
        if w.try_acquire(now).is_ok() {
            grants.push(now);
        }
    }
    assert_eq!(grants.len(), 18);
    for t in 0..60u128 {
        let t = t * SECOND;
        let inside = grants.iter().filter(|g| **g <= t && t < **g + 10 * SECOND);
        assert!(inside.count() <= 3);
    }
}

#[test]
fn leaving_other_candidates_out_moves_nobody() {
    let pool = Pool::new(specs(5));
    for s in 0..50u64 {
        let all = [4, 0, 2, 1, 3];
        let lane = pool.affinity_among(s, &all).unwrap();
        for out in all.iter().filter(|i| **i != lane) {
            let some: Vec<usize> = all.iter().copied().filter(|i| i != out).collect();
            assert_eq!(pool.affinity_among(s, &some), Some(lane));
        }
    }
}
