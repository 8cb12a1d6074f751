use mlc::limits::Limits;

#[test]
fn test_update_limits() {
    let mut limits = Limits::new();

    limits.add_category("shop");

    assert_eq!(limits.update_limit("shop", 0, 60), true);
    assert_eq!(limits.update_limit("shop", 0, 70), false);
    assert_eq!(limits.update_limit("shop", 100, 30), true);
    assert_eq!(limits.update_limit("shop", 50, 70), false);
    assert_eq!(limits.update_limit("shop", 50, 50), true);
    assert_eq!(limits.update_limit("shop", 200, 10), true);
}

#[test]
fn test_update_limits_single_category() {
    let mut limits = Limits::new();

    limits.add_category("shop");

    limits.update_limit("shop", 0, 60);
    limits.update_limit("shop", 100, 30);
    limits.update_limit("shop", 50, 50);
    limits.update_limit("shop", 200, 10);

    println!("{:?}", limits);
    assert_eq!(limits.is_limit_exceeded(0, 70), true);
    assert_eq!(limits.is_limit_exceeded(0, 60), true);
    assert_eq!(limits.is_limit_exceeded(0, 50), false);

    assert_eq!(limits.is_limit_exceeded(100, 40), true);
    assert_eq!(limits.is_limit_exceeded(100, 30), true);
    assert_eq!(limits.is_limit_exceeded(100, 20), false);

    assert_eq!(limits.is_limit_exceeded(50, 70), true);
    assert_eq!(limits.is_limit_exceeded(50, 50), true);
    assert_eq!(limits.is_limit_exceeded(50, 40), false);
}

#[test]
fn test_update_limits_multi_category() {
    let mut limits = Limits::new();

    limits.add_category("shop");

    limits.update_limit("shop", 0, 60);
    limits.update_limit("shop", 100, 30);
    limits.update_limit("shop", 50, 50);
    limits.update_limit("shop", 200, 10);

    limits.add_category("grocery");

    limits.update_limit("grocery", 0, 100);
    limits.update_limit("grocery", 200, 5);

    assert_eq!(limits.is_limit_exceeded(0, 110), true); // border determined by (0, 100)
    assert_eq!(limits.is_limit_exceeded(0, 100), true);
    assert_eq!(limits.is_limit_exceeded(0, 90), false);

    assert_eq!(limits.is_limit_exceeded(200, 20), true); // border determined by (200, 10)
    assert_eq!(limits.is_limit_exceeded(200, 10), true);
    assert_eq!(limits.is_limit_exceeded(200, 5), false);

    assert_eq!(limits.is_limit_exceeded(100, 110), true); // border determined by (0, 100)
    assert_eq!(limits.is_limit_exceeded(100, 100), true);
    assert_eq!(limits.is_limit_exceeded(100, 90), false);
}

#[test]
fn a_new_category_holds_the_pair_that_exceeds_nothing() {
    let mut limits: Limits<u64> = Limits::new();
    assert!(!limits.is_initialized());
    limits.add_category(7);
    assert!(limits.is_initialized());
    assert_eq!(limits.limits[&7].len(), 1);
    assert_eq!(limits.limits[&7][0].cost, u64::MAX);
    assert_eq!(limits.limits[&7][0].time, u64::MAX);
    assert_eq!(limits.is_limit_exceeded(5, 5), false);
    assert_eq!(limits.is_limit_exceeded(u64::MAX, u64::MAX), true);
}

#[test]
fn the_frontier_keeps_no_pair_that_another_covers() {
    let mut limits: Limits<u64> = Limits::new();
    limits.add_category(1);
    assert!(limits.update_limit(1, 10, 10));
    assert!(limits.update_limit(1, 5, 20));
    assert!(limits.update_limit(1, 20, 5));
    // covers (10, 10) and (5, 20), not (20, 5)
    assert!(limits.update_limit(1, 5, 10));
    let mut pairs: Vec<(u64, u64)> = limits.limits[&1].iter().map(|l| (l.cost, l.time)).collect();
    pairs.sort();
    assert_eq!(pairs, vec![(5, 10), (20, 5)]);
    for a in &pairs {
        for b in &pairs {
            assert!(a == b || !(a.0 <= b.0 && a.1 <= b.1));
        }
    }
}

#[test]
fn a_kept_bound_answers_as_a_fresh_one() {
    let mut limits: Limits<u64> = Limits::new();
    limits.add_category(1);
    limits.add_category(2);
    limits.update_limit(1, 10, 40);
    limits.update_limit(2, 10, 60);
    assert_eq!(limits.determine_limit(10), 60);
    assert_eq!(limits.is_limit_exceeded(10, 60), true);
    assert_eq!(limits.limit_cache[&10], 60);
    assert_eq!(limits.is_limit_exceeded(10, 59), false);
    // an update drops what was kept
    assert!(limits.update_limit(2, 10, 30));
    assert!(limits.limit_cache.is_empty());
    assert_eq!(limits.determine_limit(10), 40);
    assert_eq!(limits.is_limit_exceeded(10, 59), true);
    assert_eq!(limits.is_limit_exceeded(10, 39), false);
    assert_eq!(limits.determine_limit(9), u64::MAX);
}
