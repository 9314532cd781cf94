use onebrc::stats::Stats;

#[test]
fn stats_add() {
    let mut stats = Stats::new();

    stats.add(123);
    assert_eq!(stats.min, 123);
    assert_eq!(stats.max, 123);
    assert_eq!(stats.sum, 123);
    assert_eq!(stats.count, 1);

    stats.add(321);
    assert_eq!(stats.min, 123);
    assert_eq!(stats.max, 321);
    assert_eq!(stats.sum, 444);
    assert_eq!(stats.count, 2);

    stats.add(-456);
    assert_eq!(stats.min, -456);
    assert_eq!(stats.max, 321);
    assert_eq!(stats.sum, -12);
    assert_eq!(stats.count, 3);
}

#[test]
fn stats_avg() {
    let mut stats = Stats::new();
    for i in [123, 321, -456] {
        stats.add(i);
    }
    assert_eq!(stats.avg(), -4);
}

#[test]
fn stats_merge() {
    let mut stats1 = Stats::new();
    for i in [123, 321, -456] {
        stats1.add(i);
    }

    let mut stats2 = Stats::new();
    for i in [456, -678, -987] {
        stats2.add(i);
    }

    stats1.merge(&stats2);
    assert_eq!(stats1.min, -987);
    assert_eq!(stats1.max, 456);
    assert_eq!(stats1.sum, -1221);
    assert_eq!(stats1.count, 6);
}

#[test]
fn stats_new_is_empty() {
    let stats = Stats::new();
    assert_eq!(stats.min, i32::MAX);
    assert_eq!(stats.max, i32::MIN);
    assert_eq!(stats.sum, 0);
    assert_eq!(stats.count, 0);
}

#[test]
fn stats_avg_rounds_toward_zero() {
    let mut stats = Stats::new();
    for i in [-5, -6, -2] {
        stats.add(i);
    }
    // -13 / 3 is -4.33..., rounded toward zero
    assert_eq!(stats.avg(), -4);

    let mut stats = Stats::new();
    for i in [5, 6, 2] {
        stats.add(i);
    }
    assert_eq!(stats.avg(), 4);
}

#[test]
fn stats_merge_with_empty_keeps_values() {
    let mut stats = Stats::new();
    stats.add(999);
    stats.add(-999);
    let empty = Stats::new();
    stats.merge(&empty);
    assert_eq!(stats.min, -999);
    assert_eq!(stats.max, 999);
    assert_eq!(stats.sum, 0);
    assert_eq!(stats.count, 2);

    let mut fresh = Stats::new();
    fresh.merge(&stats);
    assert_eq!(fresh.min, -999);
    assert_eq!(fresh.max, 999);
    assert_eq!(fresh.count, 2);
}

#[test]
fn stats_merge_matches_concatenated_adds() {
    let a = [123, 321, -456];
    let b = [456, -678, -987];
    let mut left = Stats::new();
    for v in a {
        left.add(v);
    }
    let mut right = Stats::new();
    for v in b {
        right.add(v);
    }
    let mut all = Stats::new();
    for v in a.iter().chain(b.iter()) {
        all.add(*v);
    }
    left.merge(&right);
    assert_eq!((left.min, left.max, left.sum, left.count), (all.min, all.max, all.sum, all.count));
}
