use generative_chunks::usage::{UsageCounter, UsageStrategy};

#[test]
fn new_counter_is_empty() {
    let c = UsageCounter::new();
    assert!(c.is_empty());
    assert!(!c.should_keep_alive());
    assert!(!c.should_generate_slow());
    assert!(!c.should_generate_fast());
    assert_eq!(c.best_usage(), None);
    let d = UsageCounter::default();
    assert!(d.is_empty());
}

#[test]
fn increment_and_decrement() {
    let mut c = UsageCounter::new();
    c.increment(UsageStrategy::Slow);
    assert!(c.should_generate_slow());
    assert!(!c.is_empty());
    c.increment(UsageStrategy::Slow);
    c.decrement(UsageStrategy::Slow);
    assert!(c.should_generate_slow());
    c.decrement(UsageStrategy::Slow);
    assert!(c.is_empty());
}

#[test]
fn best_usage_prefers_fast() {
    let mut c = UsageCounter::new();
    c.increment(UsageStrategy::KeepAlive);
    assert_eq!(c.best_usage(), Some(UsageStrategy::KeepAlive));
    assert!(c.should_keep_alive());
    c.increment(UsageStrategy::Slow);
    assert_eq!(c.best_usage(), Some(UsageStrategy::Slow));
    c.increment(UsageStrategy::Fast);
    assert_eq!(c.best_usage(), Some(UsageStrategy::Fast));
    assert!(c.should_generate_fast());
    c.decrement(UsageStrategy::Fast);
    assert_eq!(c.best_usage(), Some(UsageStrategy::Slow));
}

#[test]
fn clear_zeroes_every_tier() {
    let mut c = UsageCounter::new();
    c.increment(UsageStrategy::KeepAlive);
    c.increment(UsageStrategy::Slow);
    c.increment(UsageStrategy::Fast);
    c.clear();
    assert!(c.is_empty());
    assert_eq!(c.best_usage(), None);
}

#[test]
fn bump_saturates() {
    let mut c = UsageCounter { keep_alive: 0, slow: 0, fast: u32::MAX };
    c.bump(UsageStrategy::Fast);
    assert_eq!(c.fast, u32::MAX);
    c.bump(UsageStrategy::Slow);
    assert_eq!(c.slow, 1);
}
