use station_stats::decimal::Decimal;
use station_stats::stats::Statistic;

#[test]
fn single_observation_statistics() {
    let s = Statistic::new(Decimal::new(-55));
    assert_eq!(s.min().tenths(), -55);
    assert_eq!(s.max().tenths(), -55);
    assert_eq!(s.count(), 1);
    assert_eq!(s.mean().tenths(), -55);
}

#[test]
fn push_updates_extremes_and_count() {
    let mut s = Statistic::new(Decimal::new(100));
    s.push(Decimal::new(200));
    s.push(Decimal::new(-10));
    assert_eq!(s.min().tenths(), -10);
    assert_eq!(s.max().tenths(), 200);
    assert_eq!(s.count(), 3);
    // (100 + 200 - 10) / 3 tenths, rounded to the nearest tenth
    assert_eq!(s.mean().tenths(), 97);
}

#[test]
fn merge_combines_both_sides() {
    let mut a = Statistic::new(Decimal::new(10));
    a.push(Decimal::new(30));
    let mut b = Statistic::new(Decimal::new(-20));
    b.push(Decimal::new(40));
    a.merge(&b);
    assert_eq!(a.min().tenths(), -20);
    assert_eq!(a.max().tenths(), 40);
    assert_eq!(a.count(), 4);
    assert_eq!(a.mean().tenths(), 15);
}

#[test]
fn merge_is_commutative_on_values() {
    let mut a1 = Statistic::new(Decimal::new(7));
    a1.push(Decimal::new(-3));
    let mut b1 = Statistic::new(Decimal::new(999));
    b1.push(Decimal::new(0));
    let mut a2 = Statistic::new(Decimal::new(999));
    a2.push(Decimal::new(0));
    let mut b2 = Statistic::new(Decimal::new(7));
    b2.push(Decimal::new(-3));
    a1.merge(&b1);
    a2.merge(&b2);
    assert_eq!(a1.min().tenths(), a2.min().tenths());
    assert_eq!(a1.max().tenths(), a2.max().tenths());
    assert_eq!(a1.count(), a2.count());
    assert_eq!(a1.mean().tenths(), a2.mean().tenths());
}

#[test]
fn mean_ties_round_away_from_zero() {
    let mut s = Statistic::new(Decimal::new(100));
    s.push(Decimal::new(101));
    assert_eq!(s.mean().tenths(), 101);
    let mut n = Statistic::new(Decimal::new(-100));
    n.push(Decimal::new(-101));
    assert_eq!(n.mean().tenths(), -101);
}

#[test]
fn mean_stays_between_min_and_max() {
    let mut s = Statistic::new(Decimal::new(-999));
    s.push(Decimal::new(999));
    s.push(Decimal::new(1));
    let mean = s.mean().tenths();
    assert!(s.min().tenths() <= mean && mean <= s.max().tenths());
}

#[test]
fn identical_observations_keep_mean_exact() {
    let mut s = Statistic::new(Decimal::new(427));
    for _ in 0..9999 {
        s.push(Decimal::new(427));
    }
    assert_eq!(s.count(), 10000);
    assert_eq!(s.min().tenths(), 427);
    assert_eq!(s.mean().tenths(), 427);
    assert_eq!(s.max().tenths(), 427);
}
