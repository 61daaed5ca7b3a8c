use cluster_utils::cluster::{pressure_zone, Cluster, ClusterError, Level, Pressure, MAX_LEVEL_VOLUME};
use cluster_utils::common::{Side, Trade};

fn trade(price: u64, volume: u64, ts: i64, side: Side) -> Trade {
    Trade::new("BTCUSDT".to_string(), price, volume, ts, side)
}

#[test]
fn same_price_trades_accumulate() {
    let mut c = Cluster::new();
    c.update(&trade(100, 3, 1, Side::Buy)).unwrap();
    c.update(&trade(100, 4, 2, Side::Sell)).unwrap();
    c.update(&trade(100, 5, 3, Side::Buy)).unwrap();
    c.update(&trade(101, 7, 4, Side::Sell)).unwrap();
    assert_eq!(c.levels.len(), 2);
    let l = c.levels[0];
    assert_eq!(l.price, 100);
    assert_eq!(l.volume, 12);
    assert_eq!(l.volume_delta, 4);
    assert_eq!(l.buy_trades, 2);
    assert_eq!(l.sell_trades, 1);
    assert_eq!(l.trades_delta, 1);
    assert_eq!(c.ts, 4);
}

#[test]
fn finalized_levels_ascend_and_height_counts_them() {
    let mut c = Cluster::new();
    for (i, p) in [105u64, 99, 120, 100, 99, 110].iter().enumerate() {
        c.update(&trade(*p, 1, i as i64, Side::Buy)).unwrap();
    }
    c.finalize().unwrap();
    let prices: Vec<u64> = c.levels.iter().map(|l| l.price).collect();
    assert_eq!(prices, vec![99, 100, 105, 110, 120]);
    assert_eq!(c.height, Some(5));
}

#[test]
fn point_of_control_ties_go_to_lowest_price() {
    let mut c = Cluster::new();
    c.update(&trade(300, 5, 1, Side::Buy)).unwrap();
    c.update(&trade(200, 5, 2, Side::Sell)).unwrap();
    c.update(&trade(100, 2, 3, Side::Buy)).unwrap();
    c.finalize().unwrap();
    let poc = c.poc.unwrap();
    assert_eq!(poc.price, 200);
    assert_eq!(poc.volume, 5);
    assert_eq!(c.pressure, Some(Pressure::Middle));
}

#[test]
fn pressure_zone_boundaries() {
    assert_eq!(pressure_zone(32, 100), Pressure::Top);
    assert_eq!(pressure_zone(33, 100), Pressure::Middle);
    assert_eq!(pressure_zone(66, 100), Pressure::Middle);
    assert_eq!(pressure_zone(67, 100), Pressure::Bottom);
    assert_eq!(pressure_zone(0, 1), Pressure::Top);
    assert_eq!(pressure_zone(1, 3), Pressure::Middle);
    assert_eq!(pressure_zone(2, 3), Pressure::Bottom);
}

#[test]
fn finalize_twice_is_rejected_and_changes_nothing() {
    let mut c = Cluster::new();
    c.update(&trade(100, 1, 1, Side::Buy)).unwrap();
    c.update(&trade(101, 2, 2, Side::Sell)).unwrap();
    assert_eq!(c.finalize(), Ok(()));
    let before = c.clone();
    assert_eq!(c.finalize(), Err(ClusterError::AlreadyFinalized));
    assert_eq!(c.levels, before.levels);
    assert_eq!(c.poc, before.poc);
    assert_eq!(c.pressure, before.pressure);
    assert_eq!(c.height, before.height);
    assert_eq!(c.volume, before.volume);
    assert_eq!(c.volume_delta, before.volume_delta);
    assert_eq!(c.trades_delta, before.trades_delta);
}

#[test]
fn three_trades_end_to_end() {
    let mut c = Cluster::new();
    c.update(&trade(100, 1, 1, Side::Buy)).unwrap();
    c.update(&trade(100, 2, 2, Side::Sell)).unwrap();
    c.update(&trade(105, 1, 3, Side::Buy)).unwrap();
    c.finalize().unwrap();
    assert_eq!(
        c.levels[0],
        Level { price: 100, volume: 3, volume_delta: -1, buy_trades: 1, sell_trades: 1, trades_delta: 0 }
    );
    assert_eq!(
        c.levels[1],
        Level { price: 105, volume: 1, volume_delta: 1, buy_trades: 1, sell_trades: 0, trades_delta: 1 }
    );
    assert_eq!(c.poc, Some(c.levels[0]));
    assert_eq!(c.height, Some(2));
    assert_eq!(c.pressure, Some(Pressure::Top));
    assert_eq!(c.volume, Some(4));
    assert_eq!(c.volume_delta, Some(0));
    assert_eq!(c.trades_delta, Some(1));
}

#[test]
fn empty_bucket_does_not_finalize() {
    let mut c = Cluster::new();
    assert_eq!(c.finalize(), Err(ClusterError::EmptyBucket));
    assert_eq!(c.height, None);
    assert_eq!(c.poc, None);
}

#[test]
fn unknown_side_is_rejected() {
    let mut c = Cluster::new();
    assert_eq!(c.update(&trade(100, 1, 1, Side::Unknown)), Err(ClusterError::InvalidSide));
    assert!(c.levels.is_empty());
    assert_eq!(Level::new(&trade(100, 1, 1, Side::Unknown)), Err(ClusterError::InvalidSide));
}

#[test]
fn level_volume_overflow_is_rejected() {
    let mut c = Cluster::new();
    c.update(&trade(100, MAX_LEVEL_VOLUME, 1, Side::Buy)).unwrap();
    assert_eq!(c.update(&trade(100, 1, 2, Side::Sell)), Err(ClusterError::Overflow));
    assert_eq!(c.levels[0].volume, MAX_LEVEL_VOLUME);
    assert_eq!(c.levels[0].sell_trades, 0);
    assert_eq!(Level::new(&trade(1, MAX_LEVEL_VOLUME + 1, 1, Side::Buy)), Err(ClusterError::Overflow));
}

#[test]
fn sealed_bucket_takes_no_trade() {
    let mut c = Cluster::new();
    c.update(&trade(100, 1, 1, Side::Buy)).unwrap();
    c.finalize().unwrap();
    assert_eq!(c.update(&trade(100, 1, 2, Side::Buy)), Err(ClusterError::AlreadyFinalized));
    assert_eq!(c.levels[0].volume, 1);
}

#[test]
fn level_update_tallies_both_sides() {
    let mut l = Level::new(&trade(50, 10, 1, Side::Sell)).unwrap();
    assert_eq!(l.volume_delta, -10);
    assert_eq!(l.trades_delta, -1);
    l.update(&trade(50, 4, 2, Side::Buy)).unwrap();
    assert_eq!(l.volume, 14);
    assert_eq!(l.volume_delta, -6);
    assert_eq!(l.buy_trades, 1);
    assert_eq!(l.sell_trades, 1);
    assert_eq!(l.trades_delta, 0);
}
