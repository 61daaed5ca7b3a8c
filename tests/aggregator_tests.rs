use cluster_utils::aggregator::{aggregate_all, TimeRule, TimeframeAggregator, TimestampResolution};
use cluster_utils::cluster::{Cluster, ClusterError};
use cluster_utils::common::{Side, Trade};

fn trade(price: u64, volume: u64, ts: i64, side: Side) -> Trade {
    Trade::new("ETHUSDT".to_string(), price, volume, ts, side)
}

fn feed() -> Vec<Trade> {
    let mut v = Vec::new();
    let mut ts: i64 = 1_700_000_000_000;
    for i in 0..500u64 {
        let side = if i % 3 == 0 { Side::Sell } else { Side::Buy };
        v.push(trade(1000 + (i * 7) % 13, 1 + i % 5, ts, side));
        ts += 1_500 + ((i * 37) % 11) as i64 * 1_000;
    }
    v
}

fn sealed(rs: &[Result<Cluster, ClusterError>]) -> Vec<&Cluster> {
    rs.iter().filter_map(|r| r.as_ref().ok()).collect()
}

#[test]
fn time_rule_closes_window_after_one_period() {
    let mut rule = TimeRule::new(60, TimestampResolution::Millisecond);
    assert_eq!(rule.period, 60_000);
    assert_eq!(rule.advance(1_000), 0);
    assert_eq!(rule.reference_timestamp, 1_000);
    assert_eq!(rule.advance(61_000), 0);
    assert_eq!(rule.advance(61_001), 1);
    assert_eq!(rule.reference_timestamp, 61_000);
    assert_eq!(rule.advance(200_000), 2);
    assert_eq!(rule.reference_timestamp, 181_000);
}

#[test]
fn aggregator_emits_sealed_bucket_on_boundary() {
    let mut agg = TimeframeAggregator::new(1, TimestampResolution::Millisecond);
    assert!(agg.update(&trade(10, 1, 1_000, Side::Buy)).is_empty());
    assert!(agg.update(&trade(11, 2, 1_500, Side::Sell)).is_empty());
    let mut out = agg.update(&trade(12, 3, 2_500, Side::Buy));
    assert_eq!(out.len(), 1);
    let closed = out.remove(0).unwrap();
    assert_eq!(closed.height, Some(2));
    assert_eq!(closed.volume, Some(3));
    assert_eq!(closed.ts, 1_500);
    let last = agg.finish().unwrap();
    assert_eq!(last.height, Some(1));
    assert_eq!(last.volume, Some(3));
    assert_eq!(last.levels[0].price, 12);
    assert_eq!(last.ts, 2_500);
}

#[test]
fn window_without_trades_reports_empty_bucket() {
    let agg = TimeframeAggregator::new(60, TimestampResolution::Millisecond);
    assert_eq!(agg.finish().err(), Some(ClusterError::EmptyBucket));
    let rs = aggregate_all(&Vec::new(), 60, TimestampResolution::Millisecond);
    assert_eq!(rs.len(), 1);
    assert_eq!(rs[0].as_ref().err(), Some(&ClusterError::EmptyBucket));
}

#[test]
fn skipped_windows_report_empty_buckets() {
    let trades = vec![trade(10, 1, 1, Side::Buy), trade(11, 2, 120_002, Side::Sell)];
    let rs = aggregate_all(&trades, 60, TimestampResolution::Millisecond);
    assert_eq!(rs.len(), 3);
    assert_eq!(rs[0].as_ref().unwrap().volume, Some(1));
    assert_eq!(rs[1].as_ref().err(), Some(&ClusterError::EmptyBucket));
    assert_eq!(rs[2].as_ref().unwrap().volume, Some(2));

    let mut agg = TimeframeAggregator::new(60, TimestampResolution::Millisecond);
    assert!(agg.update(&trades[0]).is_empty());
    let out = agg.update(&trades[1]);
    assert_eq!(out.len(), 2);
    assert_eq!(out[0].as_ref().unwrap().ts, 1);
    assert_eq!(out[1].as_ref().err(), Some(&ClusterError::EmptyBucket));
}

#[test]
fn rejected_trade_moves_no_window() {
    let with = vec![
        trade(10, 1, 1, Side::Buy),
        trade(10, 1, 60_002, Side::Unknown),
        trade(10, 1, 120_003, Side::Buy),
        trade(10, 1, 120_004, Side::Buy),
    ];
    let without = vec![with[0].clone(), with[2].clone(), with[3].clone()];
    let a = aggregate_all(&with, 60, TimestampResolution::Millisecond);
    let b = aggregate_all(&without, 60, TimestampResolution::Millisecond);
    assert_eq!(a.len(), b.len());
    for (x, y) in a.iter().zip(b.iter()) {
        match (x, y) {
            (Ok(x), Ok(y)) => {
                assert_eq!(x.levels, y.levels);
                assert_eq!(x.ts, y.ts);
                assert_eq!(x.volume, y.volume);
            }
            (Err(x), Err(y)) => assert_eq!(x, y),
            _ => panic!("results differ"),
        }
    }

    let mut agg = TimeframeAggregator::new(1, TimestampResolution::Millisecond);
    assert!(agg.update(&trade(10, 1, 1_000, Side::Unknown)).is_empty());
    assert_eq!(agg.rejected, 1);
    assert_eq!(agg.rule.reference_timestamp, 0);
    assert!(agg.cluster.levels.is_empty());
    assert!(agg.update(&trade(10, 1, 2_500, Side::Buy)).is_empty());
    assert_eq!(agg.rule.reference_timestamp, 2_500);
    assert_eq!(agg.finish().unwrap().volume, Some(1));
}

#[test]
fn every_timeframe_sees_every_trade_once() {
    let trades = feed();
    for window in [1i64, 5, 60, 300] {
        let rs = aggregate_all(&trades, window, TimestampResolution::Millisecond);
        let buckets = sealed(&rs);
        let mut prev_ts = i64::MIN;
        let mut trades_seen: u64 = 0;
        for c in &buckets {
            assert!(c.ts > prev_ts);
            prev_ts = c.ts;
            trades_seen += c.levels.iter().map(|l| (l.buy_trades + l.sell_trades) as u64).sum::<u64>();
        }
        assert_eq!(trades_seen, trades.len() as u64);
        assert_eq!(buckets.last().unwrap().ts, trades.last().unwrap().timestamp);
    }
}

#[test]
fn two_timeframes_conserve_volume() {
    let trades = feed();
    let short = aggregate_all(&trades, 60, TimestampResolution::Millisecond);
    let long = aggregate_all(&trades, 300, TimestampResolution::Millisecond);
    assert!(long.len() <= short.len());
    let total: u128 = trades.iter().map(|t| t.volume as u128).sum();
    let sum = |rs: &Vec<Result<Cluster, ClusterError>>| -> u128 { sealed(rs).iter().map(|c| c.volume.unwrap()).sum() };
    assert_eq!(sum(&short), total);
    assert_eq!(sum(&long), total);
    assert!(short.len() > 1);
}
