use cluster_utils::bybit::{maybe_round_price, parse_side, start_of_day_millis, BybitTrade, PRICE_SCALE};
use cluster_utils::decimal::parse_units;
use cluster_utils::common::Side;
use cluster_utils::json_array::frame_element;

#[test]
fn prices_above_ten_thousand_round_to_tens() {
    assert_eq!(maybe_round_price(43_214 * PRICE_SCALE + PRICE_SCALE / 2), 43_210 * PRICE_SCALE);
    assert_eq!(maybe_round_price(43_215 * PRICE_SCALE), 43_220 * PRICE_SCALE);
    assert_eq!(maybe_round_price(10_001 * PRICE_SCALE), 10_000 * PRICE_SCALE);
}

#[test]
fn prices_above_one_thousand_round_to_fives() {
    assert_eq!(maybe_round_price(2_346 * PRICE_SCALE), 2_345 * PRICE_SCALE);
    assert_eq!(maybe_round_price(2_348 * PRICE_SCALE), 2_350 * PRICE_SCALE);
    assert_eq!(maybe_round_price(10_000 * PRICE_SCALE), 10_000 * PRICE_SCALE);
}

#[test]
fn small_prices_are_kept() {
    assert_eq!(maybe_round_price(1_000 * PRICE_SCALE), 1_000 * PRICE_SCALE);
    assert_eq!(maybe_round_price(123_456_789), 123_456_789);
}

#[test]
fn day_start_in_utc() {
    assert_eq!(start_of_day_millis(1_700_000_000_000), 1_699_920_000_000);
    assert_eq!(start_of_day_millis(86_400_000), 86_400_000);
    assert_eq!(start_of_day_millis(-1), -86_400_000);
}

#[test]
fn sides_parse() {
    assert_eq!(parse_side(&"Buy".to_string()), Side::Buy);
    assert_eq!(parse_side(&"Sell".to_string()), Side::Sell);
    assert_eq!(parse_side(&"buy".to_string()), Side::Unknown);
}

#[test]
fn archive_row_becomes_trade() {
    let row = BybitTrade {
        timestamp: 1_700_000_000_123,
        symbol: "BTCUSD".to_string(),
        side: "Sell".to_string(),
        price: 37_004 * PRICE_SCALE,
        volume: 250,
    };
    let t = row.to_trade().unwrap();
    assert_eq!(t.price, 37_000 * PRICE_SCALE);
    assert_eq!(t.side, Side::Sell);
    assert_eq!(t.symbol, "BTCUSD");
    assert_eq!(t.timestamp(), 1_700_000_000_123);
    assert_eq!(t.size(), 250);
    let bad = BybitTrade { side: "X".to_string(), ..row };
    assert!(bad.to_trade().is_none());
}

#[test]
fn array_frames_have_no_trailing_separator() {
    let els: Vec<Vec<u8>> = vec![b"{\"a\":1}".to_vec(), b"{}".to_vec(), b"[2]".to_vec()];
    let mut out = b"[".to_vec();
    for (i, e) in els.iter().enumerate() {
        out.extend(frame_element(i, e));
    }
    out.extend(b"]");
    assert_eq!(String::from_utf8(out).unwrap(), "[{\"a\":1},\n{},\n[2]]");
    assert_eq!(frame_element(0, &b"x".to_vec()), b"x".to_vec());
}

fn row(ts: &str, side: &str, price: &str, volume: &str) -> Vec<String> {
    vec![ts, "BTCUSD", side, "PlusTick", price, "x", "y", "z", "w", volume]
        .into_iter()
        .map(|s| s.to_string())
        .collect()
}

#[test]
fn decimals_read_in_fixed_units() {
    assert_eq!(parse_units(b"43214.5", 8), Some(4_321_450_000_000));
    assert_eq!(parse_units(b"0.001", 8), Some(100_000));
    assert_eq!(parse_units(b"1700000000.1234", 3), Some(1_700_000_000_123));
    assert_eq!(parse_units(b"12", 3), Some(12_000));
    assert_eq!(parse_units(b"7.123456789", 8), Some(712_345_678));
}

#[test]
fn malformed_decimals_are_refused() {
    assert_eq!(parse_units(b"", 8), None);
    assert_eq!(parse_units(b".5", 8), None);
    assert_eq!(parse_units(b"5.", 8), None);
    assert_eq!(parse_units(b"1.2.3", 8), None);
    assert_eq!(parse_units(b"-1", 8), None);
    assert_eq!(parse_units(b"1e5", 8), None);
    assert_eq!(parse_units(b"18446744073709551616", 0), None);
    assert_eq!(parse_units(b"18446744073709551615", 0), Some(u64::MAX));
    assert_eq!(parse_units(b"184467440737.09551616", 8), None);
}

#[test]
fn archive_columns_parse_into_row() {
    let r = BybitTrade::parse(&row("1700000000.1234", "Buy", "37004.5", "0.25")).unwrap();
    assert_eq!(r.timestamp, 1_700_000_000_123);
    assert_eq!(r.symbol, "BTCUSD");
    assert_eq!(r.side, "Buy");
    assert_eq!(r.price, 3_700_450_000_000);
    assert_eq!(r.volume, 25_000_000);
    let t = r.to_trade().unwrap();
    assert_eq!(t.price, 3_700_000_000_000);
    assert_eq!(t.side, Side::Buy);
}

#[test]
fn bad_archive_rows_are_refused() {
    assert!(BybitTrade::parse(&row("abc", "Buy", "1.0", "1")).is_none());
    assert!(BybitTrade::parse(&row("1.0", "Buy", "1,0", "1")).is_none());
    assert!(BybitTrade::parse(&row("99999999999999999", "Buy", "1.0", "1")).is_none());
    let short: Vec<String> = vec!["1".to_string(), "X".to_string()];
    assert!(BybitTrade::parse(&short).is_none());
}
