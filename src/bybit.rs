use vstd::prelude::*;
use crate::common::{Side, Trade};
use crate::decimal::{decimal_units, is_decimal, parse_units};
use vstd::utf8::encode_utf8;

verus! {

/// Price and volume units per unit of the quoted value.
pub const PRICE_SCALE: u64 = 100_000_000;

/// Milliseconds in one UTC day.
pub const DAY_MILLIS: i64 = 86_400_000;

/// One row of an exchange trade archive, with its numbers already in the
/// library's integer units.
pub struct BybitTrade {
    /// Milliseconds since the Unix epoch.
    pub timestamp: i64,
    pub symbol: String,
    /// `"Buy"` or `"Sell"`.
    pub side: String,
    pub price: u64,
    pub volume: u64,
}

/// Columns of an archive row: timestamp in seconds, symbol, side, price and
/// volume.
pub const TIMESTAMP_COLUMN: usize = 0;
pub const SYMBOL_COLUMN: usize = 1;
pub const SIDE_COLUMN: usize = 2;
pub const PRICE_COLUMN: usize = 4;
pub const VOLUME_COLUMN: usize = 9;

/// The UTF-8 bytes of column `i`.
pub open spec fn column(fields: Seq<String>, i: int) -> Seq<u8> {
    encode_utf8(fields[i]@)
}

/// A row whose numbers all read as decimals within range.
pub open spec fn row_valid(fields: Seq<String>) -> bool {
    &&& fields.len() > VOLUME_COLUMN
    &&& is_decimal(column(fields, TIMESTAMP_COLUMN as int))
    &&& decimal_units(column(fields, TIMESTAMP_COLUMN as int), 3) <= i64::MAX
    &&& is_decimal(column(fields, PRICE_COLUMN as int))
    &&& decimal_units(column(fields, PRICE_COLUMN as int), 8) <= u64::MAX - 10 * PRICE_SCALE
    &&& is_decimal(column(fields, VOLUME_COLUMN as int))
    &&& decimal_units(column(fields, VOLUME_COLUMN as int), 8) <= u64::MAX
}

fn column_units(fields: &Vec<String>, i: usize, k: usize) -> (r: Option<u64>)
    requires
        i < fields@.len(),
    ensures
        r is Some <==> is_decimal(column(fields@, i as int)) && decimal_units(column(fields@, i as int), k as int)
            <= u64::MAX,
        r matches Some(v) ==> v == decimal_units(column(fields@, i as int), k as int),
{
    let text = fields[i].as_str();
    parse_units(text.as_bytes(), k)
}

/// `p` rounded to the nearest multiple of `step`, halves away from zero.
pub open spec fn round_to(p: int, step: int) -> int
    recommends
        step > 0,
{
    ((p + step / 2) / step) * step
}

/// Coarsens prices: above 10000 to a multiple of 10, above 1000 to a multiple
/// of 5, others unchanged.
pub open spec fn rounded_price(p: int) -> int {
    if p > 10_000 * PRICE_SCALE {
        round_to(p, 10 * PRICE_SCALE as int)
    } else if p > 1_000 * PRICE_SCALE {
        round_to(p, 5 * PRICE_SCALE as int)
    } else {
        p
    }
}

pub fn maybe_round_price(price: u64) -> (r: u64)
    requires
        price <= u64::MAX - 10 * PRICE_SCALE,
    ensures
        r == rounded_price(price as int),
{
    if price > 10_000 * PRICE_SCALE {
        let step: u64 = 10 * PRICE_SCALE;
        let x = price + step / 2;
        let q = x / step;
        proof {
            assert(q * step <= x) by (nonlinear_arith)
                requires
                    step > 0,
                    q == x / step,
            ;
        }
        q * step
    } else if price > 1_000 * PRICE_SCALE {
        let step: u64 = 5 * PRICE_SCALE;
        let x = price + step / 2;
        let q = x / step;
        proof {
            assert(q * step <= x) by (nonlinear_arith)
                requires
                    step > 0,
                    q == x / step,
            ;
        }
        q * step
    } else {
        price
    }
}

/// Start of the UTC day that holds the instant `ts`.
pub open spec fn day_start(ts: int) -> int {
    ts - ts % (DAY_MILLIS as int)
}

pub fn start_of_day_millis(ts: i64) -> (r: i64)
    requires
        ts >= i64::MIN + DAY_MILLIS,
    ensures
        r == day_start(ts as int),
{
    let rem = ts.checked_rem_euclid(DAY_MILLIS).unwrap();
    ts - rem
}

pub open spec fn side_of(s: Seq<char>) -> Side {
    if s == "Buy"@ {
        Side::Buy
    } else if s == "Sell"@ {
        Side::Sell
    } else {
        Side::Unknown
    }
}

/// Reads a side as the archive writes it.
pub fn parse_side(s: &String) -> (r: Side)
    ensures
        r == side_of(s@),
{
    let buy = "Buy".to_string();
    let sell = "Sell".to_string();
    if *s == buy {
        Side::Buy
    } else if *s == sell {
        Side::Sell
    } else {
        Side::Unknown
    }
}

impl BybitTrade {
    /// Reads a row of archive columns: the timestamp to whole milliseconds,
    /// price and volume to units of `10^-8`, extra digits dropped. `None` when
    /// a number is malformed or out of range, or columns are missing.
    pub fn parse(fields: &Vec<String>) -> (r: Option<BybitTrade>)
        ensures
            r is Some <==> row_valid(fields@),
            r matches Some(t) ==> {
                &&& t.timestamp == decimal_units(column(fields@, TIMESTAMP_COLUMN as int), 3)
                &&& t.symbol@ == fields@[SYMBOL_COLUMN as int]@
                &&& t.side@ == fields@[SIDE_COLUMN as int]@
                &&& t.price == decimal_units(column(fields@, PRICE_COLUMN as int), 8)
                &&& t.volume == decimal_units(column(fields@, VOLUME_COLUMN as int), 8)
            },
    {
        if fields.len() <= VOLUME_COLUMN {
            return None;
        }
        let timestamp = match column_units(fields, TIMESTAMP_COLUMN, 3) {
            Some(v) => v,
            None => {
                return None;
            },
        };
        let price = match column_units(fields, PRICE_COLUMN, 8) {
            Some(v) => v,
            None => {
                return None;
            },
        };
        let volume = match column_units(fields, VOLUME_COLUMN, 8) {
            Some(v) => v,
            None => {
                return None;
            },
        };
        if timestamp > i64::MAX as u64 || price > u64::MAX - 10 * PRICE_SCALE {
            return None;
        }
        Some(
            BybitTrade {
                timestamp: timestamp as i64,
                symbol: fields[SYMBOL_COLUMN].clone(),
                side: fields[SIDE_COLUMN].clone(),
                price,
                volume,
            },
        )
    }

    /// The trade this row records, with its price coarsened; `None` when the
    /// side is neither buy nor sell.
    pub fn to_trade(&self) -> (r: Option<Trade>)
        requires
            self.price <= u64::MAX - 10 * PRICE_SCALE,
        ensures
            side_of(self.side@) == Side::Unknown ==> r is None,
            side_of(self.side@) != Side::Unknown ==> (r matches Some(t) && t.symbol@ == self.symbol@
                && t.price == rounded_price(self.price as int) && t.volume == self.volume
                && t.timestamp == self.timestamp && t.side == side_of(self.side@)),
    {
        let side = parse_side(&self.side);
        match side {
            Side::Unknown => None,
            _ => Some(
                Trade::new(
                    self.symbol.clone(),
                    maybe_round_price(self.price),
                    self.volume,
                    self.timestamp,
                    side,
                ),
            ),
        }
    }
}

} // verus!
