use vstd::prelude::*;

verus! {

/// Which side of the book took liquidity. `Unknown` is never produced by a
/// well-formed trade source; the aggregation core rejects it.
#[derive(Debug, Clone, Copy, PartialEq, Eq, Structural)]
pub enum Side {
    Buy,
    Sell,
    Unknown,
}

impl Default for Side {
    fn default() -> (r: Side)
        ensures
            r == Side::Unknown,
    {
        Side::Unknown
    }
}

/// One executed trade.
#[derive(Debug, Clone)]
pub struct Trade {
    pub symbol: String,
    /// Price in units of `10^-8`.
    pub price: u64,
    /// Traded quantity in units of `10^-8`.
    pub volume: u64,
    /// Milliseconds since the Unix epoch.
    pub timestamp: i64,
    pub side: Side,
}

impl Trade {
    pub fn new(symbol: String, price: u64, volume: u64, timestamp: i64, side: Side) -> (r: Trade)
        ensures
            r.symbol@ == symbol@,
            r.price == price,
            r.volume == volume,
            r.timestamp == timestamp,
            r.side == side,
    {
        Trade { symbol, price, volume, timestamp, side }
    }

    pub fn timestamp(&self) -> (r: i64)
        ensures
            r == self.timestamp,
    {
        self.timestamp
    }

    pub fn price(&self) -> (r: u64)
        ensures
            r == self.price,
    {
        self.price
    }

    pub fn size(&self) -> (r: u64)
        ensures
            r == self.volume,
    {
        self.volume
    }
}

} // verus!
