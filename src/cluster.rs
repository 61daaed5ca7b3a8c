use vstd::prelude::*;
use crate::common::{Side, Trade};

verus! {

/// Largest volume a single price level may accumulate.
pub const MAX_LEVEL_VOLUME: u64 = 9223372036854775807;

/// Why a trade or a bucket could not be processed.
#[derive(Debug, Clone, Copy, PartialEq, Eq, Structural)]
pub enum ClusterError {
    /// The trade's side is neither buy nor sell.
    InvalidSide,
    /// The bucket holds no price level, so it has no statistics.
    EmptyBucket,
    /// The bucket was already sealed by `finalize`.
    AlreadyFinalized,
    /// A level's volume or trade count would leave its range.
    Overflow,
}

/// Total volume of the trades at price `p`.
pub open spec fn volume_at(ts: Seq<Trade>, p: u64) -> int
    decreases ts.len(),
{
    if ts.len() == 0 {
        0
    } else {
        volume_at(ts.drop_last(), p) + if ts.last().price == p {
            ts.last().volume as int
        } else {
            0
        }
    }
}

/// Buy volume minus sell volume of the trades at price `p`.
pub open spec fn volume_delta_at(ts: Seq<Trade>, p: u64) -> int
    decreases ts.len(),
{
    if ts.len() == 0 {
        0
    } else {
        volume_delta_at(ts.drop_last(), p) + if ts.last().price != p {
            0
        } else if ts.last().side == Side::Buy {
            ts.last().volume as int
        } else {
            -(ts.last().volume as int)
        }
    }
}

/// Number of trades at price `p` on side `s`.
pub open spec fn count_at(ts: Seq<Trade>, p: u64, s: Side) -> int
    decreases ts.len(),
{
    if ts.len() == 0 {
        0
    } else {
        count_at(ts.drop_last(), p, s) + if ts.last().price == p && ts.last().side == s {
            1int
        } else {
            0
        }
    }
}

/// One price's running tally within a bucket.
#[derive(Debug, Clone, Copy, PartialEq, Eq, Structural)]
pub struct Level {
    pub price: u64,
    pub volume: u64,
    pub volume_delta: i64,
    pub buy_trades: u32,
    pub sell_trades: u32,
    pub trades_delta: i64,
}

impl Level {
    pub open spec fn wf(&self) -> bool {
        &&& self.volume <= MAX_LEVEL_VOLUME
        &&& -(self.volume as int) <= self.volume_delta <= self.volume
        &&& self.trades_delta == self.buy_trades - self.sell_trades
    }

    /// The level holds exactly the tallies of the trades at its price in `ts`.
    pub open spec fn tallies(&self, ts: Seq<Trade>) -> bool {
        &&& self.volume == volume_at(ts, self.price)
        &&& self.volume_delta == volume_delta_at(ts, self.price)
        &&& self.buy_trades == count_at(ts, self.price, Side::Buy)
        &&& self.sell_trades == count_at(ts, self.price, Side::Sell)
    }

    /// Opens a level with its first trade.
    pub fn new(trade: &Trade) -> (r: Result<Level, ClusterError>)
        ensures
            trade.side == Side::Unknown ==> r == Err::<Level, ClusterError>(ClusterError::InvalidSide),
            trade.side != Side::Unknown && trade.volume > MAX_LEVEL_VOLUME ==> r == Err::<Level, ClusterError>(ClusterError::Overflow),
            trade.side != Side::Unknown && trade.volume <= MAX_LEVEL_VOLUME ==> r is Ok,
            r matches Ok(l) ==> l.wf() && l.price == trade.price && l.tallies(seq![*trade]),
    {
        proof {
            let s = seq![*trade];
            assert(s.drop_last() =~= Seq::<Trade>::empty());
            reveal_with_fuel(volume_at, 2);
            reveal_with_fuel(volume_delta_at, 2);
            reveal_with_fuel(count_at, 2);
        }
        match trade.side {
            Side::Unknown => Err(ClusterError::InvalidSide),
            Side::Buy => {
                if trade.volume > MAX_LEVEL_VOLUME {
                    return Err(ClusterError::Overflow);
                }
                Ok(Level {
                    price: trade.price,
                    volume: trade.volume,
                    volume_delta: trade.volume as i64,
                    buy_trades: 1,
                    sell_trades: 0,
                    trades_delta: 1,
                })
            },
            Side::Sell => {
                if trade.volume > MAX_LEVEL_VOLUME {
                    return Err(ClusterError::Overflow);
                }
                Ok(Level {
                    price: trade.price,
                    volume: trade.volume,
                    volume_delta: -(trade.volume as i64),
                    buy_trades: 0,
                    sell_trades: 1,
                    trades_delta: -1,
                })
            },
        }
    }

    /// Adds one more trade at this level's price. On error the level is unchanged.
    pub fn update(&mut self, trade: &Trade) -> (r: Result<(), ClusterError>)
        requires
            old(self).wf(),
        ensures
            final(self).wf(),
            trade.side == Side::Unknown ==> r == Err::<(), ClusterError>(ClusterError::InvalidSide),
            trade.side != Side::Unknown ==> (r is Ok <==> (old(self).volume + trade.volume
                <= MAX_LEVEL_VOLUME && (trade.side == Side::Buy ==> old(self).buy_trades < u32::MAX)
                && (trade.side == Side::Sell ==> old(self).sell_trades < u32::MAX))),
            r is Err ==> *final(self) == *old(self),
            r is Err && trade.side != Side::Unknown ==> r == Err::<(), ClusterError>(ClusterError::Overflow),
            r is Ok ==> final(self).price == old(self).price,
            r is Ok ==> final(self).volume == old(self).volume + trade.volume,
            r is Ok && trade.side == Side::Buy ==> final(self).volume_delta == old(self).volume_delta + trade.volume
                && final(self).buy_trades == old(self).buy_trades + 1
                && final(self).sell_trades == old(self).sell_trades,
            r is Ok && trade.side == Side::Sell ==> final(self).volume_delta == old(self).volume_delta - trade.volume
                && final(self).sell_trades == old(self).sell_trades + 1
                && final(self).buy_trades == old(self).buy_trades,
    {
        if trade.side == Side::Unknown {
            return Err(ClusterError::InvalidSide);
        }
        if trade.volume > MAX_LEVEL_VOLUME - self.volume {
            return Err(ClusterError::Overflow);
        }
        match trade.side {
            Side::Buy => {
                if self.buy_trades == u32::MAX {
                    return Err(ClusterError::Overflow);
                }
                self.volume = self.volume + trade.volume;
                self.volume_delta = self.volume_delta + trade.volume as i64;
                self.buy_trades = self.buy_trades + 1;
                self.trades_delta = self.trades_delta + 1;
            },
            _ => {
                if self.sell_trades == u32::MAX {
                    return Err(ClusterError::Overflow);
                }
                self.volume = self.volume + trade.volume;
                self.volume_delta = self.volume_delta - trade.volume as i64;
                self.sell_trades = self.sell_trades + 1;
                self.trades_delta = self.trades_delta - 1;
            },
        }
        Ok(())
    }
}

/// Where the point of control sits within the bucket's price range.
#[derive(Debug, Clone, Copy, PartialEq, Eq, Structural)]
pub enum Pressure {
    Top,
    Middle,
    Bottom,
}

/// `Top` when `k / n < 0.33`, `Bottom` when `k / n > 0.66`, else `Middle`.
pub open spec fn pressure_of(k: int, n: int) -> Pressure {
    if 100 * k < 33 * n {
        Pressure::Top
    } else if 100 * k > 66 * n {
        Pressure::Bottom
    } else {
        Pressure::Middle
    }
}

/// Classifies a point of control at position `poc_index` among `height` levels.
pub fn pressure_zone(poc_index: usize, height: usize) -> (r: Pressure)
    ensures
        r == pressure_of(poc_index as int, height as int),
{
    if (poc_index as u128) * 100 < (height as u128) * 33 {
        Pressure::Top
    } else if (poc_index as u128) * 100 > (height as u128) * 66 {
        Pressure::Bottom
    } else {
        Pressure::Middle
    }
}

pub open spec fn strictly_ascending(levels: Seq<Level>) -> bool {
    forall|i: int, j: int| 0 <= i < j < levels.len() ==> levels[i].price < levels[j].price
}

pub open spec fn has_price(levels: Seq<Level>, p: u64) -> bool {
    exists|i: int| 0 <= i < levels.len() && levels[i].price == p
}

/// `k` is the first position of a level of maximal volume.
pub open spec fn is_poc_index(levels: Seq<Level>, k: int) -> bool {
    &&& 0 <= k < levels.len()
    &&& forall|j: int| 0 <= j < levels.len() ==> levels[j].volume <= levels[k].volume
    &&& forall|j: int| 0 <= j < k ==> levels[j].volume < levels[k].volume
}

pub open spec fn sum_volume(levels: Seq<Level>) -> int
    decreases levels.len(),
{
    if levels.len() == 0 {
        0
    } else {
        sum_volume(levels.drop_last()) + levels.last().volume
    }
}

pub open spec fn sum_volume_delta(levels: Seq<Level>) -> int
    decreases levels.len(),
{
    if levels.len() == 0 {
        0
    } else {
        sum_volume_delta(levels.drop_last()) + levels.last().volume_delta
    }
}

pub open spec fn sum_trades_delta(levels: Seq<Level>) -> int
    decreases levels.len(),
{
    if levels.len() == 0 {
        0
    } else {
        sum_trades_delta(levels.drop_last()) + levels.last().trades_delta
    }
}

/// Whether one more trade `t` keeps its level within range after the trades `ts`.
pub open spec fn fits(ts: Seq<Trade>, t: Trade) -> bool {
    &&& volume_at(ts, t.price) + t.volume <= MAX_LEVEL_VOLUME
    &&& count_at(ts, t.price, t.side) < u32::MAX
}

proof fn lemma_push(ts: Seq<Trade>, t: Trade, p: u64)
    ensures
        volume_at(ts.push(t), p) == volume_at(ts, p) + if t.price == p { t.volume as int } else { 0 },
        volume_delta_at(ts.push(t), p) == volume_delta_at(ts, p) + if t.price != p {
            0
        } else if t.side == Side::Buy {
            t.volume as int
        } else {
            -(t.volume as int)
        },
        count_at(ts.push(t), p, Side::Buy) == count_at(ts, p, Side::Buy) + if t.price == p
            && t.side == Side::Buy { 1int } else { 0 },
        count_at(ts.push(t), p, Side::Sell) == count_at(ts, p, Side::Sell) + if t.price == p
            && t.side == Side::Sell { 1int } else { 0 },
{
    assert(ts.push(t).drop_last() =~= ts);
}

proof fn lemma_absent(ts: Seq<Trade>, p: u64)
    requires
        forall|k: int| 0 <= k < ts.len() ==> ts[k].price != p,
    ensures
        volume_at(ts, p) == 0,
        volume_delta_at(ts, p) == 0,
        count_at(ts, p, Side::Buy) == 0,
        count_at(ts, p, Side::Sell) == 0,
    decreases ts.len(),
{
    if ts.len() > 0 {
        lemma_absent(ts.drop_last(), p);
    }
}

/// Position of the first level whose price is not below `p`.
fn find_position(levels: &Vec<Level>, p: u64) -> (i: usize)
    ensures
        i <= levels@.len(),
        forall|j: int| 0 <= j < i ==> levels@[j].price < p,
        i < levels@.len() ==> levels@[i as int].price >= p,
{
    let n = levels.len();
    let mut i: usize = 0;
    while i < n && levels[i].price < p
        invariant
            n == levels@.len(),
            i <= n,
            forall|j: int| 0 <= j < i ==> levels@[j].price < p,
        decreases n - i,
    {
        i = i + 1;
    }
    i
}

/// The volume profile of one time window.
#[derive(Clone)]
pub struct Cluster {
    /// Price levels, kept in strictly ascending order of price.
    pub levels: Vec<Level>,
    /// Timestamp of the last trade taken in.
    pub ts: i64,
    /// The level of greatest volume; set by `finalize`.
    pub poc: Option<Level>,
    pub pressure: Option<Pressure>,
    /// Number of levels; set by `finalize`.
    pub height: Option<usize>,
    /// Total volume over all levels; set by `finalize`.
    pub volume: Option<u128>,
    pub volume_delta: Option<i128>,
    pub trades_delta: Option<i128>,
    /// The trades taken in so far, in order.
    pub trades: Ghost<Seq<Trade>>,
}

impl Default for Cluster {
    fn default() -> (r: Cluster)
        ensures
            r.wf(),
            !r.is_finalized(),
            r.levels@.len() == 0,
            r.trades@.len() == 0,
            r.ts == 0,
    {
        Cluster::new()
    }
}

impl Cluster {
    pub open spec fn is_finalized(&self) -> bool {
        self.height is Some
    }

    /// The statistics that `finalize` derives from the levels.
    pub open spec fn sealed_stats(&self) -> bool {
        let n = self.levels@.len();
        &&& exists|k: int|
            is_poc_index(self.levels@, k) && self.poc == Some(self.levels@[k]) && self.pressure
                == Some(pressure_of(k, n as int))
        &&& self.height matches Some(h) && h == n
        &&& self.volume matches Some(v) && v == sum_volume(self.levels@)
        &&& self.volume_delta matches Some(v) && v == sum_volume_delta(self.levels@)
        &&& self.trades_delta matches Some(v) && v == sum_trades_delta(self.levels@)
    }

    /// Same levels, trades, timestamp and derived statistics.
    pub open spec fn same_as(&self, o: &Cluster) -> bool {
        &&& self.levels@ == o.levels@
        &&& self.trades@ == o.trades@
        &&& self.ts == o.ts
        &&& self.poc == o.poc
        &&& self.pressure == o.pressure
        &&& self.height == o.height
        &&& self.volume == o.volume
        &&& self.volume_delta == o.volume_delta
        &&& self.trades_delta == o.trades_delta
    }

    pub open spec fn wf(&self) -> bool {
        let levels = self.levels@;
        let ts = self.trades@;
        &&& strictly_ascending(levels)
        &&& forall|i: int|
            0 <= i < levels.len() ==> (#[trigger] levels[i]).wf() && levels[i].tallies(ts)
                && levels[i].buy_trades + levels[i].sell_trades > 0
        &&& ts.len() > 0 ==> self.ts == ts.last().timestamp
        &&& ts.len() == 0 ==> self.ts == 0
        &&& forall|k: int| 0 <= k < ts.len() ==> has_price(levels, #[trigger] ts[k].price)
        &&& forall|k: int| 0 <= k < ts.len() ==> #[trigger] ts[k].side != Side::Unknown
        &&& self.is_finalized() ==> self.sealed_stats()
        &&& !self.is_finalized() ==> {
            &&& self.poc is None
            &&& self.pressure is None
            &&& self.volume is None
            &&& self.volume_delta is None
            &&& self.trades_delta is None
        }
    }

    /// An open bucket with no trade.
    pub fn new() -> (r: Cluster)
        ensures
            r.wf(),
            !r.is_finalized(),
            r.levels@.len() == 0,
            r.trades@.len() == 0,
            r.ts == 0,
    {
        Cluster {
            levels: Vec::new(),
            ts: 0,
            poc: None,
            pressure: None,
            height: None,
            volume: None,
            volume_delta: None,
            trades_delta: None,
            trades: Ghost(Seq::empty()),
        }
    }

    /// Adds `trade` to the level at its price, opening that level if needed.
    fn update_levels(&mut self, trade: &Trade) -> (r: Result<(), ClusterError>)
        requires
            old(self).wf(),
            !old(self).is_finalized(),
        ensures
            final(self).wf(),
            !final(self).is_finalized(),
            r is Ok ==> final(self).ts == trade.timestamp,
            r is Err ==> final(self).ts == old(self).ts,
            r is Ok && has_price(old(self).levels@, trade.price) ==> final(self).levels@.len() == old(self).levels@.len(),
            r is Ok && !has_price(old(self).levels@, trade.price) ==> final(self).levels@.len() == old(self).levels@.len() + 1,
            r is Ok <==> trade.side != Side::Unknown && fits(old(self).trades@, *trade),
            trade.side == Side::Unknown ==> r == Err::<(), ClusterError>(ClusterError::InvalidSide),
            trade.side != Side::Unknown && r is Err ==> r == Err::<(), ClusterError>(ClusterError::Overflow),
            r is Ok ==> final(self).trades@ == old(self).trades@.push(*trade),
            r is Err ==> final(self).trades@ == old(self).trades@ && final(self).levels@ == old(self).levels@,
    {
        let ghost ts = self.trades@;
        let ghost levels = self.levels@;
        let p = trade.price;
        let n = self.levels.len();
        let i = find_position(&self.levels, p);
        if i < n && self.levels[i].price == p {
            let mut l = self.levels[i];
            proof {
                assert(l.tallies(ts));
            }
            let res = l.update(trade);
            if res.is_err() {
                return res;
            }
            self.levels.set(i, l);
            self.trades = Ghost(ts.push(*trade));
            self.ts = trade.timestamp;
            proof {
                let nl = self.levels@;
                let nts = self.trades@;
                assert forall|j: int| 0 <= j < nl.len() implies (#[trigger] nl[j]).wf() && nl[j].tallies(nts) by {
                    lemma_push(ts, *trade, nl[j].price);
                    assert(levels[j].tallies(ts));
                }
                assert forall|k: int| 0 <= k < nts.len() implies has_price(nl, #[trigger] nts[k].price) by {
                    if k < ts.len() {
                        assert(has_price(levels, ts[k].price));
                        let w = choose|w: int| 0 <= w < levels.len() && levels[w].price == ts[k].price;
                        assert(nl[w].price == nts[k].price);
                    } else {
                        assert(nl[i as int].price == nts[k].price);
                    }
                }
                assert forall|k: int| 0 <= k < nts.len() implies #[trigger] nts[k].side != Side::Unknown by {
                    if k < ts.len() {
                        assert(nts[k] == ts[k]);
                    }
                }
            }
            Ok(())
        } else {
            proof {
                assert forall|k: int| 0 <= k < ts.len() implies ts[k].price != p by {
                    assert(has_price(levels, ts[k].price));
                    let w = choose|w: int| 0 <= w < levels.len() && levels[w].price == ts[k].price;
                    if w < i {
                    } else {
                        assert(levels[i as int].price > p);
                        assert(levels[w].price >= levels[i as int].price);
                    }
                }
                lemma_absent(ts, p);
                lemma_absent(Seq::<Trade>::empty(), p);
                assert(seq![*trade] =~= Seq::<Trade>::empty().push(*trade));
                lemma_push(Seq::<Trade>::empty(), *trade, p);
                lemma_push(ts, *trade, p);
            }
            let l = match Level::new(trade) {
                Ok(l) => l,
                Err(e) => {
                    return Err(e);
                },
            };
            self.levels.insert(i, l);
            self.trades = Ghost(ts.push(*trade));
            self.ts = trade.timestamp;
            proof {
                let nl = self.levels@;
                let nts = self.trades@;
                assert(nl == levels.insert(i as int, l));
                assert forall|j: int| 0 <= j < nl.len() implies nl[j] == (if j < i {
                    levels[j]
                } else if j == i {
                    l
                } else {
                    levels[j - 1]
                }) by {}
                assert forall|a: int, b: int| 0 <= a < b < nl.len() implies nl[a].price < nl[b].price by {
                    if b < i {
                    } else if a > i {
                    } else if a == i {
                        assert(levels[b - 1].price >= levels[i as int].price);
                    } else if b == i {
                    } else {
                    }
                }
                assert forall|j: int| 0 <= j < nl.len() implies (#[trigger] nl[j]).wf() && nl[j].tallies(nts) by {
                    lemma_push(ts, *trade, nl[j].price);
                    if j < i {
                        assert(levels[j].tallies(ts));
                    } else if j > i {
                        assert(levels[j - 1].tallies(ts));
                    }
                }
                assert forall|k: int| 0 <= k < nts.len() implies has_price(nl, #[trigger] nts[k].price) by {
                    if k < ts.len() {
                        assert(has_price(levels, ts[k].price));
                        let w = choose|w: int| 0 <= w < levels.len() && levels[w].price == ts[k].price;
                        if w < i {
                            assert(nl[w].price == nts[k].price);
                        } else {
                            assert(nl[w + 1].price == nts[k].price);
                        }
                    } else {
                        assert(nl[i as int].price == nts[k].price);
                    }
                }
                assert forall|k: int| 0 <= k < nts.len() implies #[trigger] nts[k].side != Side::Unknown by {
                    if k < ts.len() {
                        assert(nts[k] == ts[k]);
                    }
                }
            }
            Ok(())
        }
    }

    /// Takes one trade into the bucket. A rejected trade leaves the bucket unchanged.
    pub fn update(&mut self, trade: &Trade) -> (r: Result<(), ClusterError>)
        requires
            old(self).wf(),
        ensures
            final(self).wf(),
            old(self).is_finalized() ==> r == Err::<(), ClusterError>(ClusterError::AlreadyFinalized),
            !old(self).is_finalized() ==> (r is Ok <==> trade.side != Side::Unknown && fits(old(self).trades@, *trade)),
            !old(self).is_finalized() && trade.side == Side::Unknown ==> r == Err::<(), ClusterError>(ClusterError::InvalidSide),
            !old(self).is_finalized() && trade.side != Side::Unknown && r is Err ==> r == Err::<(), ClusterError>(ClusterError::Overflow),
            r is Ok ==> final(self).trades@ == old(self).trades@.push(*trade) && final(self).ts == trade.timestamp
                && !final(self).is_finalized(),
            r is Ok && has_price(old(self).levels@, trade.price) ==> final(self).levels@.len() == old(self).levels@.len(),
            r is Ok && !has_price(old(self).levels@, trade.price) ==> final(self).levels@.len() == old(self).levels@.len() + 1,
            r is Err ==> final(self).same_as(old(self)),
    {
        if self.height.is_some() {
            return Err(ClusterError::AlreadyFinalized);
        }
        let ghost prev = *self;
        let res = self.update_levels(trade);
        if res.is_err() {
            proof {
                assert(self.levels@ =~= prev.levels@);
            }
        }
        res
    }

    /// Seals the bucket: derives the point of control (the first level of
    /// greatest volume in price order), the pressure zone, the height and the
    /// totals. Levels are already in ascending price order. A bucket is
    /// sealed at most once; an empty one has no statistics.
    pub fn finalize(&mut self) -> (r: Result<(), ClusterError>)
        requires
            old(self).wf(),
        ensures
            final(self).wf(),
            old(self).is_finalized() ==> r == Err::<(), ClusterError>(ClusterError::AlreadyFinalized),
            !old(self).is_finalized() && old(self).levels@.len() == 0 ==> r == Err::<(), ClusterError>(ClusterError::EmptyBucket),
            !old(self).is_finalized() && old(self).levels@.len() > 0 ==> r is Ok,
            r is Err ==> final(self).same_as(old(self)),
            r is Ok ==> {
                &&& final(self).is_finalized()
                &&& final(self).sealed_stats()
                &&& final(self).levels@ == old(self).levels@
                &&& final(self).trades@ == old(self).trades@
                &&& final(self).ts == old(self).ts
            },
    {
        if self.height.is_some() {
            return Err(ClusterError::AlreadyFinalized);
        }
        let n = self.levels.len();
        if n == 0 {
            return Err(ClusterError::EmptyBucket);
        }
        let ghost levels = self.levels@;
        let mut best: usize = 0;
        let mut i: usize = 1;
        while i < n
            invariant
                n == levels.len(),
                self.levels@ == levels,
                1 <= i <= n,
                best < i,
                forall|j: int| 0 <= j < i ==> levels[j].volume <= levels[best as int].volume,
                forall|j: int| 0 <= j < best ==> levels[j].volume < levels[best as int].volume,
            decreases n - i,
        {
            if self.levels[i].volume > self.levels[best].volume {
                best = i;
            }
            i = i + 1;
        }
        let pressure = pressure_zone(best, n);
        let mut volume: u128 = 0;
        let mut volume_delta: i128 = 0;
        let mut trades_delta: i128 = 0;
        let mut j: usize = 0;
        while j < n
            invariant
                n == levels.len(),
                self.levels@ == levels,
                j <= n,
                forall|k: int| 0 <= k < n ==> (#[trigger] levels[k]).wf(),
                volume == sum_volume(levels.take(j as int)),
                volume_delta == sum_volume_delta(levels.take(j as int)),
                trades_delta == sum_trades_delta(levels.take(j as int)),
                volume <= j * 9223372036854775807,
                -(j * 9223372036854775807) <= volume_delta <= j * 9223372036854775807,
                -(j * 4294967295) <= trades_delta <= j * 4294967295,
            decreases n - j,
        {
            let l = self.levels[j];
            proof {
                assert(levels.take(j + 1).drop_last() =~= levels.take(j as int));
                assert(levels[j as int].wf());
            }
            volume = volume + l.volume as u128;
            volume_delta = volume_delta + l.volume_delta as i128;
            trades_delta = trades_delta + l.trades_delta as i128;
            j = j + 1;
        }
        proof {
            assert(levels.take(n as int) =~= levels);
            assert(is_poc_index(levels, best as int));
        }
        self.poc = Some(self.levels[best]);
        self.pressure = Some(pressure);
        self.height = Some(n);
        self.volume = Some(volume);
        self.volume_delta = Some(volume_delta);
        self.trades_delta = Some(trades_delta);
        Ok(())
    }
}

/// Each level holds the summed volume of the trades taken in at its price,
/// and its trade delta is the number of buys minus the number of sells there.
pub proof fn lemma_level_sums(c: &Cluster, i: int)
    requires
        c.wf(),
        0 <= i < c.levels@.len(),
    ensures
        c.levels@[i].volume == volume_at(c.trades@, c.levels@[i].price),
        c.levels@[i].volume_delta == volume_delta_at(c.trades@, c.levels@[i].price),
        c.levels@[i].trades_delta == count_at(c.trades@, c.levels@[i].price, Side::Buy) - count_at(
            c.trades@,
            c.levels@[i].price,
            Side::Sell,
        ),
{
    assert(c.levels@[i].wf() && c.levels@[i].tallies(c.trades@));
}

/// A sealed bucket has its levels in strictly ascending price order, and its
/// height is the number of levels.
pub proof fn lemma_sealed_levels_ascending(c: &Cluster)
    requires
        c.wf(),
        c.is_finalized(),
    ensures
        strictly_ascending(c.levels@),
        c.height matches Some(h) && h == c.levels@.len(),
{
}

/// The point of control of a sealed bucket is one of its levels, no level has
/// more volume, and among levels of equal volume it has the lowest price.
pub proof fn lemma_point_of_control(c: &Cluster)
    requires
        c.wf(),
        c.is_finalized(),
    ensures
        c.poc matches Some(l) && {
            &&& exists|k: int| 0 <= k < c.levels@.len() && c.levels@[k] == l
            &&& forall|j: int| 0 <= j < c.levels@.len() ==> c.levels@[j].volume <= l.volume
            &&& forall|j: int|
                0 <= j < c.levels@.len() && c.levels@[j].volume == l.volume ==> l.price <= c.levels@[j].price
        },
{
    let levels = c.levels@;
    let k = choose|k: int|
        is_poc_index(levels, k) && c.poc == Some(levels[k]) && c.pressure == Some(
            pressure_of(k, levels.len() as int),
        );
    assert forall|j: int| 0 <= j < levels.len() && levels[j].volume == levels[k].volume implies levels[k].price
        <= levels[j].price by {
        if j < k {
        } else if j > k {
        }
    }
}

/// The pressure zone of a sealed bucket depends on the position of its point of
/// control and its height alone.
pub proof fn lemma_pressure_zone(c: &Cluster)
    requires
        c.wf(),
        c.is_finalized(),
    ensures
        exists|k: int|
            is_poc_index(c.levels@, k) && c.poc == Some(c.levels@[k]) && c.pressure == Some(
                pressure_of(k, c.height.unwrap() as int),
            ),
{
    let levels = c.levels@;
    let k = choose|k: int|
        is_poc_index(levels, k) && c.poc == Some(levels[k]) && c.pressure == Some(
            pressure_of(k, levels.len() as int),
        );
    assert(c.height.unwrap() as int == levels.len());
    assert(is_poc_index(c.levels@, k) && c.poc == Some(c.levels@[k]) && c.pressure == Some(
        pressure_of(k, c.height.unwrap() as int),
    ));
}

/// Total volume of the trades `ts`.
pub open spec fn total_volume(ts: Seq<Trade>) -> int
    decreases ts.len(),
{
    if ts.len() == 0 {
        0
    } else {
        total_volume(ts.drop_last()) + ts.last().volume
    }
}

/// Sum, over the prices of `levels`, of the volume traded at that price in `ts`.
spec fn volume_over(levels: Seq<Level>, ts: Seq<Trade>) -> int
    decreases levels.len(),
{
    if levels.len() == 0 {
        0
    } else {
        volume_over(levels.drop_last(), ts) + volume_at(ts, levels.last().price)
    }
}

proof fn lemma_volume_over_empty(levels: Seq<Level>)
    ensures
        volume_over(levels, Seq::empty()) == 0,
    decreases levels.len(),
{
    if levels.len() > 0 {
        lemma_volume_over_empty(levels.drop_last());
    }
}

proof fn lemma_volume_over_push(levels: Seq<Level>, ts: Seq<Trade>, t: Trade)
    requires
        strictly_ascending(levels),
    ensures
        volume_over(levels, ts.push(t)) == volume_over(levels, ts) + if has_price(levels, t.price) {
            t.volume as int
        } else {
            0
        },
    decreases levels.len(),
{
    if levels.len() > 0 {
        let dl = levels.drop_last();
        let last = levels.last();
        lemma_volume_over_push(dl, ts, t);
        lemma_push(ts, t, last.price);
        if has_price(levels, t.price) {
            let w = choose|w: int| 0 <= w < levels.len() && levels[w].price == t.price;
            if w < levels.len() - 1 {
                assert(dl[w].price == t.price);
            }
        }
        if has_price(dl, t.price) {
            let w = choose|w: int| 0 <= w < dl.len() && dl[w].price == t.price;
            assert(levels[w].price == t.price);
            assert(levels[w].price < levels[levels.len() - 1].price);
        }
        if last.price == t.price {
            assert(levels[levels.len() - 1].price == t.price);
        }
    }
}

proof fn lemma_volume_over_total(levels: Seq<Level>, ts: Seq<Trade>)
    requires
        strictly_ascending(levels),
        forall|k: int| 0 <= k < ts.len() ==> has_price(levels, #[trigger] ts[k].price),
    ensures
        volume_over(levels, ts) == total_volume(ts),
    decreases ts.len(),
{
    if ts.len() == 0 {
        lemma_volume_over_empty(levels);
        assert(ts =~= Seq::<Trade>::empty());
    } else {
        let dl = ts.drop_last();
        assert forall|k: int| 0 <= k < dl.len() implies has_price(levels, #[trigger] dl[k].price) by {
            assert(dl[k] == ts[k]);
        }
        lemma_volume_over_total(levels, dl);
        assert(dl.push(ts.last()) =~= ts);
        assert(has_price(levels, ts[ts.len() - 1].price));
        lemma_volume_over_push(levels, dl, ts.last());
    }
}

proof fn lemma_sum_volume_over(levels: Seq<Level>, ts: Seq<Trade>)
    requires
        forall|i: int| 0 <= i < levels.len() ==> (#[trigger] levels[i]).tallies(ts),
    ensures
        sum_volume(levels) == volume_over(levels, ts),
    decreases levels.len(),
{
    if levels.len() > 0 {
        let dl = levels.drop_last();
        assert forall|i: int| 0 <= i < dl.len() implies (#[trigger] dl[i]).tallies(ts) by {
            assert(dl[i] == levels[i]);
        }
        lemma_sum_volume_over(dl, ts);
        assert(levels[levels.len() - 1].tallies(ts));
    }
}

/// The levels of a bucket together hold exactly the volume of the trades it
/// took in.
pub proof fn lemma_volume_conserved(c: &Cluster)
    requires
        c.wf(),
    ensures
        sum_volume(c.levels@) == total_volume(c.trades@),
{
    lemma_sum_volume_over(c.levels@, c.trades@);
    lemma_volume_over_total(c.levels@, c.trades@);
}

} // verus!
