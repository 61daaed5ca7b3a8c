use vstd::prelude::*;
use crate::cluster::{
    Cluster, ClusterError, MAX_LEVEL_VOLUME, count_at, fits, lemma_volume_conserved, total_volume,
    volume_at,
};
use crate::common::{Side, Trade};

verus! {

/// The unit in which trade timestamps are counted.
#[derive(Debug, Clone, Copy, PartialEq, Eq, Structural)]
pub enum TimestampResolution {
    Second,
    Millisecond,
    Microsecond,
    Nanosecond,
}

pub open spec fn units_per_second(r: TimestampResolution) -> int {
    match r {
        TimestampResolution::Second => 1,
        TimestampResolution::Millisecond => 1_000,
        TimestampResolution::Microsecond => 1_000_000,
        TimestampResolution::Nanosecond => 1_000_000_000,
    }
}

/// Time-based bucketing: the first trade sets the reference timestamp, the
/// start of the open window. A trade more than one period past it closes the
/// open window and every window that it skips, and the reference moves on to
/// the start of the window that holds the trade.
#[derive(Debug, Clone, Copy, PartialEq, Eq, Structural)]
pub struct TimeRule {
    /// Start of the open window; zero until the first trade.
    pub reference_timestamp: i64,
    /// Window length in timestamp units.
    pub period: i64,
}

/// The open window's start as a trade at `ts` sees it.
pub open spec fn window_start(reference: i64, ts: i64) -> int {
    if reference == 0 {
        ts as int
    } else {
        reference as int
    }
}

/// Whether a trade at `ts` falls past the window that starts at `reference`.
pub open spec fn triggers(reference: i64, period: i64, ts: i64) -> bool {
    ts - window_start(reference, ts) > period
}

/// How many windows a trade at `ts` closes: the open one and those it skips.
pub open spec fn windows_closed(reference: i64, period: i64, ts: i64) -> int {
    if triggers(reference, period, ts) {
        (ts - window_start(reference, ts) - 1) / (period as int)
    } else {
        0
    }
}

/// The window start after a trade at `ts`.
pub open spec fn next_reference(reference: i64, period: i64, ts: i64) -> int {
    window_start(reference, ts) + windows_closed(reference, period, ts) * period
}

impl TimeRule {
    /// A rule with windows of `window_secs` seconds over timestamps in `resolution` units.
    pub fn new(window_secs: i64, resolution: TimestampResolution) -> (r: TimeRule)
        requires
            window_secs > 0,
            window_secs * units_per_second(resolution) <= i64::MAX,
        ensures
            r.reference_timestamp == 0,
            r.period == window_secs * units_per_second(resolution),
    {
        let multiplier: i64 = match resolution {
            TimestampResolution::Second => 1,
            TimestampResolution::Millisecond => 1_000,
            TimestampResolution::Microsecond => 1_000_000,
            TimestampResolution::Nanosecond => 1_000_000_000,
        };
        TimeRule { reference_timestamp: 0, period: window_secs * multiplier }
    }

    /// Moves the rule to the window of a trade at `ts`; returns how many
    /// windows that closes.
    pub fn advance(&mut self, ts: i64) -> (closed: u64)
        requires
            old(self).period > 0,
        ensures
            closed == windows_closed(old(self).reference_timestamp, old(self).period, ts),
            final(self).period == old(self).period,
            final(self).reference_timestamp == next_reference(
                old(self).reference_timestamp,
                old(self).period,
                ts,
            ),
    {
        if self.reference_timestamp == 0 {
            self.reference_timestamp = ts;
        }
        let gap: i128 = ts as i128 - self.reference_timestamp as i128;
        if gap > self.period as i128 {
            let x: u64 = (gap - 1) as u64;
            let p: u64 = self.period as u64;
            let j: u64 = x / p;
            proof {
                assert(j * p <= x) by (nonlinear_arith)
                    requires
                        p > 0,
                        j == x / p,
                ;
            }
            self.reference_timestamp = (self.reference_timestamp as i128 + (j as i128) * (
            self.period as i128)) as i64;
            j
        } else {
            0
        }
    }
}

/// A trade that the rule and the buckets take up: it has a side, and a level
/// can hold its volume.
pub open spec fn valid_trade(t: Trade) -> bool {
    t.side != Side::Unknown && t.volume <= MAX_LEVEL_VOLUME
}

/// The rule's window start, and how many windows it has closed, after the
/// trades `ts`; invalid trades are skipped.
pub open spec fn rule_state(ts: Seq<Trade>, period: i64) -> (int, nat)
    decreases ts.len(),
{
    if ts.len() == 0 {
        (0, 0)
    } else {
        let prev = rule_state(ts.drop_last(), period);
        let t = ts.last();
        if !valid_trade(t) {
            prev
        } else {
            (
                next_reference(prev.0 as i64, period, t.timestamp),
                prev.1 + windows_closed(prev.0 as i64, period, t.timestamp) as nat,
            )
        }
    }
}

/// Timestamp of the first valid trade of `ts`, zero when there is none.
pub open spec fn first_valid(ts: Seq<Trade>) -> int
    decreases ts.len(),
{
    if ts.len() == 0 {
        0
    } else if first_valid(ts.drop_last()) != 0 {
        first_valid(ts.drop_last())
    } else if valid_trade(ts.last()) {
        ts.last().timestamp as int
    } else {
        0
    }
}

proof fn lemma_rule_progress(ts: Seq<Trade>, p: i64, q: i64)
    requires
        0 < p <= q,
        forall|k: int| 0 <= k < ts.len() ==> #[trigger] ts[k].timestamp > 0,
    ensures
        first_valid(ts) == 0 ==> rule_state(ts, p) == (0int, 0nat) && rule_state(ts, q) == (0int, 0nat),
        first_valid(ts) != 0 ==> {
            &&& first_valid(ts) > 0
            &&& rule_state(ts, p).0 == first_valid(ts) + rule_state(ts, p).1 * p
            &&& rule_state(ts, q).0 == first_valid(ts) + rule_state(ts, q).1 * q
            &&& 0 < rule_state(ts, p).0 <= i64::MAX
            &&& 0 < rule_state(ts, q).0 <= i64::MAX
        },
        rule_state(ts, q).1 <= rule_state(ts, p).1,
    decreases ts.len(),
{
    if ts.len() > 0 {
        let dl = ts.drop_last();
        assert forall|k: int| 0 <= k < dl.len() implies #[trigger] dl[k].timestamp > 0 by {
            assert(dl[k] == ts[k]);
        }
        lemma_rule_progress(dl, p, q);
        let t = ts.last().timestamp as int;
        assert(t > 0);
        if valid_trade(ts.last()) {
            if first_valid(dl) == 0 {
                assert(0 * p == 0 && 0 * q == 0);
            } else {
                let b = first_valid(dl);
                let (rp, cp) = rule_state(dl, p);
                let (rq, cq) = rule_state(dl, q);
                assert(cp * p >= 0 && cq * q >= 0) by (nonlinear_arith)
                    requires
                        p > 0,
                        q > 0,
                ;
                let jp = windows_closed(rp as i64, p, t as i64);
                let jq = windows_closed(rq as i64, q, t as i64);
                if t - rp > p {
                    assert(jp * p <= t - rp - 1 && t - rp - 1 < (jp + 1) * p && jp >= 0) by (nonlinear_arith)
                        requires
                            p > 0,
                            t - rp - 1 >= 0,
                            jp == (t - rp - 1) / (p as int),
                    ;
                }
                if t - rq > q {
                    assert(jq * q <= t - rq - 1 && t - rq - 1 < (jq + 1) * q && jq >= 0) by (nonlinear_arith)
                        requires
                            q > 0,
                            t - rq - 1 >= 0,
                            jq == (t - rq - 1) / (q as int),
                    ;
                }
                let cp2 = cp + jp;
                let cq2 = cq + jq;
                assert(rp + jp * p == b + cp2 * p) by (nonlinear_arith)
                    requires
                        rp == b + cp * p,
                        cp2 == cp + jp,
                ;
                assert(rq + jq * q == b + cq2 * q) by (nonlinear_arith)
                    requires
                        rq == b + cq * q,
                        cq2 == cq + jq,
                ;
                assert(t - b <= (cp2 + 1) * p) by (nonlinear_arith)
                    requires
                        rp == b + cp * p,
                        cp2 == cp + jp,
                        t - rp > p ==> t - rp - 1 < (jp + 1) * p,
                        !(t - rp > p) ==> jp == 0,
                ;
                if t - rq > q {
                    assert(cq2 <= cp2) by (nonlinear_arith)
                        requires
                            rq == b + cq * q,
                            cq2 == cq + jq,
                            jq * q <= t - rq - 1,
                            t - b <= (cp2 + 1) * p,
                            0 < p <= q,
                            cp2 >= 0,
                            cq2 >= 0,
                    ;
                }
            }
        }
    }
}

/// A longer window never closes more windows than a shorter one over the
/// same trades, when every timestamp is positive.
pub proof fn lemma_longer_windows_fewer_buckets(ts: Seq<Trade>, p: i64, q: i64)
    requires
        0 < p <= q,
        forall|k: int| 0 <= k < ts.len() ==> #[trigger] ts[k].timestamp > 0,
    ensures
        rule_state(ts, q).1 <= rule_state(ts, p).1,
{
    lemma_rule_progress(ts, p, q);
}

/// Whether a bucket that has taken in `ts` accepts `t`.
pub open spec fn accepts(ts: Seq<Trade>, t: Trade) -> bool {
    t.side != Side::Unknown && fits(ts, t)
}

/// Aggregates one timeframe: holds the rule and the one open bucket.
pub struct TimeframeAggregator {
    pub rule: TimeRule,
    pub cluster: Cluster,
    /// Trades that no bucket could take in.
    pub rejected: u64,
}

impl TimeframeAggregator {
    pub open spec fn wf(&self) -> bool {
        &&& self.rule.period > 0
        &&& self.cluster.wf()
        &&& !self.cluster.is_finalized()
    }

    pub fn new(window_secs: i64, resolution: TimestampResolution) -> (r: TimeframeAggregator)
        requires
            window_secs > 0,
            window_secs * units_per_second(resolution) <= i64::MAX,
        ensures
            r.wf(),
            r.rule.reference_timestamp == 0,
            r.rule.period == window_secs * units_per_second(resolution),
            r.cluster.trades@.len() == 0,
            r.rejected == 0,
    {
        TimeframeAggregator {
            rule: TimeRule::new(window_secs, resolution),
            cluster: Cluster::new(),
            rejected: 0,
        }
    }

    fn count_rejected(&mut self)
        ensures
            final(self).rule == old(self).rule,
            final(self).cluster == old(self).cluster,
            final(self).rejected as int == if old(self).rejected < u64::MAX {
                old(self).rejected + 1
            } else {
                old(self).rejected as int
            },
    {
        if self.rejected < u64::MAX {
            self.rejected = self.rejected + 1;
        }
    }

    /// Takes a trade into the open bucket; counts it as rejected if the
    /// bucket refuses it.
    fn take(&mut self, trade: &Trade)
        requires
            old(self).wf(),
        ensures
            final(self).wf(),
            final(self).rule == old(self).rule,
            accepts(old(self).cluster.trades@, *trade) ==> final(self).cluster.trades@
                == old(self).cluster.trades@.push(*trade) && final(self).rejected == old(self).rejected,
            !accepts(old(self).cluster.trades@, *trade) ==> final(self).cluster.same_as(&old(self).cluster)
                && final(self).rejected as int == if old(self).rejected < u64::MAX {
                old(self).rejected + 1
            } else {
                old(self).rejected as int
            },
    {
        let res = self.cluster.update(trade);
        if res.is_err() {
            self.count_rejected();
        }
    }

    /// Feeds one trade. A trade without a side, or too large for any level,
    /// is counted as rejected and changes nothing else. When a trade falls
    /// past the open window, the result holds one entry per window it
    /// closes: first the open bucket, sealed (or `EmptyBucket` when it took
    /// in no trade), then `EmptyBucket` for each window skipped; the trade
    /// then opens a fresh bucket.
    pub fn update(&mut self, trade: &Trade) -> (r: Vec<Result<Cluster, ClusterError>>)
        requires
            old(self).wf(),
        ensures
            final(self).wf(),
            final(self).rule.period == old(self).rule.period,
            !valid_trade(*trade) ==> {
                &&& r@.len() == 0
                &&& final(self).rule == old(self).rule
                &&& final(self).cluster.same_as(&old(self).cluster)
                &&& final(self).rejected as int == if old(self).rejected < u64::MAX {
                    old(self).rejected + 1
                } else {
                    old(self).rejected as int
                }
            },
            valid_trade(*trade) ==> {
                &&& final(self).rule.reference_timestamp == next_reference(
                    old(self).rule.reference_timestamp,
                    old(self).rule.period,
                    trade.timestamp,
                )
                &&& r@.len() == windows_closed(
                    old(self).rule.reference_timestamp,
                    old(self).rule.period,
                    trade.timestamp,
                )
            },
            r@.len() > 0 ==> {
                &&& r@[0] is Err <==> old(self).cluster.levels@.len() == 0
                &&& r@[0] matches Err(e) ==> e == ClusterError::EmptyBucket
                &&& r@[0] matches Ok(c) ==> c.wf() && c.is_finalized() && c.sealed_stats() && c.trades@
                    == old(self).cluster.trades@ && c.ts == old(self).cluster.ts
                &&& forall|k: int| 1 <= k < r@.len() ==> #[trigger] r@[k] == Err::<Cluster, ClusterError>(
                    ClusterError::EmptyBucket,
                )
                &&& final(self).cluster.trades@ == seq![*trade]
                &&& final(self).rejected == old(self).rejected
            },
            valid_trade(*trade) && r@.len() == 0 ==> {
                &&& accepts(old(self).cluster.trades@, *trade) ==> final(self).cluster.trades@
                    == old(self).cluster.trades@.push(*trade) && final(self).rejected == old(self).rejected
                &&& !accepts(old(self).cluster.trades@, *trade) ==> final(self).cluster.same_as(
                    &old(self).cluster,
                ) && final(self).rejected as int == if old(self).rejected < u64::MAX {
                    old(self).rejected + 1
                } else {
                    old(self).rejected as int
                }
            },
    {
        let mut out: Vec<Result<Cluster, ClusterError>> = Vec::new();
        if trade.side == Side::Unknown || trade.volume > MAX_LEVEL_VOLUME {
            self.count_rejected();
            return out;
        }
        let closed = self.rule.advance(trade.timestamp);
        if closed > 0 {
            let mut sealed = Cluster::new();
            core::mem::swap(&mut sealed, &mut self.cluster);
            proof {
                assert(self.cluster.trades@ =~= Seq::<Trade>::empty());
                assert(Seq::<Trade>::empty().push(*trade) =~= seq![*trade]);
            }
            let res = sealed.finalize();
            self.take(trade);
            match res {
                Ok(()) => out.push(Ok(sealed)),
                Err(e) => out.push(Err(e)),
            }
            let ghost first = out@[0];
            let mut k: u64 = 1;
            while k < closed
                invariant
                    1 <= k <= closed,
                    out@.len() == k,
                    out@[0] == first,
                    forall|j: int| 1 <= j < k ==> #[trigger] out@[j] == Err::<Cluster, ClusterError>(
                        ClusterError::EmptyBucket,
                    ),
                decreases closed - k,
            {
                out.push(Err(ClusterError::EmptyBucket));
                k = k + 1;
            }
        } else {
            self.take(trade);
        }
        out
    }

    /// Seals the last open bucket once the trades are exhausted.
    pub fn finish(self) -> (r: Result<Cluster, ClusterError>)
        requires
            self.wf(),
        ensures
            r is Err <==> self.cluster.levels@.len() == 0,
            r matches Err(e) ==> e == ClusterError::EmptyBucket,
            r matches Ok(c) ==> c.wf() && c.is_finalized() && c.sealed_stats() && c.trades@
                == self.cluster.trades@ && c.ts == self.cluster.ts,
    {
        let mut last = self.cluster;
        match last.finalize() {
            Ok(()) => Ok(last),
            Err(e) => Err(e),
        }
    }
}

/// The trades held by the sealed buckets of `rs`, in order.
pub open spec fn observed(rs: Seq<Result<Cluster, ClusterError>>) -> Seq<Trade>
    decreases rs.len(),
{
    if rs.len() == 0 {
        Seq::empty()
    } else {
        observed(rs.drop_last()) + match rs.last() {
            Ok(c) => c.trades@,
            Err(_) => Seq::empty(),
        }
    }
}

/// Sum of the total volumes of the sealed buckets of `rs`.
pub open spec fn bucket_volume(rs: Seq<Result<Cluster, ClusterError>>) -> int
    decreases rs.len(),
{
    if rs.len() == 0 {
        0
    } else {
        bucket_volume(rs.drop_last()) + match rs.last() {
            Ok(c) => match c.volume {
                Some(v) => v as int,
                None => 0,
            },
            Err(_) => 0,
        }
    }
}

proof fn lemma_total_concat(a: Seq<Trade>, b: Seq<Trade>)
    ensures
        total_volume(a + b) == total_volume(a) + total_volume(b),
    decreases b.len(),
{
    if b.len() == 0 {
        assert(a + b =~= a);
    } else {
        lemma_total_concat(a, b.drop_last());
        assert((a + b).drop_last() =~= a + b.drop_last());
    }
}

/// The sealed buckets of a timeframe together hold the volume of the trades
/// they took in.
pub proof fn lemma_bucket_volume(rs: Seq<Result<Cluster, ClusterError>>)
    requires
        forall|k: int| 0 <= k < rs.len() ==> (#[trigger] rs[k] matches Ok(c) ==> c.wf() && c.is_finalized()),
    ensures
        bucket_volume(rs) == total_volume(observed(rs)),
    decreases rs.len(),
{
    if rs.len() > 0 {
        let dl = rs.drop_last();
        assert forall|k: int| 0 <= k < dl.len() implies (#[trigger] dl[k] matches Ok(c) ==> c.wf()
            && c.is_finalized()) by {
            assert(dl[k] == rs[k]);
        }
        lemma_bucket_volume(dl);
        let last = rs[rs.len() - 1];
        match last {
            Ok(c) => {
                lemma_volume_conserved(&c);
                lemma_total_concat(observed(dl), c.trades@);
            },
            Err(_) => {
                assert(observed(dl) + Seq::<Trade>::empty() =~= observed(dl));
            },
        }
    }
}

/// Two timeframes fed the same trades hold the same total volume over all
/// their sealed buckets, however the windows fall.
pub proof fn lemma_timeframes_conserve_volume(
    trades: Seq<Trade>,
    a: Seq<Result<Cluster, ClusterError>>,
    b: Seq<Result<Cluster, ClusterError>>,
)
    requires
        forall|k: int| 0 <= k < a.len() ==> (#[trigger] a[k] matches Ok(c) ==> c.wf() && c.is_finalized()),
        forall|k: int| 0 <= k < b.len() ==> (#[trigger] b[k] matches Ok(c) ==> c.wf() && c.is_finalized()),
        observed(a) == trades,
        observed(b) == trades,
    ensures
        bucket_volume(a) == bucket_volume(b),
        bucket_volume(a) == total_volume(trades),
{
    lemma_bucket_volume(a);
    lemma_bucket_volume(b);
}

/// Trades that every bucket accepts: each has a side, and together they
/// cannot overflow a level.
pub open spec fn well_formed_feed(ts: Seq<Trade>) -> bool {
    &&& forall|k: int| 0 <= k < ts.len() ==> #[trigger] ts[k].side != Side::Unknown
    &&& ts.len() < u32::MAX
    &&& total_volume(ts) <= MAX_LEVEL_VOLUME
}

proof fn lemma_total_nonneg(ts: Seq<Trade>)
    ensures
        total_volume(ts) >= 0,
    decreases ts.len(),
{
    if ts.len() > 0 {
        lemma_total_nonneg(ts.drop_last());
    }
}

proof fn lemma_at_most_total(ts: Seq<Trade>, p: u64, s: Side)
    ensures
        volume_at(ts, p) <= total_volume(ts),
        count_at(ts, p, s) <= ts.len(),
    decreases ts.len(),
{
    if ts.len() > 0 {
        lemma_at_most_total(ts.drop_last(), p, s);
    }
}

proof fn lemma_prefix_total(ts: Seq<Trade>, i: int)
    requires
        0 <= i <= ts.len(),
    ensures
        total_volume(ts.take(i)) <= total_volume(ts),
    decreases ts.len(),
{
    if i < ts.len() {
        assert(ts.drop_last().take(i) =~= ts.take(i));
        lemma_prefix_total(ts.drop_last(), i);
    } else {
        assert(ts.take(i) =~= ts);
    }
}

proof fn lemma_observed_concat(a: Seq<Result<Cluster, ClusterError>>, b: Seq<Result<Cluster, ClusterError>>)
    ensures
        observed(a + b) == observed(a) + observed(b),
    decreases b.len(),
{
    if b.len() == 0 {
        assert(a + b =~= a);
        assert(observed(a) + Seq::<Trade>::empty() =~= observed(a));
    } else {
        lemma_observed_concat(a, b.drop_last());
        assert((a + b).drop_last() =~= a + b.drop_last());
        assert((a + b).last() == b.last());
        let tail = match b.last() {
            Ok(c) => c.trades@,
            Err(_) => Seq::<Trade>::empty(),
        };
        assert(observed(a) + observed(b.drop_last()) + tail =~= observed(a) + (observed(b.drop_last())
            + tail));
    }
}

proof fn lemma_observed_first(r: Seq<Result<Cluster, ClusterError>>)
    requires
        r.len() >= 1,
        forall|k: int| 1 <= k < r.len() ==> #[trigger] r[k] is Err,
    ensures
        observed(r) == match r[0] {
            Ok(c) => c.trades@,
            Err(_) => Seq::<Trade>::empty(),
        },
    decreases r.len(),
{
    let dl = r.drop_last();
    if r.len() == 1 {
        assert(dl =~= Seq::<Result<Cluster, ClusterError>>::empty());
        assert(observed(dl) == Seq::<Trade>::empty());
        assert(r.last() == r[0]);
        let x = match r[0] {
            Ok(c) => c.trades@,
            Err(_) => Seq::<Trade>::empty(),
        };
        assert(Seq::<Trade>::empty() + x =~= x);
    } else {
        assert forall|k: int| 1 <= k < dl.len() implies #[trigger] dl[k] is Err by {
            assert(dl[k] == r[k]);
        }
        lemma_observed_first(dl);
        assert(dl[0] == r[0]);
        assert(r[r.len() - 1] is Err);
        assert(observed(dl) + Seq::<Trade>::empty() =~= observed(dl));
    }
}

/// Runs one timeframe over a whole trade sequence: one entry per closed
/// window, in order, `EmptyBucket` for a window without trades, the last
/// entry for the window open when the trades end.
pub fn aggregate_all(trades: &Vec<Trade>, window_secs: i64, resolution: TimestampResolution) -> (r: Vec<
    Result<Cluster, ClusterError>,
>)
    requires
        window_secs > 0,
        window_secs * units_per_second(resolution) <= i64::MAX,
    ensures
        forall|k: int| 0 <= k < r@.len() ==> (#[trigger] r@[k] matches Ok(c) ==> c.wf() && c.is_finalized()),
        forall|k: int| 0 <= k < r@.len() ==> (#[trigger] r@[k] matches Err(e) ==> e == ClusterError::EmptyBucket),
        r@.len() == rule_state(trades@, (window_secs * units_per_second(resolution)) as i64).1 + 1,
        well_formed_feed(trades@) ==> observed(r@) == trades@,
        well_formed_feed(trades@) ==> bucket_volume(r@) == total_volume(trades@),
{
    let ghost good = well_formed_feed(trades@);
    let mut agg = TimeframeAggregator::new(window_secs, resolution);
    let ghost period = agg.rule.period;
    let mut out: Vec<Result<Cluster, ClusterError>> = Vec::new();
    let n = trades.len();
    let mut i: usize = 0;
    while i < n
        invariant
            n == trades@.len(),
            i <= n,
            agg.wf(),
            good == well_formed_feed(trades@),
            period == (window_secs * units_per_second(resolution)) as i64,
            agg.rule.period == period,
            agg.rule.reference_timestamp == rule_state(trades@.take(i as int), period).0,
            out@.len() == rule_state(trades@.take(i as int), period).1,
            forall|k: int| 0 <= k < out@.len() ==> (#[trigger] out@[k] matches Ok(c) ==> c.wf() && c.is_finalized()),
            forall|k: int| 0 <= k < out@.len() ==> (#[trigger] out@[k] matches Err(e) ==> e == ClusterError::EmptyBucket),
            good ==> observed(out@) + agg.cluster.trades@ == trades@.take(i as int),
            good ==> total_volume(agg.cluster.trades@) <= total_volume(trades@.take(i as int)),
            good ==> agg.cluster.trades@.len() <= i,
        decreases n - i,
    {
        let t = &trades[i];
        let ghost ct = agg.cluster.trades@;
        let ghost prev = out@;
        let ghost old_agg = agg;
        proof {
            assert(trades@.take(i + 1).drop_last() =~= trades@.take(i as int));
            if good {
                let ti = trades@.take(i as int);
                assert(trades@.take(i + 1) =~= ti.push(*t));
                lemma_prefix_total(trades@, i + 1);
                lemma_total_nonneg(ti);
                lemma_total_nonneg(ct);
                lemma_at_most_total(ct, t.price, t.side);
                assert(t.side != Side::Unknown);
                assert(fits(ct, *t));
                assert(valid_trade(*t));
                assert(ct.push(*t).drop_last() =~= ct);
                assert(seq![*t].drop_last() =~= Seq::<Trade>::empty());
                assert(total_volume(Seq::<Trade>::empty()) == 0);
                assert(total_volume(seq![*t]) == t.volume);
                assert(total_volume(ct.push(*t)) == total_volume(ct) + t.volume);
                assert(total_volume(trades@.take(i + 1)) == total_volume(ti) + t.volume);
                if ct.len() > 0 {
                    let c = agg.cluster;
                    assert(crate::cluster::has_price(c.levels@, ct[0].price));
                }
            }
        }
        let mut res = agg.update(t);
        let ghost got = res@;
        proof {
            if got.len() > 0 {
                assert forall|k: int| 1 <= k < got.len() implies #[trigger] got[k] is Err by {
                    assert(got[k] == Err::<Cluster, ClusterError>(ClusterError::EmptyBucket));
                }
                lemma_observed_first(got);
            }
        }
        out.append(&mut res);
        proof {
            lemma_observed_concat(prev, got);
            assert forall|k: int| 0 <= k < out@.len() implies (#[trigger] out@[k] matches Ok(c) ==> c.wf()
                && c.is_finalized()) by {
                if k >= prev.len() {
                    assert(out@[k] == got[k - prev.len()]);
                    if k > prev.len() {
                        assert(got[k - prev.len()] == Err::<Cluster, ClusterError>(ClusterError::EmptyBucket));
                    }
                } else {
                    assert(out@[k] == prev[k]);
                }
            }
            assert forall|k: int| 0 <= k < out@.len() implies (#[trigger] out@[k] matches Err(e) ==> e
                == ClusterError::EmptyBucket) by {
                if k >= prev.len() {
                    assert(out@[k] == got[k - prev.len()]);
                    if k > prev.len() {
                        assert(got[k - prev.len()] == Err::<Cluster, ClusterError>(ClusterError::EmptyBucket));
                    }
                } else {
                    assert(out@[k] == prev[k]);
                }
            }
            if good {
                if got.len() > 0 {
                    if ct.len() > 0 {
                        assert(old_agg.cluster.levels@.len() > 0);
                    } else {
                        assert(ct =~= Seq::<Trade>::empty());
                    }
                    assert(observed(out@) + agg.cluster.trades@ =~= trades@.take(i + 1));
                } else {
                    assert(observed(got) =~= Seq::<Trade>::empty());
                    assert(observed(out@) + agg.cluster.trades@ =~= trades@.take(i + 1));
                }
            }
        }
        i = i + 1;
    }
    let ghost ct = agg.cluster.trades@;
    let ghost prev = out@;
    proof {
        if good && ct.len() > 0 {
            let c = agg.cluster;
            assert(crate::cluster::has_price(c.levels@, ct[0].price));
        }
    }
    out.push(agg.finish());
    proof {
        assert(out@.drop_last() =~= prev);
        assert(trades@.take(n as int) =~= trades@);
        assert(out@.len() == rule_state(trades@, period).1 + 1);
        if good {
            assert(observed(out@) =~= trades@);
            lemma_bucket_volume(out@);
        }
    }
    out
}

} // verus!
