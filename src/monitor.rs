use crate::arbitrage::{is_report, venue_prices, PriceComparison, VenueReserves};
use crate::cache::{is_fresh, TokenPrice};
use crate::resolver::{resolve_step, successes, MarketDataFetcher, ResolveError, ResolveStep};
use crate::source::SourceFailure;
use vstd::prelude::*;

verus! {

/// Drives the resolver over a fixed list of tokens, one pass every
/// `monitoring_interval_ms`, evicting stale records after each pass. The
/// caller runs the loop and performs the source queries; this holds the
/// state and takes the decisions.
pub struct PriceMonitor {
    market_fetcher: MarketDataFetcher,
    monitoring_interval_ms: u64,
    price_threshold: u128,
}

impl PriceMonitor {
    pub closed spec fn wf(&self) -> bool {
        self.market_fetcher.wf()
    }

    pub closed spec fn fetcher(&self) -> MarketDataFetcher {
        self.market_fetcher
    }

    pub closed spec fn interval(&self) -> u64 {
        self.monitoring_interval_ms
    }

    pub closed spec fn threshold(&self) -> u128 {
        self.price_threshold
    }

    /// `price_threshold` is a profit in percent, fixed point with
    /// `PRICE_DECIMALS` places.
    pub fn new(monitoring_interval_ms: u64, price_threshold: u128, cache_ttl_seconds: u64) -> (r:
        PriceMonitor)
        ensures
            r.wf(),
            r.fetcher().cache() == Map::<Seq<char>, TokenPrice>::empty(),
            r.fetcher().ttl() == cache_ttl_seconds,
            r.interval() == monitoring_interval_ms,
            r.threshold() == price_threshold,
    {
        PriceMonitor {
            market_fetcher: MarketDataFetcher::new(cache_ttl_seconds),
            monitoring_interval_ms,
            price_threshold,
        }
    }

    pub fn interval_ms(&self) -> (r: u64)
        ensures
            r == self.interval(),
    {
        self.monitoring_interval_ms
    }

    /// What resolving `mint` at `now` takes.
    pub fn next_step(&self, mint: &str, now: u64) -> (r: ResolveStep)
        requires
            self.wf(),
        ensures
            r == resolve_step(self.fetcher().cache(), self.fetcher().ttl(), mint@, now),
    {
        self.market_fetcher.next_step(mint, now)
    }

    /// Completes the resolution of `mint` from the outcomes of its sources.
    pub fn record_outcomes(
        &mut self,
        mint: &str,
        outcomes: Vec<Result<TokenPrice, SourceFailure>>,
    ) -> (r: Result<TokenPrice, ResolveError>)
        requires
            old(self).wf(),
        ensures
            final(self).wf(),
            final(self).interval() == old(self).interval(),
            final(self).threshold() == old(self).threshold(),
            final(self).fetcher().ttl() == old(self).fetcher().ttl(),
            successes(outcomes@).len() == 0 ==> r == Err::<TokenPrice, ResolveError>(
                ResolveError::NoData,
            ) && final(self).fetcher().cache() == old(self).fetcher().cache(),
            successes(outcomes@).len() > 0 ==> r == Ok::<TokenPrice, ResolveError>(
                successes(outcomes@)[0],
            ) && final(self).fetcher().cache() == old(self).fetcher().cache().insert(
                mint@,
                successes(outcomes@)[0],
            ),
    {
        self.market_fetcher.fetch_token_price(mint, outcomes)
    }

    /// Ends a pass over the tokens: drops the records stale at `now`.
    pub fn finish_cycle(&mut self, now: u64)
        requires
            old(self).wf(),
        ensures
            final(self).wf(),
            final(self).interval() == old(self).interval(),
            final(self).threshold() == old(self).threshold(),
            final(self).fetcher().ttl() == old(self).fetcher().ttl(),
            forall|k: Seq<char>| #[trigger]
                final(self).fetcher().cache().contains_key(k) == (old(
                    self,
                ).fetcher().cache().contains_key(k) && is_fresh(
                    old(self).fetcher().cache()[k].timestamp,
                    old(self).fetcher().ttl(),
                    now,
                )),
            forall|k: Seq<char>| #[trigger]
                final(self).fetcher().cache().contains_key(k) ==> final(self).fetcher().cache()[k]
                    == old(self).fetcher().cache()[k],
    {
        self.market_fetcher.clear_expired_cache(now);
    }

    /// The arbitrage report for `mint` against the configured threshold.
    pub fn evaluate(&self, mint: &str, venues: &Vec<VenueReserves>, now: u64) -> (r: Option<
        PriceComparison,
    >)
        ensures
            is_report(mint@, venue_prices(venues@), self.threshold(), now, r),
    {
        self.market_fetcher.calculate_arbitrage_opportunities(
            mint,
            venues,
            self.price_threshold,
            now,
        )
    }
}

} // verus!
