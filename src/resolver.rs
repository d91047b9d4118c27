use crate::arbitrage::{detect_opportunity, is_report, venue_prices, PriceComparison, VenueReserves};
use crate::cache::{fresh_lookup, is_fresh, PriceCache, TokenPrice};
use crate::source::SourceFailure;
use vstd::prelude::*;

verus! {

/// What resolving a token takes next.
pub enum ResolveStep {
    /// A fresh cached record answers; no source is asked.
    Cached(TokenPrice),
    /// Every configured source is to be asked, in order.
    QuerySources,
}

/// Why no record could be resolved.
#[derive(Clone, Copy, Debug, PartialEq, Eq)]
pub enum ResolveError {
    /// Every source failed.
    NoData,
}

/// How many records the resolver holds.
#[derive(Clone, Copy, Debug, PartialEq, Eq)]
pub struct MarketStats {
    pub cached_prices: usize,
}

pub open spec fn resolve_step(
    cache: Map<Seq<char>, TokenPrice>,
    ttl: u64,
    key: Seq<char>,
    now: u64,
) -> ResolveStep {
    match fresh_lookup(cache, ttl, key, now) {
        Some(t) => ResolveStep::Cached(t),
        None => ResolveStep::QuerySources,
    }
}

/// The records of the sources that succeeded, in source order.
pub open spec fn successes(outcomes: Seq<Result<TokenPrice, SourceFailure>>) -> Seq<TokenPrice>
    decreases outcomes.len(),
{
    if outcomes.len() == 0 {
        Seq::empty()
    } else {
        let prev = successes(outcomes.drop_last());
        match outcomes.last() {
            Ok(t) => prev.push(t),
            Err(_) => prev,
        }
    }
}

/// Chooses one record among those of the sources that succeeded: the first,
/// in source order.
pub fn select_best_price(prices: &Vec<TokenPrice>) -> (r: TokenPrice)
    requires
        prices.len() > 0,
    ensures
        r == prices@[0],
{
    prices[0].duplicate()
}

/// Resolves token prices through a freshness cache: a fresh cached record
/// answers at once; otherwise the outcomes of the price sources are taken,
/// one record is selected among the successes and cached.
pub struct MarketDataFetcher {
    price_cache: PriceCache,
}

impl MarketDataFetcher {
    pub closed spec fn wf(&self) -> bool {
        self.price_cache.wf()
    }

    /// The cached records, by token.
    pub closed spec fn cache(&self) -> Map<Seq<char>, TokenPrice> {
        self.price_cache@
    }

    pub closed spec fn ttl(&self) -> u64 {
        self.price_cache.ttl()
    }

    pub fn new(cache_ttl_seconds: u64) -> (r: MarketDataFetcher)
        ensures
            r.wf(),
            r.cache() == Map::<Seq<char>, TokenPrice>::empty(),
            r.ttl() == cache_ttl_seconds,
    {
        MarketDataFetcher { price_cache: PriceCache::new(cache_ttl_seconds) }
    }

    /// The record held for `mint` if it is fresh at `now`.
    pub fn cached_price(&self, mint: &str, now: u64) -> (r: Option<TokenPrice>)
        requires
            self.wf(),
        ensures
            r == fresh_lookup(self.cache(), self.ttl(), mint@, now),
    {
        self.price_cache.get(mint, now)
    }

    /// What resolving `mint` at `now` takes: the cached record when it is
    /// fresh, else a query of the sources.
    pub fn next_step(&self, mint: &str, now: u64) -> (r: ResolveStep)
        requires
            self.wf(),
        ensures
            r == resolve_step(self.cache(), self.ttl(), mint@, now),
    {
        match self.cached_price(mint, now) {
            Some(t) => ResolveStep::Cached(t),
            None => ResolveStep::QuerySources,
        }
    }

    /// Completes a resolution of `mint` from the outcomes of every
    /// configured source, in source order: failures are dropped, the first
    /// success is selected, cached under `mint` and returned. With no
    /// success the cache is left as it was.
    pub fn fetch_token_price(
        &mut self,
        mint: &str,
        outcomes: Vec<Result<TokenPrice, SourceFailure>>,
    ) -> (r: Result<TokenPrice, ResolveError>)
        requires
            old(self).wf(),
        ensures
            final(self).wf(),
            final(self).ttl() == old(self).ttl(),
            successes(outcomes@).len() == 0 ==> r == Err::<TokenPrice, ResolveError>(
                ResolveError::NoData,
            ) && final(self).cache() == old(self).cache(),
            successes(outcomes@).len() > 0 ==> r == Ok::<TokenPrice, ResolveError>(
                successes(outcomes@)[0],
            ) && final(self).cache() == old(self).cache().insert(mint@, successes(outcomes@)[0]),
    {
        let mut found: Vec<TokenPrice> = Vec::new();
        let mut i: usize = 0;
        while i < outcomes.len()
            invariant
                i <= outcomes.len(),
                found@ == successes(outcomes@.take(i as int)),
            decreases outcomes.len() - i,
        {
            let ghost t = outcomes@.take(i as int + 1);
            assert(t.drop_last() =~= outcomes@.take(i as int));
            assert(t.last() == outcomes@[i as int]);
            match &outcomes[i] {
                Ok(p) => {
                    found.push(p.duplicate());
                },
                Err(_) => {},
            }
            i = i + 1;
        }
        assert(outcomes@.take(outcomes.len() as int) =~= outcomes@);
        if found.len() == 0 {
            return Err(ResolveError::NoData);
        }
        let best = select_best_price(&found);
        self.price_cache.put(mint, best.duplicate());
        Ok(best)
    }

    /// The arbitrage report for `mint` from the pools of every venue, with
    /// profits compared against `threshold_pct`.
    pub fn calculate_arbitrage_opportunities(
        &self,
        mint: &str,
        venues: &Vec<VenueReserves>,
        threshold_pct: u128,
        now: u64,
    ) -> (r: Option<PriceComparison>)
        ensures
            is_report(mint@, venue_prices(venues@), threshold_pct, now, r),
    {
        detect_opportunity(mint, venues, threshold_pct, now)
    }

    pub fn get_market_stats(&self) -> (r: MarketStats)
        requires
            self.wf(),
        ensures
            r.cached_prices == self.cache().dom().len(),
    {
        MarketStats { cached_prices: self.price_cache.len() }
    }

    /// Drops every cached record that is stale at `now`.
    pub fn clear_expired_cache(&mut self, now: u64)
        requires
            old(self).wf(),
        ensures
            final(self).wf(),
            final(self).ttl() == old(self).ttl(),
            forall|k: Seq<char>|
                #[trigger] final(self).cache().contains_key(k) == (old(self).cache().contains_key(k)
                    && is_fresh(old(self).cache()[k].timestamp, old(self).ttl(), now)),
            forall|k: Seq<char>| #[trigger]
                final(self).cache().contains_key(k) ==> final(self).cache()[k] == old(
                    self,
                ).cache()[k],
            forall|k: Seq<char>| #[trigger]
                final(self).cache().contains_key(k) ==> is_fresh(
                    final(self).cache()[k].timestamp,
                    final(self).ttl(),
                    now,
                ),
    {
        self.price_cache.evict_stale(now);
    }
}

/// Once a resolution of `mint` has cached `record`, resolving `mint` again
/// while the record is fresh asks no source: the cached record answers.
pub proof fn lemma_cache_first(
    cache: Map<Seq<char>, TokenPrice>,
    ttl: u64,
    mint: Seq<char>,
    record: TokenPrice,
    now: u64,
)
    requires
        is_fresh(record.timestamp, ttl, now),
    ensures
        resolve_step(cache.insert(mint, record), ttl, mint, now) == ResolveStep::Cached(record),
{
}

/// When any source succeeds, there is a success to select, and it is the
/// record of one of the sources that succeeded: failures of the others do
/// not reach the result.
pub proof fn lemma_partial_source_tolerance(outcomes: Seq<Result<TokenPrice, SourceFailure>>)
    requires
        exists|i: int| 0 <= i < outcomes.len() && outcomes[i] is Ok,
    ensures
        successes(outcomes).len() > 0,
        outcomes.contains(Ok(successes(outcomes)[0])),
    decreases outcomes.len(),
{
    let prev = outcomes.drop_last();
    if exists|i: int| 0 <= i < prev.len() && prev[i] is Ok {
        lemma_partial_source_tolerance(prev);
        lemma_successes_len(prev);
        let j = choose|j: int| 0 <= j < prev.len() && prev[j] == Ok::<TokenPrice, SourceFailure>(
            successes(prev)[0],
        );
        assert(outcomes[j] == prev[j]);
    } else {
        let i = choose|i: int| 0 <= i < outcomes.len() && outcomes[i] is Ok;
        if i < prev.len() {
            assert(prev[i] == outcomes[i]);
        }
        lemma_no_successes(prev);
        assert(outcomes[outcomes.len() - 1] == outcomes.last());
    }
}

proof fn lemma_successes_len(outcomes: Seq<Result<TokenPrice, SourceFailure>>)
    ensures
        successes(outcomes).len() <= outcomes.len(),
    decreases outcomes.len(),
{
    if outcomes.len() > 0 {
        lemma_successes_len(outcomes.drop_last());
    }
}

proof fn lemma_no_successes(outcomes: Seq<Result<TokenPrice, SourceFailure>>)
    requires
        forall|i: int| 0 <= i < outcomes.len() ==> !(outcomes[i] is Ok),
    ensures
        successes(outcomes).len() == 0,
    decreases outcomes.len(),
{
    if outcomes.len() > 0 {
        let prev = outcomes.drop_last();
        assert forall|i: int| 0 <= i < prev.len() implies !(prev[i] is Ok) by {
            assert(prev[i] == outcomes[i]);
        }
        lemma_no_successes(prev);
        assert(outcomes.last() == outcomes[outcomes.len() - 1]);
    }
}

} // verus!
