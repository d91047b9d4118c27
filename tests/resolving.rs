use token_price::cache::{PriceCache, TokenPrice};
use token_price::monitor::PriceMonitor;
use token_price::resolver::{select_best_price, MarketDataFetcher, ResolveError, ResolveStep};
use token_price::source::{price_record, SourceFailure};

const ONE: u128 = 1_000_000_000_000_000_000;

fn record(mint: &str, usd: u128, timestamp: u64, source: &str) -> TokenPrice {
    TokenPrice {
        mint: mint.to_string(),
        price_usd: usd,
        price_sol: usd / 150,
        volume_24h: 0,
        market_cap: 0,
        timestamp,
        source: source.to_string(),
    }
}

fn failure(msg: &str) -> SourceFailure {
    SourceFailure { message: msg.to_string() }
}

/// A price source that counts how often it is asked.
struct CountingSource {
    calls: usize,
    answer: Option<TokenPrice>,
}

impl CountingSource {
    fn fetch(&mut self) -> Result<TokenPrice, SourceFailure> {
        self.calls += 1;
        match &self.answer {
            Some(t) => Ok(t.clone()),
            None => Err(failure("unavailable")),
        }
    }
}

fn resolve(
    fetcher: &mut MarketDataFetcher,
    sources: &mut Vec<CountingSource>,
    mint: &str,
    now: u64,
) -> Result<TokenPrice, ResolveError> {
    match fetcher.next_step(mint, now) {
        ResolveStep::Cached(t) => Ok(t),
        ResolveStep::QuerySources => {
            let outcomes = sources.iter_mut().map(|s| s.fetch()).collect();
            fetcher.fetch_token_price(mint, outcomes)
        }
    }
}

#[test]
fn cache_keeps_record_while_fresh() {
    let mut cache = PriceCache::new(30);
    let r = record("m", ONE, 100, "jupiter");
    cache.put("m", r.clone());
    let got = cache.get("m", 100).unwrap();
    assert_eq!(got.price_usd, ONE);
    assert_eq!(got.timestamp, 100);
    assert_eq!(got.source, "jupiter");
    assert!(cache.get("m", 129).is_some());
    assert!(cache.get("m", 130).is_none());
    assert!(cache.get("m", 1000).is_none());
    assert!(cache.get("other", 100).is_none());
}

#[test]
fn cache_put_overwrites() {
    let mut cache = PriceCache::new(30);
    cache.put("m", record("m", ONE, 100, "a"));
    cache.put("m", record("m", 2 * ONE, 90, "b"));
    assert_eq!(cache.len(), 1);
    let got = cache.get("m", 100).unwrap();
    assert_eq!(got.price_usd, 2 * ONE);
    assert_eq!(got.source, "b");
}

#[test]
fn eviction_removes_only_stale_entries() {
    let mut cache = PriceCache::new(30);
    cache.put("old", record("old", ONE, 100, "a"));
    cache.put("new", record("new", ONE, 120, "a"));
    cache.put("edge", record("edge", ONE, 101, "a"));
    cache.evict_stale(131);
    assert_eq!(cache.len(), 1);
    assert!(cache.get("new", 131).is_some());
    assert!(cache.get("old", 0).is_none());
    assert!(cache.get("edge", 0).is_none());
    cache.evict_stale(150);
    assert_eq!(cache.len(), 0);
}

#[test]
fn second_resolve_within_ttl_asks_no_source() {
    let mut fetcher = MarketDataFetcher::new(30);
    let mut sources = vec![CountingSource { calls: 0, answer: Some(record("m", ONE, 1000, "a")) }];
    let first = resolve(&mut fetcher, &mut sources, "m", 1000).unwrap();
    assert_eq!(sources[0].calls, 1);
    let second = resolve(&mut fetcher, &mut sources, "m", 1029).unwrap();
    assert_eq!(sources[0].calls, 1);
    assert_eq!(second.price_usd, first.price_usd);
    assert_eq!(second.timestamp, first.timestamp);
    resolve(&mut fetcher, &mut sources, "m", 1030).unwrap();
    assert_eq!(sources[0].calls, 2);
}

#[test]
fn two_failing_sources_of_three() {
    let mut fetcher = MarketDataFetcher::new(30);
    let mut sources = vec![
        CountingSource { calls: 0, answer: None },
        CountingSource { calls: 0, answer: Some(record("m", 3 * ONE, 5, "birdeye")) },
        CountingSource { calls: 0, answer: None },
    ];
    let got = resolve(&mut fetcher, &mut sources, "m", 5).unwrap();
    assert_eq!(got.source, "birdeye");
    assert_eq!(got.price_usd, 3 * ONE);
    assert_eq!(fetcher.get_market_stats().cached_prices, 1);
    assert_eq!(fetcher.cached_price("m", 6).unwrap().source, "birdeye");
}

#[test]
fn first_success_is_selected() {
    let mut fetcher = MarketDataFetcher::new(30);
    let outcomes = vec![
        Err(failure("down")),
        Ok(record("m", ONE, 5, "first")),
        Ok(record("m", 2 * ONE, 5, "second")),
    ];
    let got = fetcher.fetch_token_price("m", outcomes).unwrap();
    assert_eq!(got.source, "first");
    let all = vec![record("m", ONE, 1, "x"), record("m", 2 * ONE, 1, "y")];
    assert_eq!(select_best_price(&all).source, "x");
}

#[test]
fn all_sources_failing_is_no_data() {
    let mut fetcher = MarketDataFetcher::new(30);
    let r = fetcher.fetch_token_price("m", vec![Err(failure("a")), Err(failure("b"))]);
    assert_eq!(r.unwrap_err(), ResolveError::NoData);
    assert_eq!(fetcher.fetch_token_price("m", vec![]).unwrap_err(), ResolveError::NoData);
    assert_eq!(fetcher.get_market_stats().cached_prices, 0);
    assert!(matches!(fetcher.next_step("m", 0), ResolveStep::QuerySources));
}

#[test]
fn clear_expired_cache_drops_stale_records() {
    let mut fetcher = MarketDataFetcher::new(10);
    fetcher.fetch_token_price("a", vec![Ok(record("a", ONE, 0, "s"))]).unwrap();
    fetcher.fetch_token_price("b", vec![Ok(record("b", ONE, 5, "s"))]).unwrap();
    fetcher.clear_expired_cache(10);
    assert_eq!(fetcher.get_market_stats().cached_prices, 1);
    assert!(fetcher.cached_price("b", 10).is_some());
}

#[test]
fn record_derives_numeraire_price() {
    let t = price_record("m", 3 * ONE, Some(150 * ONE), 100 * ONE, None, Some(7), 9, "jupiter")
        .unwrap();
    assert_eq!(t.price_sol, 20_000_000_000_000_000);
    assert_eq!(t.price_usd, 3 * ONE);
    assert_eq!(t.volume_24h, 0);
    assert_eq!(t.market_cap, 7);
    assert_eq!(t.timestamp, 9);
    assert_eq!(t.mint, "m");
    assert_eq!(t.source, "jupiter");
}

#[test]
fn record_falls_back_to_default_numeraire_price() {
    let a = price_record("m", 3 * ONE, None, 150 * ONE, None, None, 0, "s").unwrap();
    assert_eq!(a.price_sol, 20_000_000_000_000_000);
    let b = price_record("m", 3 * ONE, Some(0), 150 * ONE, None, None, 0, "s").unwrap();
    assert_eq!(b.price_sol, 20_000_000_000_000_000);
    assert!(price_record("m", u128::MAX, Some(1), 1, None, None, 0, "s").is_none());
}

#[test]
fn monitor_cycle() {
    let mut m = PriceMonitor::new(2000, ONE / 2, 30);
    assert_eq!(m.interval_ms(), 2000);
    assert!(matches!(m.next_step("m", 0), ResolveStep::QuerySources));
    m.record_outcomes("m", vec![Ok(record("m", ONE, 0, "s"))]).unwrap();
    assert!(matches!(m.next_step("m", 29), ResolveStep::Cached(_)));
    m.finish_cycle(30);
    assert!(matches!(m.next_step("m", 30), ResolveStep::QuerySources));
    let venues = vec![];
    assert!(m.evaluate("m", &venues, 0).is_none());
}
