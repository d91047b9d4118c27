use token_price::arbitrage::{
    collect_venue_prices, detect_opportunity, evaluate_prices, VenuePrice, VenueReserves,
};
use token_price::decimal::mul_pow10_divmod;
use token_price::pool::{implied_price, parse_amount, PriceError, TokenBalance};

const ONE: u128 = 1_000_000_000_000_000_000;

fn bal(amount: &str, decimals: u8) -> TokenBalance {
    TokenBalance { amount: amount.to_string(), decimals }
}

fn vp(venue: &str, price: u128) -> VenuePrice {
    VenuePrice { venue: venue.to_string(), price }
}

fn pool(venue: &str, base: &str, quote: &str) -> VenueReserves {
    VenueReserves { venue: venue.to_string(), base: bal(base, 0), quote: bal(quote, 0) }
}

#[test]
fn price_formula_example() {
    let p = implied_price(&bal("1000", 0), &bal("50", 0)).unwrap();
    assert_eq!(p, 50_000_000_000_000_000);
    assert_eq!(p as f64 / ONE as f64, 0.05);
}

#[test]
fn price_uses_decimals() {
    // one base token (6 places) against two quote tokens (9 places)
    let p = implied_price(&bal("1000000", 6), &bal("2000000000", 9)).unwrap();
    assert_eq!(p, 2 * ONE);
}

#[test]
fn price_rounds_down() {
    let p = implied_price(&bal("3", 0), &bal("1", 0)).unwrap();
    assert_eq!(p, 333_333_333_333_333_333);
}

#[test]
fn price_with_many_quote_decimals() {
    // 10^19 / 10^30 per base unit
    let p = implied_price(&bal("1", 0), &bal("10000000000000000000", 30)).unwrap();
    assert_eq!(p, 10_000_000);
}

#[test]
fn zero_base_reserve_is_refused() {
    for quote in ["0", "1", "50", "18446744073709551615"] {
        match implied_price(&bal("0", 0), &bal(quote, 0)) {
            Err(PriceError::ZeroReserve) => {}
            other => panic!("expected a zero reserve failure, got {:?}", other),
        }
    }
    match implied_price(&bal("0", 9), &bal("5", 3)) {
        Err(PriceError::ZeroReserve) => {}
        other => panic!("expected a zero reserve failure, got {:?}", other),
    }
}

#[test]
fn malformed_amounts_are_refused() {
    match implied_price(&bal("12a", 0), &bal("1", 0)) {
        Err(PriceError::InvalidAmount(t)) => assert_eq!(t, "12a"),
        other => panic!("unexpected {:?}", other),
    }
    match implied_price(&bal("10", 0), &bal("-1", 0)) {
        Err(PriceError::InvalidAmount(t)) => assert_eq!(t, "-1"),
        other => panic!("unexpected {:?}", other),
    }
    // the base amount is read before the zero check
    match implied_price(&bal("0", 0), &bal("x", 0)) {
        Err(PriceError::InvalidAmount(t)) => assert_eq!(t, "x"),
        other => panic!("unexpected {:?}", other),
    }
}

#[test]
fn price_out_of_range() {
    match implied_price(&bal("1", 40), &bal("18446744073709551615", 0)) {
        Err(PriceError::OutOfRange) => {}
        other => panic!("unexpected {:?}", other),
    }
}

#[test]
fn amounts_parse_like_u64() {
    assert_eq!(parse_amount("0"), Some(0));
    assert_eq!(parse_amount("+42"), Some(42));
    assert_eq!(parse_amount("007"), Some(7));
    assert_eq!(parse_amount("18446744073709551615"), Some(u64::MAX));
    assert_eq!(parse_amount("18446744073709551616"), None);
    assert_eq!(parse_amount(""), None);
    assert_eq!(parse_amount("+"), None);
    assert_eq!(parse_amount("-0"), None);
    assert_eq!(parse_amount("1.5"), None);
    assert_eq!(parse_amount(" 1"), None);
}

#[test]
fn scaled_division_is_exact() {
    assert_eq!(mul_pow10_divmod(2, 20, 100), Some((2_000_000_000_000_000_000, 0)));
    assert_eq!(mul_pow10_divmod(1, 1, 3), Some((3, 1)));
    assert_eq!(mul_pow10_divmod(u128::MAX, 0, 1), Some((u128::MAX, 0)));
    assert_eq!(mul_pow10_divmod(u128::MAX, 1, 1), None);
    assert_eq!(mul_pow10_divmod(u128::MAX, 1, u128::MAX), Some((10, 0)));
}

#[test]
fn selection_and_threshold() {
    let prices = vec![vp("A", ONE), vp("B", 1_020_000_000_000_000_000)];
    let c = evaluate_prices("mint", &prices, ONE / 2, 7).unwrap();
    assert_eq!(c.best_buy_dex, "A");
    assert_eq!(c.best_buy_price, ONE);
    assert_eq!(c.best_sell_dex, "B");
    assert_eq!(c.best_sell_price, 1_020_000_000_000_000_000);
    assert_eq!(c.price_spread, 20_000_000_000_000_000);
    assert_eq!(c.potential_profit_percent, 2 * ONE);
    assert_eq!(c.token_mint, "mint");
    assert_eq!(c.dex_prices.len(), 2);
    assert_eq!(c.timestamp, 7);
    assert!(evaluate_prices("mint", &prices, 5 * ONE, 7).is_none());
    // the profit must exceed the threshold, not reach it
    assert!(evaluate_prices("mint", &prices, 2 * ONE, 7).is_none());
    assert!(evaluate_prices("mint", &prices, 2 * ONE - 1, 7).is_some());
}

#[test]
fn selection_order_does_not_matter() {
    let prices = vec![vp("B", 1_020_000_000_000_000_000), vp("C", ONE + 1), vp("A", ONE)];
    let c = evaluate_prices("m", &prices, ONE / 2, 0).unwrap();
    assert_eq!(c.best_buy_dex, "A");
    assert_eq!(c.best_sell_dex, "B");
}

#[test]
fn ties_take_the_earliest_venue() {
    let prices = vec![vp("A", ONE), vp("B", ONE), vp("C", 2 * ONE), vp("D", 2 * ONE)];
    let c = evaluate_prices("m", &prices, 0, 0).unwrap();
    assert_eq!(c.best_buy_dex, "A");
    assert_eq!(c.best_sell_dex, "C");
    assert_eq!(c.potential_profit_percent, 100 * ONE);
}

#[test]
fn equal_prices_give_no_opportunity() {
    let prices = vec![vp("A", ONE), vp("B", ONE)];
    assert!(evaluate_prices("m", &prices, 0, 0).is_none());
}

#[test]
fn single_venue_never_reports() {
    assert!(evaluate_prices("m", &vec![vp("A", ONE)], 0, 0).is_none());
    assert!(evaluate_prices("m", &vec![], 0, 0).is_none());
    assert!(detect_opportunity("m", &vec![pool("raydium", "10", "20")], 0, 0).is_none());
}

#[test]
fn zero_buy_price_is_unbounded_profit() {
    let prices = vec![vp("A", 0), vp("B", 1)];
    let c = evaluate_prices("m", &prices, u128::MAX, 0).unwrap();
    assert_eq!(c.potential_profit_percent, u128::MAX);
    assert!(evaluate_prices("m", &vec![vp("A", 0), vp("B", 0)], 0, 0).is_none());
}

#[test]
fn venue_prices_skip_failures_and_merge_venues() {
    let venues = vec![
        pool("raydium", "100", "1"),
        pool("pump", "0", "5"),
        pool("pump", "100", "2"),
        pool("raydium", "100", "3"),
        pool("orca", "bad", "1"),
    ];
    let ps = collect_venue_prices(&venues);
    assert_eq!(ps.len(), 2);
    assert_eq!(ps[0].venue, "raydium");
    assert_eq!(ps[0].price, 30_000_000_000_000_000);
    assert_eq!(ps[1].venue, "pump");
    assert_eq!(ps[1].price, 20_000_000_000_000_000);
}

#[test]
fn opportunity_from_pools() {
    let venues = vec![pool("raydium", "1000", "50"), pool("pump", "1000", "51")];
    let c = detect_opportunity("tok", &venues, ONE / 2, 3).unwrap();
    assert_eq!(c.best_buy_dex, "raydium");
    assert_eq!(c.best_sell_dex, "pump");
    assert_eq!(c.price_spread, 1_000_000_000_000_000);
    assert_eq!(c.potential_profit_percent, 2 * ONE);
    assert!(detect_opportunity("tok", &venues, 3 * ONE, 3).is_none());
}
