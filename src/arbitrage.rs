use crate::decimal::{mul_pow10_divmod, pow10};
use crate::pool::{implied_price, implied_price_value, TokenBalance};
use vstd::arithmetic::div_mod::{lemma_fundamental_div_mod, lemma_fundamental_div_mod_converse};
use vstd::pervasive::VecAdditionalExecFns;
use vstd::prelude::*;

verus! {

/// The implied price of the base asset at one venue, fixed point.
#[derive(Clone, Debug)]
pub struct VenuePrice {
    pub venue: String,
    pub price: u128,
}

impl VenuePrice {
    pub fn duplicate(&self) -> (r: VenuePrice)
        ensures
            r == *self,
    {
        VenuePrice { venue: self.venue.clone(), price: self.price }
    }
}

/// The two vault balances of one pool, under the venue name it is quoted as.
#[derive(Clone, Debug)]
pub struct VenueReserves {
    pub venue: String,
    pub base: TokenBalance,
    pub quote: TokenBalance,
}

/// A cross-venue price gap for one token. Prices and the spread are fixed
/// point with `PRICE_DECIMALS` places; so is the profit, in percent.
#[derive(Clone, Debug)]
pub struct PriceComparison {
    pub token_mint: String,
    pub dex_prices: Vec<VenuePrice>,
    pub best_buy_price: u128,
    pub best_sell_price: u128,
    pub best_buy_dex: String,
    pub best_sell_dex: String,
    pub price_spread: u128,
    pub potential_profit_percent: u128,
    pub timestamp: u64,
}

/// Index of the lowest price; the earliest one among equals.
pub open spec fn min_index(s: Seq<VenuePrice>) -> int
    decreases s.len(),
{
    if s.len() <= 1 {
        0
    } else {
        let m = min_index(s.drop_last());
        if s.last().price < s[m].price {
            s.len() - 1
        } else {
            m
        }
    }
}

/// Index of the highest price; the earliest one among equals.
pub open spec fn max_index(s: Seq<VenuePrice>) -> int
    decreases s.len(),
{
    if s.len() <= 1 {
        0
    } else {
        let m = max_index(s.drop_last());
        if s.last().price > s[m].price {
            s.len() - 1
        } else {
            m
        }
    }
}

pub proof fn lemma_min_max_index(s: Seq<VenuePrice>)
    requires
        s.len() >= 1,
    ensures
        0 <= min_index(s) < s.len(),
        0 <= max_index(s) < s.len(),
        forall|j: int| 0 <= j < s.len() ==> s[min_index(s)].price <= #[trigger] s[j].price,
        forall|j: int| 0 <= j < s.len() ==> s[max_index(s)].price >= #[trigger] s[j].price,
    decreases s.len(),
{
    if s.len() > 1 {
        let d = s.drop_last();
        lemma_min_max_index(d);
        assert(s[min_index(d)] == d[min_index(d)]);
        assert(s[max_index(d)] == d[max_index(d)]);
        assert forall|j: int| 0 <= j < s.len() implies s[min_index(s)].price <= #[trigger] s[j].price
            && s[max_index(s)].price >= s[j].price by {
            if j < s.len() - 1 {
                assert(s[j] == d[j]);
            }
        }
    }
}

/// `spread / buy * 100` exceeds `threshold / 10^18` percent.
pub open spec fn profit_exceeds(spread: nat, buy: nat, threshold: nat) -> bool {
    spread * pow10(20) > threshold * buy
}

/// `spread / buy * 100`, in percent with 18 decimal places, rounded down and
/// capped at `u128::MAX`; unbounded (the cap) when `buy` is zero and the
/// spread is not.
pub open spec fn profit_percent(spread: nat, buy: nat) -> nat {
    if buy == 0 {
        if spread > 0 {
            u128::MAX as nat
        } else {
            0
        }
    } else if (spread * pow10(20)) as int / buy as int > u128::MAX {
        u128::MAX as nat
    } else {
        ((spread * pow10(20)) as int / buy as int) as nat
    }
}

proof fn lemma_exceeds_by_quotient(x: int, q: int, r: int, b: int, t: int)
    requires
        b > 0,
        0 <= r < b,
        q >= 0,
        t >= 0,
        x == q * b + r,
    ensures
        (x > t * b) == (q > t || (q == t && r > 0)),
{
    if q > t {
        assert(q * b >= (t + 1) * b) by (nonlinear_arith)
            requires
                q >= t + 1,
                b > 0,
        ;
        assert((t + 1) * b == t * b + b) by (nonlinear_arith);
    } else if q < t {
        assert(q * b + b <= t * b) by (nonlinear_arith)
            requires
                q + 1 <= t,
                b > 0,
        ;
    }
}

/// What [`evaluate_prices`] reports for `prices`: nothing with fewer than
/// two venues; else the lowest and highest price, their spread and the
/// profit, exactly when the profit exceeds `threshold`.
pub open spec fn is_report(
    mint: Seq<char>,
    prices: Seq<VenuePrice>,
    threshold_pct: u128,
    now: u64,
    r: Option<PriceComparison>,
) -> bool {
    &&& prices.len() < 2 ==> r is None
    &&& prices.len() >= 2 ==> {
        let b = prices[min_index(prices)];
        let s = prices[max_index(prices)];
        &&& b.price <= s.price
        &&& r is Some == profit_exceeds(
            (s.price - b.price) as nat,
            b.price as nat,
            threshold_pct as nat,
        )
        &&& r matches Some(c) ==> {
            &&& c.token_mint@ == mint
            &&& c.dex_prices@ == prices
            &&& c.best_buy_dex@ == b.venue@
            &&& c.best_buy_price == b.price
            &&& c.best_sell_dex@ == s.venue@
            &&& c.best_sell_price == s.price
            &&& c.price_spread == s.price - b.price
            &&& c.potential_profit_percent == profit_percent(
                (s.price - b.price) as nat,
                b.price as nat,
            )
            &&& c.timestamp == now
        }
    }
}

/// The report for one token from the venue prices: lowest and highest price,
/// their spread, and the profit in percent; present only when two or more
/// venues are quoted and the profit exceeds `threshold_pct` (percent, fixed
/// point with `PRICE_DECIMALS` places). Among equal prices the earliest
/// venue is taken.
pub fn evaluate_prices(mint: &str, prices: &Vec<VenuePrice>, threshold_pct: u128, now: u64) -> (r:
    Option<PriceComparison>)
    ensures
        is_report(mint@, prices@, threshold_pct, now, r),
{
    if prices.len() < 2 {
        return None;
    }
    let mut bi: usize = 0;
    let mut si: usize = 0;
    let mut i: usize = 1;
    assert(prices@.take(1).drop_last().len() == 0);
    while i < prices.len()
        invariant
            1 <= i <= prices.len(),
            bi == min_index(prices@.take(i as int)),
            si == max_index(prices@.take(i as int)),
            0 <= bi < i,
            0 <= si < i,
        decreases prices.len() - i,
    {
        let ghost t = prices@.take(i as int + 1);
        assert(t.drop_last() =~= prices@.take(i as int));
        assert(t[bi as int] == prices@[bi as int]);
        assert(t[si as int] == prices@[si as int]);
        if prices[i].price < prices[bi].price {
            bi = i;
        }
        if prices[i].price > prices[si].price {
            si = i;
        }
        i = i + 1;
    }
    assert(prices@.take(prices.len() as int) =~= prices@);
    proof {
        lemma_min_max_index(prices@);
    }
    let buy = prices[bi].price;
    let sell = prices[si].price;
    let spread = sell - buy;
    let ghost x: int = spread * pow10(20);
    let mut emit = false;
    let mut pct: u128 = 0;
    if buy == 0 {
        emit = spread > 0;
        if spread > 0 {
            pct = u128::MAX;
        }
        proof {
            lemma_pow10_20();
            assert(spread > 0 ==> spread * pow10(20) > 0) by (nonlinear_arith)
                requires
                    pow10(20) >= 1,
            ;
            assert((spread as nat * pow10(20) > threshold_pct as nat * buy as nat) == (spread > 0))
                by (nonlinear_arith)
                requires
                    pow10(20) >= 1,
                    buy == 0,
            ;
            assert(emit == profit_exceeds(spread as nat, buy as nat, threshold_pct as nat));
        }
    } else {
        match mul_pow10_divmod(spread, 20, buy) {
            Some((q, rem)) => {
                proof {
                    lemma_fundamental_div_mod_converse(x, buy as int, q as int, rem as int);
                    lemma_exceeds_by_quotient(
                        x,
                        q as int,
                        rem as int,
                        buy as int,
                        threshold_pct as int,
                    );
                }
                emit = q > threshold_pct || (q == threshold_pct && rem > 0);
                pct = q;
                assert(emit == profit_exceeds(spread as nat, buy as nat, threshold_pct as nat));
            },
            None => {
                proof {
                    lemma_pow10_20();
                    assert(x >= 0) by (nonlinear_arith)
                        requires
                            x == spread * pow10(20),
                    ;
                    lemma_fundamental_div_mod(x, buy as int);
                    let qq = x / buy as int;
                    lemma_exceeds_by_quotient(
                        x,
                        qq,
                        x % buy as int,
                        buy as int,
                        threshold_pct as int,
                    );
                }
                emit = true;
                pct = u128::MAX;
                assert(emit == profit_exceeds(spread as nat, buy as nat, threshold_pct as nat));
            },
        }
    }
    assert(emit == profit_exceeds(spread as nat, buy as nat, threshold_pct as nat));
    assert(buy <= sell);
    if !emit {
        return None;
    }
    Some(
        PriceComparison {
            token_mint: mint.to_owned(),
            dex_prices: copy_prices(prices),
            best_buy_price: buy,
            best_sell_price: sell,
            best_buy_dex: prices[bi].venue.clone(),
            best_sell_dex: prices[si].venue.clone(),
            price_spread: spread,
            potential_profit_percent: pct,
            timestamp: now,
        },
    )
}

proof fn lemma_pow10_20()
    ensures
        pow10(20) >= 1,
{
    crate::decimal::lemma_pow10_positive(20);
}

fn copy_prices(v: &Vec<VenuePrice>) -> (r: Vec<VenuePrice>)
    ensures
        r@ == v@,
{
    let mut r: Vec<VenuePrice> = Vec::new();
    let mut i: usize = 0;
    while i < v.len()
        invariant
            i <= v.len(),
            r@ == v@.take(i as int),
        decreases v.len() - i,
    {
        r.push(v[i].duplicate());
        assert(r@ =~= v@.take(i as int + 1));
        i = i + 1;
    }
    assert(v@.take(v.len() as int) =~= v@);
    r
}

/// Entry `i` is the first one quoted under `name`.
pub open spec fn is_first_venue(s: Seq<VenuePrice>, name: Seq<char>, i: int) -> bool {
    0 <= i < s.len() && s[i].venue@ == name && forall|j: int| 0 <= j < i ==> s[j].venue@ != name
}

/// The index of the first entry quoted under `name`.
pub open spec fn first_venue(s: Seq<VenuePrice>, name: Seq<char>) -> int {
    choose|i: int| is_first_venue(s, name, i)
}

pub open spec fn has_venue(s: Seq<VenuePrice>, name: Seq<char>) -> bool {
    exists|i: int| 0 <= i < s.len() && s[i].venue@ == name
}

/// Records `p`: over the entry of the same venue if there is one, else at
/// the end.
pub open spec fn upsert(s: Seq<VenuePrice>, p: VenuePrice) -> Seq<VenuePrice> {
    if has_venue(s, p.venue@) {
        s.update(first_venue(s, p.venue@), p)
    } else {
        s.push(p)
    }
}

/// The venue prices that a list of pools gives, in order: a pool with no
/// price is left out, and a later pool of the same venue replaces the price
/// of an earlier one.
pub open spec fn venue_prices(rs: Seq<VenueReserves>) -> Seq<VenuePrice>
    decreases rs.len(),
{
    if rs.len() == 0 {
        Seq::empty()
    } else {
        let prev = venue_prices(rs.drop_last());
        let last = rs.last();
        match implied_price_value(last.base, last.quote) {
            Some(p) => upsert(prev, VenuePrice { venue: last.venue, price: p }),
            None => prev,
        }
    }
}

fn upsert_price(v: &mut Vec<VenuePrice>, p: VenuePrice)
    ensures
        final(v)@ == upsert(old(v)@, p),
{
    let mut i: usize = 0;
    while i < v.len()
        invariant
            v@ == old(v)@,
            i <= v.len(),
            forall|j: int| 0 <= j < i ==> v@[j].venue@ != p.venue@,
        decreases v.len() - i,
    {
        if v[i].venue == p.venue {
            proof {
                assert(is_first_venue(v@, p.venue@, i as int));
                let k = first_venue(v@, p.venue@);
                assert(is_first_venue(v@, p.venue@, k));
                if k > i {
                    assert(v@[i as int].venue@ != p.venue@);
                }
                assert(has_venue(v@, p.venue@));
            }
            v.set(i, p);
            return ;
        }
        i = i + 1;
    }
    assert(!has_venue(v@, p.venue@));
    v.push(p);
}

/// The venue prices of `venues`, each from its pool's two vault balances.
pub fn collect_venue_prices(venues: &Vec<VenueReserves>) -> (r: Vec<VenuePrice>)
    ensures
        r@ == venue_prices(venues@),
{
    let mut r: Vec<VenuePrice> = Vec::new();
    let mut i: usize = 0;
    while i < venues.len()
        invariant
            i <= venues.len(),
            r@ == venue_prices(venues@.take(i as int)),
        decreases venues.len() - i,
    {
        let ghost t = venues@.take(i as int + 1);
        assert(t.drop_last() =~= venues@.take(i as int));
        assert(t.last() == venues@[i as int]);
        let v = &venues[i];
        match implied_price(&v.base, &v.quote) {
            Ok(p) => {
                upsert_price(&mut r, VenuePrice { venue: v.venue.clone(), price: p });
            },
            Err(_) => {},
        }
        i = i + 1;
    }
    assert(venues@.take(venues.len() as int) =~= venues@);
    r
}

/// The arbitrage report for one token from the pools of every venue: the
/// venue prices as [`collect_venue_prices`] gives them, evaluated as
/// [`evaluate_prices`] does.
pub fn detect_opportunity(
    mint: &str,
    venues: &Vec<VenueReserves>,
    threshold_pct: u128,
    now: u64,
) -> (r: Option<PriceComparison>)
    ensures
        is_report(mint@, venue_prices(venues@), threshold_pct, now, r),
{
    let prices = collect_venue_prices(venues);
    evaluate_prices(mint, &prices, threshold_pct, now)
}

} // verus!
