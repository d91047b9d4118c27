use crate::cache::TokenPrice;
use crate::decimal::{mul_pow10_divmod, pow10};
use crate::pool::PRICE_DECIMALS;
use vstd::arithmetic::div_mod::lemma_fundamental_div_mod_converse;
use vstd::prelude::*;

verus! {

/// Why one price source gave no record; the resolver drops these.
#[derive(Clone, Debug)]
pub struct SourceFailure {
    pub message: String,
}

/// The numeraire price that the conversion divides by: the looked-up one
/// when there is a positive one, else the configured fallback.
pub open spec fn numeraire_price(looked_up: Option<u128>, fallback: u128) -> u128 {
    match looked_up {
        Some(p) if p > 0 => p,
        _ => fallback,
    }
}

/// `price / numeraire` in fixed point, rounded down.
pub open spec fn price_in_numeraire(price: u128, numeraire: u128) -> int {
    (price * pow10(PRICE_DECIMALS as nat)) as int / numeraire as int
}

/// Builds the record of a source that quotes only a fiat price: the price
/// in the numeraire is derived by dividing by the numeraire's own fiat
/// price, looked up separately, or by `fallback_numeraire_usd` when that
/// lookup gave nothing. Volume and market cap default to zero. `None` when
/// the derived price does not fit the fixed-point range.
pub fn price_record(
    mint: &str,
    price_usd: u128,
    numeraire_usd: Option<u128>,
    fallback_numeraire_usd: u128,
    volume_24h: Option<u128>,
    market_cap: Option<u128>,
    timestamp: u64,
    source: &str,
) -> (r: Option<TokenPrice>)
    requires
        fallback_numeraire_usd > 0,
    ensures
        ({
            let sol = price_in_numeraire(
                price_usd,
                numeraire_price(numeraire_usd, fallback_numeraire_usd),
            );
            &&& sol > u128::MAX ==> r is None
            &&& sol <= u128::MAX ==> (r matches Some(t) && t.mint@ == mint@ && t.price_usd
                == price_usd && t.price_sol == sol && t.volume_24h == (match volume_24h {
                Some(v) => v,
                None => 0,
            }) && t.market_cap == (match market_cap {
                Some(m) => m,
                None => 0,
            }) && t.timestamp == timestamp && t.source@ == source@)
        }),
{
    let divisor = match numeraire_usd {
        Some(p) if p > 0 => p,
        _ => fallback_numeraire_usd,
    };
    let price_sol = match mul_pow10_divmod(price_usd, PRICE_DECIMALS, divisor) {
        Some((q, rem)) => {
            proof {
                lemma_fundamental_div_mod_converse(
                    price_usd * pow10(PRICE_DECIMALS as nat),
                    divisor as int,
                    q as int,
                    rem as int,
                );
            }
            q
        },
        None => {
            return None;
        },
    };
    let volume = match volume_24h {
        Some(v) => v,
        None => 0,
    };
    let cap = match market_cap {
        Some(m) => m,
        None => 0,
    };
    Some(
        TokenPrice {
            mint: mint.to_owned(),
            price_usd,
            price_sol,
            volume_24h: volume,
            market_cap: cap,
            timestamp,
            source: source.to_owned(),
        },
    )
}

} // verus!
