use crate::decimal::{lemma_pow10_add, lemma_pow10_positive, mul_pow10_divmod, pow10};
use vstd::arithmetic::div_mod::{
    lemma_div_denominator, lemma_div_is_ordered, lemma_fundamental_div_mod,
    lemma_fundamental_div_mod_converse,
};
use vstd::prelude::*;
use vstd::string::StrSliceExecFns;

verus! {

/// Number of decimal places of every fixed-point quantity of this library:
/// a stored value `v` stands for `v / 10^18`.
pub const PRICE_DECIMALS: u32 = 18;

/// The balance of one token account as the chain reports it: a raw integer
/// amount written in decimal, and the number of decimal places of the token.
#[derive(Clone, Debug)]
pub struct TokenBalance {
    pub amount: String,
    pub decimals: u8,
}

/// Why a pool reserve pair gives no price.
#[derive(Clone, Debug)]
pub enum PriceError {
    /// The raw amount is not a decimal `u64`; the offending text is kept.
    InvalidAmount(String),
    /// The base-asset reserve is zero.
    ZeroReserve,
    /// The price does not fit the fixed-point range.
    OutOfRange,
}

pub open spec fn is_digit(c: char) -> bool {
    '0' <= c && c <= '9'
}

pub open spec fn digit_value(c: char) -> nat {
    (c as int - '0' as int) as nat
}

/// The number that a string of decimal digits writes.
pub open spec fn digits_value(s: Seq<char>) -> nat
    decreases s.len(),
{
    if s.len() == 0 {
        0
    } else {
        10 * digits_value(s.drop_last()) + digit_value(s.last())
    }
}

/// The digits of an amount: the text with one leading `+` taken off.
pub open spec fn amount_digits(s: Seq<char>) -> Seq<char> {
    if s.len() > 0 && s[0] == '+' {
        s.drop_first()
    } else {
        s
    }
}

/// A well-formed raw amount: an optional `+`, then one or more decimal
/// digits whose value fits in a `u64`.
pub open spec fn is_amount(s: Seq<char>) -> bool {
    let d = amount_digits(s);
    &&& d.len() > 0
    &&& forall|i: int| 0 <= i < d.len() ==> is_digit(#[trigger] d[i])
    &&& digits_value(d) <= u64::MAX
}

pub open spec fn amount_value(s: Seq<char>) -> nat {
    digits_value(amount_digits(s))
}

proof fn lemma_digits_prefix_le(s: Seq<char>, j: int)
    requires
        0 <= j <= s.len(),
    ensures
        digits_value(s.subrange(0, j)) <= digits_value(s),
    decreases s.len(),
{
    if j == s.len() {
        assert(s.subrange(0, j) =~= s);
    } else {
        lemma_digits_prefix_le(s.drop_last(), j);
        assert(s.drop_last().subrange(0, j) =~= s.subrange(0, j));
    }
}

/// Reads a raw amount as `u64`: decimal digits, with an optional leading `+`.
pub fn parse_amount(s: &str) -> (r: Option<u64>)
    ensures
        r == (if is_amount(s@) {
            Some(amount_value(s@) as u64)
        } else {
            None::<u64>
        }),
{
    let n = s.unicode_len();
    let mut start: usize = 0;
    if n > 0 && s.get_char(0) == '+' {
        start = 1;
    }
    let ghost d = amount_digits(s@);
    assert(d =~= s@.subrange(start as int, n as int));
    if start == n {
        return None;
    }
    let mut v: u64 = 0;
    let mut i: usize = start;
    while i < n
        invariant
            start <= i <= n,
            n == s@.len(),
            d =~= s@.subrange(start as int, n as int),
            d == amount_digits(s@),
            forall|t: int| 0 <= t < i - start ==> is_digit(#[trigger] d[t]),
            v == digits_value(d.subrange(0, i - start)),
        decreases n - i,
    {
        let c = s.get_char(i);
        if !('0' <= c && c <= '9') {
            assert(d[i - start] == c);
            assert(!is_digit(d[i - start]));
            return None;
        }
        let ghost p = d.subrange(0, i - start + 1);
        assert(p.drop_last() =~= d.subrange(0, i - start));
        assert(p.last() == c);
        let dv: u64 = (c as u32 - '0' as u32) as u64;
        if 10 * (v as u128) + dv as u128 > u64::MAX as u128 {
            proof {
                lemma_digits_prefix_le(d, i - start + 1);
                assert(digits_value(p) > u64::MAX);
                assert(!is_amount(s@));
            }
            return None;
        }
        v = 10 * v + dv;
        i = i + 1;
    }
    assert(d.subrange(0, n - start) =~= d);
    Some(v)
}

/// `x * c / (y * c) == x / y`.
proof fn lemma_div_cancel(x: int, y: int, c: int)
    requires
        x >= 0,
        y > 0,
        c > 0,
    ensures
        (x * c) / (y * c) == x / y,
{
    lemma_fundamental_div_mod(x, y);
    let q = x / y;
    let r = x % y;
    assert(x * c == q * (y * c) + r * c && 0 <= r * c < y * c) by (nonlinear_arith)
        requires
            x == y * q + r,
            0 <= r < y,
            c > 0,
    ;
    lemma_fundamental_div_mod_converse(x * c, y * c, q, r * c);
}

/// The exact price of one base unit in quote units, in fixed point:
/// `floor((quote / 10^quote_decimals) / (base / 10^base_decimals) * 10^18)`.
pub open spec fn scaled_price(base: nat, base_decimals: nat, quote: nat, quote_decimals: nat) -> int {
    (quote * pow10(base_decimals + PRICE_DECIMALS as nat)) as int / (base * pow10(quote_decimals)) as int
}

/// The price that [`implied_price`] gives, when it gives one.
pub open spec fn implied_price_value(base: TokenBalance, quote: TokenBalance) -> Option<u128> {
    if is_amount(base.amount@) && is_amount(quote.amount@) && amount_value(base.amount@) > 0 {
        let p = scaled_price(
            amount_value(base.amount@),
            base.decimals as nat,
            amount_value(quote.amount@),
            quote.decimals as nat,
        );
        if p <= u128::MAX {
            Some(p as u128)
        } else {
            None
        }
    } else {
        None
    }
}

/// The implied unit price of a pool from its two vault balances: the quote
/// amount per base unit, in fixed point with [`PRICE_DECIMALS`] places.
/// Both amounts are read first; then a zero base reserve is refused.
pub fn implied_price(base: &TokenBalance, quote: &TokenBalance) -> (r: Result<u128, PriceError>)
    ensures
        !is_amount(base.amount@) ==> (r matches Err(PriceError::InvalidAmount(t)) && t@
            == base.amount@),
        is_amount(base.amount@) && !is_amount(quote.amount@) ==> (r matches Err(
            PriceError::InvalidAmount(t),
        ) && t@ == quote.amount@),
        is_amount(base.amount@) && is_amount(quote.amount@) && amount_value(base.amount@) == 0
            ==> (r matches Err(PriceError::ZeroReserve)),
        is_amount(base.amount@) && is_amount(quote.amount@) && amount_value(base.amount@) > 0
            ==> {
            let p = scaled_price(
                amount_value(base.amount@),
                base.decimals as nat,
                amount_value(quote.amount@),
                quote.decimals as nat,
            );
            &&& p > u128::MAX ==> (r matches Err(PriceError::OutOfRange))
            &&& p <= u128::MAX ==> r == Ok::<u128, PriceError>(p as u128)
        },
        match r {
            Ok(p) => implied_price_value(*base, *quote) == Some(p),
            Err(_) => implied_price_value(*base, *quote) is None,
        },
{
    let b = match parse_amount(base.amount.as_str()) {
        Some(v) => v,
        None => {
            return Err(PriceError::InvalidAmount(base.amount.clone()));
        },
    };
    let q = match parse_amount(quote.amount.as_str()) {
        Some(v) => v,
        None => {
            return Err(PriceError::InvalidAmount(quote.amount.clone()));
        },
    };
    if b == 0 {
        return Err(PriceError::ZeroReserve);
    }
    let bd = base.decimals as u32;
    let qd = quote.decimals as u32;
    let ghost num: int = q * pow10((bd + PRICE_DECIMALS) as nat);
    let ghost den: int = b * pow10(qd as nat);
    if bd + PRICE_DECIMALS >= qd {
        let e: u32 = bd + PRICE_DECIMALS - qd;
        proof {
            lemma_pow10_add(e as nat, qd as nat);
            lemma_pow10_positive(qd as nat);
            assert((e + qd) as nat == (bd + PRICE_DECIMALS) as nat);
            assert(num == (q * pow10(e as nat)) * pow10(qd as nat)) by (nonlinear_arith)
                requires
                    num == q * pow10((bd + PRICE_DECIMALS) as nat),
                    pow10((bd + PRICE_DECIMALS) as nat) == pow10(e as nat) * pow10(qd as nat),
            ;
            lemma_div_cancel(q * pow10(e as nat), b as int, pow10(qd as nat) as int);
        }
        match mul_pow10_divmod(q as u128, e, b as u128) {
            Some((p, rem)) => {
                proof {
                    lemma_fundamental_div_mod_converse(
                        q * pow10(e as nat),
                        b as int,
                        p as int,
                        rem as int,
                    );
                }
                Ok(p)
            },
            None => Err(PriceError::OutOfRange),
        }
    } else {
        let k: u32 = qd - bd - PRICE_DECIMALS;
        let ghost c: int = pow10((bd + PRICE_DECIMALS) as nat) as int;
        proof {
            lemma_pow10_add((bd + PRICE_DECIMALS) as nat, k as nat);
            lemma_pow10_positive((bd + PRICE_DECIMALS) as nat);
            lemma_pow10_positive(k as nat);
            assert(((bd + PRICE_DECIMALS) + k) as nat == qd as nat);
            assert(den == (b * pow10(k as nat)) * c) by (nonlinear_arith)
                requires
                    den == b * pow10(qd as nat),
                    pow10(qd as nat) == c * pow10(k as nat),
            ;
            assert(b * pow10(k as nat) > 0) by (nonlinear_arith)
                requires
                    b > 0,
                    pow10(k as nat) >= 1,
            ;
            lemma_div_cancel(q as int, b * pow10(k as nat), c);
        }
        let mut v: u64 = q / b;
        let mut i: u32 = 0;
        assert(pow10(0) == 1);
        assert(b * pow10(0) == b);
        while i < k
            invariant
                b > 0,
                i <= k,
                v == q as int / (b * pow10(i as nat)),
            decreases k - i,
        {
            proof {
                lemma_pow10_positive(i as nat);
                assert(b * pow10(i as nat) > 0) by (nonlinear_arith)
                    requires
                        b > 0,
                        pow10(i as nat) >= 1,
                ;
                lemma_div_denominator(q as int, b * pow10(i as nat), 10);
                assert(b * pow10(i as nat) * 10 == b * pow10((i + 1) as nat)) by (nonlinear_arith)
                    requires
                        pow10((i + 1) as nat) == 10 * pow10(i as nat),
                ;
            }
            v = v / 10;
            i = i + 1;
        }
        proof {
            lemma_div_is_ordered(0, q as int, b * pow10(k as nat));
        }
        Ok(v as u128)
    }
}

} // verus!
