use vstd::arithmetic::div_mod::{
    lemma_div_is_ordered, lemma_fundamental_div_mod, lemma_fundamental_div_mod_converse,
};
use vstd::prelude::*;

verus! {

/// Ten to the power `n`.
pub open spec fn pow10(n: nat) -> nat
    decreases n,
{
    if n == 0 {
        1
    } else {
        10 * pow10((n - 1) as nat)
    }
}

pub proof fn lemma_pow10_positive(n: nat)
    ensures
        pow10(n) >= 1,
    decreases n,
{
    if n > 0 {
        lemma_pow10_positive((n - 1) as nat);
    }
}

pub proof fn lemma_pow10_add(a: nat, b: nat)
    ensures
        pow10(a + b) == pow10(a) * pow10(b),
    decreases b,
{
    if b > 0 {
        lemma_pow10_add(a, (b - 1) as nat);
        assert(pow10(a + b) == 10 * pow10((a + b - 1) as nat));
        assert((a + b - 1) as nat == a + (b - 1) as nat);
        assert(10 * (pow10(a) * pow10((b - 1) as nat)) == pow10(a) * (10 * pow10(
            (b - 1) as nat,
        ))) by (nonlinear_arith);
    } else {
        assert(pow10(0) == 1);
        assert(pow10(a) * pow10(0) == pow10(a));
    }
}

pub proof fn lemma_pow10_monotone(a: nat, b: nat)
    requires
        a <= b,
    ensures
        pow10(a) <= pow10(b),
{
    lemma_pow10_add(a, (b - a) as nat);
    lemma_pow10_positive((b - a) as nat);
    lemma_pow10_positive(a);
    assert(pow10(a) * pow10((b - a) as nat) >= pow10(a)) by (nonlinear_arith)
        requires
            pow10((b - a) as nat) >= 1,
            pow10(a) >= 1,
    ;
    assert(a + (b - a) as nat == b);
}

/// `floor(x * 10^k / y)` when that fits in a `u128`, with the remainder of the
/// same division; `None` exactly when the quotient exceeds `u128::MAX`.
/// No intermediate value can overflow, whatever `x`, `y` and `k` are.
pub fn mul_pow10_divmod(x: u128, k: u32, y: u128) -> (r: Option<(u128, u128)>)
    requires
        y > 0,
    ensures
        match r {
            Some((q, rem)) => q * y + rem == x * pow10(k as nat) && rem < y,
            None => x * pow10(k as nat) / (y as int) > u128::MAX,
        },
{
    let mut q: u128 = x / y;
    let mut rem: u128 = x % y;
    let mut i: u32 = 0;
    proof {
        lemma_fundamental_div_mod(x as int, y as int);
        assert(pow10(0) == 1);
        assert(x * pow10(0) == x);
    }
    while i < k
        invariant
            y > 0,
            i <= k,
            rem < y,
            q * y + rem == x * pow10(i as nat),
        decreases k - i,
    {
        // ten times the remainder, reduced modulo y, counting the wraps
        let mut digit: u128 = 0;
        let mut acc: u128 = 0;
        let mut j: u32 = 0;
        while j < 10
            invariant
                y > 0,
                rem < y,
                j <= 10,
                acc < y,
                digit <= j,
                j * rem == digit * y + acc,
            decreases 10 - j,
        {
            assert((j + 1) * rem == j * rem + rem) by (nonlinear_arith);
            assert((digit + 1) * y == digit * y + y) by (nonlinear_arith);
            if acc >= y - rem {
                acc = acc - (y - rem);
                digit = digit + 1;
            } else {
                acc = acc + rem;
            }
            j = j + 1;
        }
        proof {
            assert(pow10((i + 1) as nat) == 10 * pow10(i as nat));
            assert(x * pow10((i + 1) as nat) == (10 * q + digit) * y + acc) by (nonlinear_arith)
                requires
                    q * y + rem == x * pow10(i as nat),
                    10 * rem == digit * y + acc,
                    pow10((i + 1) as nat) == 10 * pow10(i as nat),
            ;
        }
        if q > (u128::MAX - digit) / 10 {
            proof {
                let xi = x * pow10((i + 1) as nat);
                lemma_fundamental_div_mod_converse(xi, y as int, 10 * q + digit, acc as int);
                lemma_pow10_monotone((i + 1) as nat, k as nat);
                assert(xi <= x * pow10(k as nat)) by (nonlinear_arith)
                    requires
                        pow10((i + 1) as nat) <= pow10(k as nat),
                        xi == x * pow10((i + 1) as nat),
                        x >= 0,
                ;
                lemma_div_is_ordered(xi, x * pow10(k as nat), y as int);
            }
            return None;
        }
        q = 10 * q + digit;
        rem = acc;
        i = i + 1;
    }
    Some((q, rem))
}

} // verus!
