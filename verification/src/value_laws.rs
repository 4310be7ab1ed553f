//! What numbers and names are turned into.

use vstd::prelude::*;

use vstd::arithmetic::power2::pow2;

use crate::keys::decimal;
use crate::value::{half_even, log2, magnitude_bits, significand};

verus! {

/// How far two numbers are apart.
pub open spec fn apart(a: int, b: int) -> int {
    if a < b {
        b - a
    } else {
        a - b
    }
}

/// The rounded quotient is the nearest, and the even one of two that are as near.
pub proof fn lemma_rounding_is_nearest(m: nat, d: nat, x: int)
    requires
        d > 0,
    ensures
        apart(m as int, half_even(m, d) as int * d) <= apart(m as int, x * d),
        apart(m as int, half_even(m, d) as int * d) == apart(m as int, x * d) && x != half_even(m, d)
            ==> half_even(m, d) % 2 == 0,
{
    let (q, r) = ((m / d) as int, (m % d) as int);
    let h = half_even(m, d) as int;
    let n = d as int;
    assert(m == q * n + r && 0 <= r < n) by (nonlinear_arith)
        requires
            n > 0,
            q == m as int / n,
            r == m as int % n,
    ;
    assert((q + 1) * n == q * n + n) by (nonlinear_arith);
    if x <= q {
        assert(x * n <= q * n) by (nonlinear_arith)
            requires
                x <= q,
                n > 0,
        ;
        if x < q {
            assert(x * n <= q * n - n) by (nonlinear_arith)
                requires
                    x + 1 <= q,
                    n > 0,
            ;
        }
    } else {
        assert(x * n >= (q + 1) * n) by (nonlinear_arith)
            requires
                x >= q + 1,
                n > 0,
        ;
        if x > q + 1 {
            assert(x * n >= (q + 1) * n + n) by (nonlinear_arith)
                requires
                    x >= q + 2,
                    n > 0,
            ;
        }
    }
}

/// The significand of a number that fits is exact, and else it is the nearest, and the even
/// one of two that are as near.
pub proof fn lemma_significand_is_nearest(m: nat, x: int)
    requires
        m > 0,
    ensures
        log2(m) <= 52 ==> significand(m) == m * pow2((52 - log2(m)) as nat),
        log2(m) > 52 ==> ({
            let unit = pow2((log2(m) - 52) as nat);
            &&& apart(m as int, significand(m) as int * unit) <= apart(m as int, x * unit)
            &&& apart(m as int, significand(m) as int * unit) == apart(m as int, x * unit) && x
                != significand(m) ==> significand(m) % 2 == 0
        }),
        magnitude_bits(m) == (log2(m) + 1022) * 0x10_0000_0000_0000 + significand(m),
{
    if log2(m) > 52 {
        vstd::arithmetic::power2::lemma_pow2_pos((log2(m) - 52) as nat);
        lemma_rounding_is_nearest(m, pow2((log2(m) - 52) as nat), x);
    }
}

/// The number that digits stand for.
pub open spec fn number_read(s: Seq<char>) -> int
    decreases s.len(),
{
    if s.len() == 0 {
        0
    } else {
        number_read(s.drop_last()) * 10 + (s.last() as int - '0' as int)
    }
}

/// The decimal digits of a number are digits and stand for it, without a leading zero.
pub proof fn lemma_decimal_reads_back(n: nat)
    ensures
        number_read(decimal(n)) == n,
        forall|i: int| 0 <= i < decimal(n).len() ==> '0' <= #[trigger] decimal(n)[i] <= '9',
        decimal(n).len() > 0,
        n > 0 ==> decimal(n)[0] != '0',
    decreases n,
{
    let s = decimal(n);
    if n < 10 {
        assert(s.drop_last() =~= Seq::empty());
        assert(number_read(s.drop_last()) == 0);
    } else {
        lemma_decimal_reads_back(n / 10);
        assert(s.drop_last() =~= decimal(n / 10));
    }
}

} // verus!
