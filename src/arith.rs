//! Integer helpers with exact contracts.
use vstd::prelude::*;

verus! {

/// Floor division: the result is the Euclidean quotient `n / m` for `m > 0`.
pub fn floor_div(n: i64, m: i64) -> (r: i64)
    requires
        m > 0,
    ensures
        r == n / m,
{
    if n >= 0 {
        let r = ((n as u64) / (m as u64)) as i64;
        r
    } else {
        let t: i64 = ((-(n + 1)) as u64 / (m as u64)) as i64;
        proof {
            let u: int = -(n + 1);
            vstd::arithmetic::div_mod::lemma_fundamental_div_mod(u, m as int);
            let rem: int = u % (m as int);
            assert(n == (-t - 1) * m + (m - 1 - rem)) by (nonlinear_arith)
                requires
                    u == -(n + 1),
                    u == m * t + rem,
            ;
            vstd::arithmetic::div_mod::lemma_fundamental_div_mod_converse(
                n as int,
                m as int,
                -t - 1,
                m - 1 - rem,
            );
        }
        -t - 1
    }
}

/// Euclidean remainder: the result is `n % m` for `m > 0`, in `[0, m)`.
pub fn floor_mod(n: i64, m: i64) -> (r: i64)
    requires
        m > 0,
    ensures
        r == n % m,
        0 <= r < m,
{
    if n >= 0 {
        ((n as u64) % (m as u64)) as i64
    } else {
        let u: u64 = (-(n + 1)) as u64;
        let t: u64 = u / (m as u64);
        let rem: u64 = u % (m as u64);
        proof {
            vstd::arithmetic::div_mod::lemma_fundamental_div_mod(u as int, m as int);
            assert(n == (-t - 1) * m + (m - 1 - rem)) by (nonlinear_arith)
                requires
                    u == -(n + 1),
                    u == m * t + rem,
            ;
            vstd::arithmetic::div_mod::lemma_fundamental_div_mod_converse(
                n as int,
                m as int,
                -t - 1,
                m - 1 - rem,
            );
        }
        m - 1 - rem as i64
    }
}

} // verus!
