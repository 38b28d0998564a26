//! Round-to-nearest, ties-to-even, on integers: the rounding of IEEE floats
//! stated exactly, for the values that the library computes with them.

use vstd::prelude::*;

verus! {

/// `2^e`.
pub open spec fn two_to(e: nat) -> nat
    decreases e,
{
    if e == 0 {
        1
    } else {
        2 * two_to((e - 1) as nat)
    }
}

/// `2^e` grows with `e`.
pub proof fn lemma_two_to_monotone(a: nat, b: nat)
    requires
        a <= b,
    ensures
        two_to(a) <= two_to(b),
    decreases b,
{
    if a < b {
        lemma_two_to_monotone(a, (b - 1) as nat);
    }
}

/// `num / den` rounded to the nearest integer, ties to even.
pub open spec fn round_half_even(num: nat, den: nat) -> nat {
    let q = num / den;
    let r = num % den;
    if 2 * r > den || (2 * r == den && q % 2 == 1) {
        q + 1
    } else {
        q
    }
}

/// Weight of the last kept bit when `n` is rounded to a significand below
/// `limit` (a power of two): 1 below `limit`, doubling with each further bit
/// of `n`.
pub open spec fn sig_unit(n: nat, limit: nat) -> nat
    decreases n,
{
    if n < limit || limit == 0 {
        1
    } else {
        2 * sig_unit(n / 2, limit)
    }
}

/// `n` rounded to a significand below `limit`, ties to even: with `limit`
/// `2^53` the value of `n` as a 64-bit float.
pub open spec fn round_significant(n: nat, limit: nat) -> nat {
    round_half_even(n, sig_unit(n, limit)) * sig_unit(n, limit)
}

/// `num / den` rounded to the nearest integer, ties to even.
pub fn round_div(num: u128, den: u128) -> (r: u128)
    requires
        den > 0,
    ensures
        r == round_half_even(num as nat, den as nat),
        r <= num as nat / den as nat + 1,
{
    let q = num / den;
    let rem = num % den;
    if rem > den - rem || (rem == den - rem && q % 2 == 1) {
        proof {
            vstd::arithmetic::div_mod::lemma_fundamental_div_mod(num as int, den as int);
            assert(q * 2 <= num) by (nonlinear_arith)
                requires
                    num == den * q + rem,
                    den >= 2,
                    rem >= 0,
                    q >= 0,
            ;
        }
        q + 1
    } else {
        q
    }
}

/// `n` rounded to a significand below `limit`, ties to even.
pub fn round_significant_u128(n: u128, limit: u128) -> (r: u128)
    requires
        limit >= 2,
        n <= u128::MAX / 2,
    ensures
        r == round_significant(n as nat, limit as nat),
        r <= 2 * n,
        r * limit <= n * limit + 2 * n,
        n < limit ==> r == n,
        n >= 1 ==> r >= 1,
{
    let mut q: u128 = n;
    let mut unit: u128 = 1;
    while q >= limit
        invariant
            limit >= 2,
            unit >= 1,
            q == n as nat / unit as nat,
            unit as nat * sig_unit(q as nat, limit as nat) == sig_unit(n as nat, limit as nat),
            unit == 1 || unit * limit <= 2 * n,
            n <= u128::MAX / 2,
        decreases q,
    {
        proof {
            vstd::arithmetic::div_mod::lemma_div_denominator(n as int, unit as int, 2);
            vstd::arithmetic::div_mod::lemma_fundamental_div_mod(n as int, unit as int);
            assert(unit * limit <= n) by (nonlinear_arith)
                requires
                    n as nat == unit as nat * q as nat + n as nat % (unit as nat),
                    n as nat % (unit as nat) >= 0,
                    q >= limit,
                    unit >= 1,
            ;
            assert((n as int / unit as int) / 2 == n as int / (unit as int * 2));
            let f = sig_unit((q / 2) as nat, limit as nat);
            assert(sig_unit(q as nat, limit as nat) == 2 * f);
            assert(unit as nat * (2 * f) == (unit as nat * 2) * f) by (nonlinear_arith);
            assert(unit * 2 * limit <= 2 * n && unit * 2 <= n) by (nonlinear_arith)
                requires
                    unit * limit <= n,
                    limit >= 2,
            ;
        }
        q = q / 2;
        unit = unit * 2;
    }
    assert(unit == sig_unit(n as nat, limit as nat)) by (nonlinear_arith)
        requires
            unit as nat * sig_unit(q as nat, limit as nat) == sig_unit(n as nat, limit as nat),
            sig_unit(q as nat, limit as nat) == 1,
    ;
    let r = round_div(n, unit);
    proof {
        vstd::arithmetic::div_mod::lemma_fundamental_div_mod(n as int, unit as int);
        if unit > 1 {
            assert(unit <= n) by (nonlinear_arith)
                requires
                    unit * limit <= 2 * n,
                    limit >= 2,
            ;
        }
        assert(r * unit <= n + unit) by (nonlinear_arith)
            requires
                r <= q + 1,
                n as nat == unit as nat * q as nat + n as nat % (unit as nat),
                n as nat % (unit as nat) >= 0,
        ;
        if unit == 1 {
            assert(r == n) by (nonlinear_arith)
                requires
                    r == round_half_even(n as nat, 1),
            ;
        } else {
            assert((r * unit) * limit <= n * limit + 2 * n) by (nonlinear_arith)
                requires
                    r * unit <= n + unit,
                    unit * limit <= 2 * n,
            ;
            assert(r >= 1) by (nonlinear_arith)
                requires
                    r >= q,
                    q == n as nat / unit as nat,
                    unit <= n,
                    unit >= 1,
            ;
            assert(r * unit >= 1) by (nonlinear_arith)
                requires
                    r >= 1,
                    unit >= 1,
            ;
        }
    }
    r * unit
}

/// The least exponent `k`, from `k` on, at which `p * 2^k` reaches
/// `2^52 * q`: `p / q` then has a 53-bit significand.
pub open spec fn up_exponent(p: nat, q: nat, k: nat) -> nat
    decreases 256 - k,
{
    if k >= 256 || p * two_to(k) >= 0x10000000000000 * q {
        k
    } else {
        up_exponent(p, q, k + 1)
    }
}

/// The least exponent `j`, from `j` on, at which `p / (q * 2^j)` falls
/// below `2^53`.
pub open spec fn down_exponent(p: nat, q: nat, j: nat) -> nat
    decreases 256 - j,
{
    if j >= 256 || p < 0x20000000000000 * q * two_to(j) {
        j
    } else {
        down_exponent(p, q, j + 1)
    }
}

/// The 64-bit float nearest to `p / q`, ties to even, as `(n, k)`: the
/// value `n / 2^k`.
pub open spec fn f64_ratio(p: nat, q: nat) -> (nat, nat) {
    if p == 0 {
        (0, 0)
    } else if p >= 0x10000000000000 * q {
        let j = down_exponent(p, q, 0);
        (round_half_even(p, q * two_to(j)) * two_to(j), 0)
    } else {
        let k = up_exponent(p, q, 0);
        (round_half_even(p * two_to(k), q), k)
    }
}

/// `2^117`, the largest scale a ratio of integers up to `2^65` takes.
proof fn lemma_two_to_117()
    ensures
        two_to(117) == 0x200000000000000000000000000000,
{
    lemma_two_to_pow2(117);
    vstd::arithmetic::power2::lemma_pow2_adds(64, 53);
    vstd::arithmetic::power2::lemma2_to64();
    vstd::arithmetic::power2::lemma2_to64_rest();
}

/// `two_to` is vstd's `pow2`.
proof fn lemma_two_to_pow2(e: nat)
    ensures
        two_to(e) == vstd::arithmetic::power2::pow2(e),
    decreases e,
{
    if e == 0 {
        vstd::arithmetic::power2::lemma2_to64();
    } else {
        lemma_two_to_pow2((e - 1) as nat);
        vstd::arithmetic::power2::lemma_pow2_unfold(e);
    }
}

/// The 64-bit float nearest to `p / q` as `(n, k, 2^k)`, for `p` and `q`
/// up to `2^65`.
pub fn f64_ratio_u128(p: u128, q: u128) -> (r: (u128, u32, u128))
    requires
        1 <= q <= 0x20000000000000000,
        p <= 0x20000000000000000,
    ensures
        (r.0 as nat, r.1 as nat) == f64_ratio(p as nat, q as nat),
        r.2 == two_to(r.1 as nat),
        1 <= r.2 <= 0x200000000000000000000000000000,
        r.0 <= 0x40000000000000000,
        r.1 > 0 ==> r.0 <= 0x20000000000000,
{
    if p == 0 {
        return (0, 0, 1);
    }
    if p >= 0x10000000000000 * q {
        let mut j: u32 = 0;
        let mut tj: u128 = 1;
        let mut d: u128 = q;
        assert(down_exponent(p as nat, q as nat, 0) == down_exponent(p as nat, q as nat, j as nat));
        while p / 0x20000000000000 >= d
            invariant
                1 <= q <= 0x20000000000000000,
                1 <= p <= 0x20000000000000000,
                j <= 13,
                tj == two_to(j as nat),
                1 <= tj <= 0x2000,
                d == q * tj,
                down_exponent(p as nat, q as nat, j as nat) == down_exponent(p as nat, q as nat, 0),
            decreases 0x2000 - tj,
        {
            assert(tj <= 0x1000) by (nonlinear_arith)
                requires
                    p / 0x20000000000000 >= d,
                    d == q * tj,
                    q >= 1,
                    p <= 0x20000000000000000,
            ;
            assert(d * 2 == q * (tj * 2)) by (nonlinear_arith)
                requires
                    d == q * tj,
            ;
            assert(p >= 0x20000000000000 * q * two_to(j as nat)) by (nonlinear_arith)
                requires
                    p / 0x20000000000000 >= d,
                    d == q * two_to(j as nat),
            ;
            proof {
                assert(two_to((j + 1) as nat) == 2 * two_to(j as nat));
                if j >= 13 {
                    lemma_two_to_pow2(13);
                    vstd::arithmetic::power2::lemma2_to64();
                    lemma_two_to_monotone(13, j as nat);
                }
            }
            j = j + 1;
            tj = tj * 2;
            d = d * 2;
        }
        proof {
            assert(p < 0x20000000000000 * q * two_to(j as nat)) by (nonlinear_arith)
                requires
                    p / 0x20000000000000 < d,
                    d == q * two_to(j as nat),
            ;
            assert(down_exponent(p as nat, q as nat, j as nat) == j);
        }
        let m = round_div(p, d);
        assert(p < 0x20000000000000 * d) by (nonlinear_arith)
            requires
                p / 0x20000000000000 < d,
        ;
        assert(m * tj <= 0x40000000000000000) by (nonlinear_arith)
            requires
                m <= p / d + 1,
                p < 0x20000000000000 * d,
                d >= 1,
                tj <= 0x2000,
        ;
        proof {
            assert(p < 0x20000000000000 * d) by (nonlinear_arith)
                requires
                    p / 0x20000000000000 < d,
            ;
        }
        (m * tj, 0, 1)
    } else {
        let mut k: u32 = 0;
        let mut tk: u128 = 1;
        let mut pk: u128 = p;
        assert(up_exponent(p as nat, q as nat, 0) == up_exponent(p as nat, q as nat, k as nat));
        while pk < 0x10000000000000 * q
            invariant
                1 <= q <= 0x20000000000000000,
                1 <= p <= 0x20000000000000000,
                k <= 117,
                tk == two_to(k as nat),
                1 <= tk <= 0x200000000000000000000000000000,
                pk == p * tk,
                up_exponent(p as nat, q as nat, k as nat) == up_exponent(p as nat, q as nat, 0),
                k > 0 ==> p * two_to((k - 1) as nat) < 0x10000000000000 * q,
            decreases 0x200000000000000000000000000000 - tk,
        {
            assert(tk < 0x200000000000000000000000000000) by (nonlinear_arith)
                requires
                    pk < 0x10000000000000 * q,
                    pk == p * tk,
                    p >= 1,
                    q <= 0x20000000000000000,
            ;
            proof {
                assert(two_to((k + 1) as nat) == 2 * two_to(k as nat));
                lemma_two_to_117();
                if k >= 117 {
                    lemma_two_to_monotone(117, k as nat);
                }
                assert(k < 117);
                lemma_two_to_monotone((k + 1) as nat, 117);
                assert(pk * 2 == p * (tk * 2)) by (nonlinear_arith)
                    requires
                        pk == p * tk,
                ;
            }
            k = k + 1;
            tk = tk * 2;
            pk = pk * 2;
        }
        proof {
            if k < 256 {
                assert(up_exponent(p as nat, q as nat, k as nat) == k);
            }
        }
        let m = round_div(pk, q);
        proof {
            if k > 0 {
                assert(pk < 0x20000000000000 * q) by (nonlinear_arith)
                    requires
                        pk == p * tk,
                        tk == 2 * two_to((k - 1) as nat),
                        p * two_to((k - 1) as nat) < 0x10000000000000 * q,
                ;
            }
            assert(m <= 0x20000000000000) by (nonlinear_arith)
                requires
                    m <= pk / q + 1,
                    k > 0 ==> pk < 0x20000000000000 * q,
                    k == 0 ==> pk == p,
                    k == 0 ==> p < 0x10000000000000 * q,
                    q >= 1,
            ;
        }
        (m, k, tk)
    }
}

} // verus!
