//! The divisor-sum computer: the mathematical model of the aliquot sum
//! (sum of all proper divisors) and the trial-division algorithm, driven
//! by an integer square root computed with Newton's iteration.

use vstd::prelude::*;
use vstd::arithmetic::div_mod::{
    lemma_fundamental_div_mod, lemma_fundamental_div_mod_converse,
    lemma_mod_division_less_than_divisor, lemma_multiply_divide_lt,
};
use crate::error::AliquotError;
use crate::render::{dec_str, u64_to_string};
use vstd::string::StringExecFns;

verus! {

/// Sum of the divisors `d` of `n` with `a <= d < b`.
pub open spec fn range_div_sum(n: nat, a: nat, b: nat) -> nat
    decreases b - a,
{
    if a >= b {
        0
    } else {
        (if n % a == 0 {
            a
        } else {
            0
        }) + range_div_sum(n, a + 1, b)
    }
}

/// The aliquot sum of `n`: the sum of all divisors of `n` strictly less
/// than `n`. By convention it is 0 for 0 (undefined) and for 1.
pub open spec fn aliquot_sum_spec(n: nat) -> nat {
    if n <= 1 {
        0
    } else {
        range_div_sum(n, 1, n)
    }
}

/// What trial division by `j` contributes to the aliquot sum: the pair of
/// divisors `j` and `n / j`, counted once when they coincide.
pub open spec fn pair_contrib(n: nat, j: nat) -> nat {
    if n % j == 0 {
        if j * j == n {
            j
        } else {
            j + n / j
        }
    } else {
        0
    }
}

/// Sum of the divisor-pair contributions of all `j` with `2 <= j < i`.
pub open spec fn pair_div_sum(n: nat, i: nat) -> nat
    decreases i,
{
    if i <= 2 {
        0
    } else {
        pair_div_sum(n, (i - 1) as nat) + pair_contrib(n, (i - 1) as nat)
    }
}

/// A prime has no divisors strictly between 1 and itself.
pub open spec fn is_prime(p: nat) -> bool {
    p >= 2 && forall|d: nat| 2 <= d < p ==> #[trigger] (p % d) != 0
}

/// `x <= n / d` exactly when `x * d <= n`.
proof fn lemma_div_le(x: nat, n: nat, d: nat)
    requires
        1 <= d,
    ensures
        x <= n / d <==> x * d <= n,
{
    lemma_fundamental_div_mod(n as int, d as int);
    lemma_mod_division_less_than_divisor(n as int, d as int);
    let q = n as int / d as int;
    let r = n as int % d as int;
    assert(x as int <= q <==> x as int * d as int <= n as int) by (nonlinear_arith)
        requires
            n as int == d as int * q + r,
            0 <= r < d as int,
            0 <= x as int,
            1 <= d as int,
    ;
}

/// A divisor divides out exactly.
proof fn lemma_div_exact(n: nat, d: nat)
    requires
        1 <= d,
        n % d == 0,
    ensures
        n == d * (n / d),
{
    lemma_fundamental_div_mod(n as int, d as int);
}

/// A divisor `d` of `n` with `d * i <= n < d * (i + 1)` must be `n / i`.
proof fn lemma_divisor_in_window(n: nat, i: nat, d: nat)
    requires
        1 <= i,
        1 <= d,
        n % d == 0,
        d * i <= n,
        n < d * (i + 1),
    ensures
        n % i == 0,
        d == n / i,
{
    let q = n / d;
    lemma_div_exact(n, d);
    assert(q == i) by (nonlinear_arith)
        requires
            n == d * q,
            d * i <= n,
            n < d * (i + 1),
            1 <= d,
            0 <= q,
            0 <= i,
    ;
    lemma_fundamental_div_mod_converse(n as int, i as int, d as int, 0);
}

/// A range free of divisors sums to zero.
proof fn lemma_rds_zero(n: nat, a: nat, b: nat)
    requires
        forall|d: nat| a <= d < b ==> #[trigger] (n % d) != 0,
    ensures
        range_div_sum(n, a, b) == 0,
    decreases b - a,
{
    if a < b {
        assert(n % a != 0);
        lemma_rds_zero(n, a + 1, b);
    }
}

/// The range sum splits at any interior point.
proof fn lemma_range_split(n: nat, a: nat, b: nat, c: nat)
    requires
        a <= b <= c,
    ensures
        range_div_sum(n, a, c) == range_div_sum(n, a, b) + range_div_sum(n, b, c),
    decreases b - a,
{
    if a < b {
        lemma_range_split(n, a + 1, b, c);
    }
}

/// Above `n / (i + 1)` and up to `n / i` the only possible divisor of `n`
/// is `n / i` itself, present exactly when `i` divides `n`.
proof fn lemma_window_sum(n: nat, i: nat, lo: nat)
    requires
        1 <= i,
        i * i <= n,
        i + 1 <= lo,
        n < lo * (i + 1),
    ensures
        range_div_sum(n, lo, n / i + 1) == if n % i == 0 && lo <= n / i {
            n / i
        } else {
            0
        },
    decreases n / i + 1 - lo,
{
    if lo < n / i + 1 {
        assert(n < (lo + 1) * (i + 1)) by (nonlinear_arith)
            requires
                n < lo * (i + 1),
                0 <= i,
                0 <= lo,
        ;
        if n % lo == 0 {
            lemma_div_le(lo, n, i);
            assert(lo * i <= n);
            assert(lo * (i + 1) == lo * i + lo) by (nonlinear_arith);
            lemma_divisor_in_window(n, i, lo);
            lemma_window_sum(n, i, lo + 1);
        } else {
            lemma_window_sum(n, i, lo + 1);
            if n % i == 0 && lo <= n / i {
                if n / i == lo {
                    lemma_div_exact(n, i);
                    assert(n as int == (i as int) * (lo as int) + 0);
                    lemma_fundamental_div_mod_converse(n as int, lo as int, i as int, 0);
                    assert(false);
                }
            }
        }
    }
}

/// One step of the pairing argument: the divisors of `n` between `i` and
/// `n / i` are the divisor-pair contribution of `i` together with the
/// divisors between `i + 1` and `n / (i + 1)`.
proof fn lemma_inv_step(n: nat, i: nat)
    requires
        2 <= i,
        i * i <= n,
    ensures
        range_div_sum(n, i, n / i + 1) == pair_contrib(n, i) + range_div_sum(
            n,
            i + 1,
            n / (i + 1) + 1,
        ),
{
    let hi = n / i + 1;
    lemma_div_le(i, n, i);
    assert(i <= n / i);
    assert(range_div_sum(n, i, hi) == (if n % i == 0 {
        i
    } else {
        0
    }) + range_div_sum(n, i + 1, hi));
    let m = n / (i + 1) + 1;
    if m >= i + 1 {
        // n / (i + 1) <= n / i, so the split point lies inside the range
        lemma_fundamental_div_mod(n as int, (i + 1) as int);
        lemma_mod_division_less_than_divisor(n as int, (i + 1) as int);
        let ni = n as int;
        let i1 = (i + 1) as int;
        let q1 = ni / i1;
        let r1 = ni % i1;
        assert(q1 * (i as int) <= ni) by (nonlinear_arith)
            requires
                ni == i1 * q1 + r1,
                0 <= r1,
                0 <= q1,
                0 <= i as int,
                (i as int) < i1,
        ;
        lemma_div_le((n / (i + 1)) as nat, n, i);
        assert(n / (i + 1) <= n / i);
        lemma_range_split(n, i + 1, m, hi);
        // the window above n / (i + 1) starts strictly above n in units of i + 1
        assert(ni < (q1 + 1) * i1) by (nonlinear_arith)
            requires
                ni == i1 * q1 + r1,
                r1 < i1,
                0 <= q1,
        ;
        assert(n < m * (i + 1));
        lemma_window_sum(n, i, m);
        if n % i == 0 {
            if i * i == n {
                lemma_fundamental_div_mod_converse(n as int, i as int, i as int, 0);
                assert(n / i == i);
            } else {
                lemma_div_exact(n, i);
                assert(n / i >= i + 1) by (nonlinear_arith)
                    requires
                        n == i * (n / i),
                        i * i <= n,
                        i * i != n,
                        2 <= i,
                        0 <= n / i,
                ;
                assert(n < (i + 1) * (n / i)) by (nonlinear_arith)
                    requires
                        n == i * (n / i),
                        1 <= n / i,
                ;
                lemma_multiply_divide_lt(n as int, (i + 1) as int, (n / i) as int);
                assert(n / (i + 1) < n / i);
                assert(m <= n / i);
            }
        }
    } else {
        // n / (i + 1) < i: here n / i == i, and both remaining ranges are empty
        lemma_div_le(i, n, i + 1);
        assert(!(i * (i + 1) <= n));
        assert(i * (i + 1) == i * i + i) by (nonlinear_arith);
        assert(n - i * i < i);
        lemma_fundamental_div_mod_converse(n as int, i as int, i as int, (n - i * i) as int);
        assert(n / i == i);
        assert(range_div_sum(n, i + 1, hi) == 0);
        assert(range_div_sum(n, i + 1, m) == 0);
        if n % i == 0 {
            assert(n == i * i + (n % i));
        }
    }
}

/// The running pairing invariant: all proper divisors of `n` are 1, the
/// pair contributions of `2 .. i`, and the divisors between `i` and `n / i`.
proof fn lemma_inv(n: nat, i: nat)
    requires
        n >= 2,
        2 <= i,
        (i - 1) * (i - 1) <= n,
    ensures
        range_div_sum(n, 1, n) == 1 + pair_div_sum(n, i) + range_div_sum(n, i, n / i + 1),
    decreases i,
{
    if i == 2 {
        lemma_fundamental_div_mod(n as int, 1);
        lemma_mod_division_less_than_divisor(n as int, 1);
        assert(n % 1 == 0);
        assert(range_div_sum(n, 1, n) == 1 + range_div_sum(n, 2, n));
        let h = n / 2 + 1;
        lemma_div_le(1, n, 2);
        assert(1 <= n / 2);
        vstd::arithmetic::div_mod::lemma_div_is_strictly_smaller(n as int, 2);
        assert(h <= n);
        lemma_range_split(n, 2, h, n);
        assert forall|d: nat| h <= d < n implies #[trigger] (n % d) != 0 by {
            if n % d == 0 {
                lemma_div_exact(n, d);
                let q = n / d;
                assert(q >= 2) by (nonlinear_arith)
                    requires
                        n == d * q,
                        0 < d < n,
                        0 <= q,
                ;
                assert(d * 2 <= n) by (nonlinear_arith)
                    requires
                        n == d * q,
                        2 <= q,
                        0 <= d,
                ;
                lemma_div_le(d, n, 2);
                assert(d <= n / 2);
                assert(false);
            }
        }
        lemma_rds_zero(n, h, n);
    } else {
        assert((i - 2) * (i - 2) <= (i - 1) * (i - 1)) by (nonlinear_arith)
            requires
                2 <= i as int,
        ;
        lemma_inv(n, (i - 1) as nat);
        lemma_inv_step(n, (i - 1) as nat);
    }
}

/// The trial-division pairing is complete: with `r` the integer square
/// root of `n`, the aliquot sum is 1 plus all pair contributions up to `r`.
proof fn lemma_pairs_complete(n: nat, r: nat)
    requires
        n >= 2,
        1 <= r,
        r * r <= n,
        n < (r + 1) * (r + 1),
    ensures
        aliquot_sum_spec(n) == 1 + pair_div_sum(n, r + 1),
{
    lemma_inv(n, r + 1);
    lemma_multiply_divide_lt(n as int, (r + 1) as int, (r + 1) as int);
    assert(n / (r + 1) < r + 1);
    assert(range_div_sum(n, r + 1, n / (r + 1) + 1) == 0);
}

/// The pair sums only grow with the bound.
proof fn lemma_pds_monotone(n: nat, i: nat, j: nat)
    requires
        i <= j,
    ensures
        pair_div_sum(n, i) <= pair_div_sum(n, j),
    decreases j,
{
    if i < j && j > 2 {
        lemma_pds_monotone(n, i, (j - 1) as nat);
    }
}

/// Law: the aliquot sum of every prime is exactly 1.
pub proof fn lemma_aliquot_sum_of_prime(p: nat)
    requires
        is_prime(p),
    ensures
        aliquot_sum_spec(p) == 1,
{
    lemma_fundamental_div_mod(p as int, 1);
    lemma_mod_division_less_than_divisor(p as int, 1);
    assert(p % 1 == 0);
    assert(range_div_sum(p, 1, p) == 1 + range_div_sum(p, 2, p));
    lemma_rds_zero(p, 2, p);
}

/// Law (converse): a number above 1 whose aliquot sum is exactly 1 is
/// prime — any proper divisor above 1 would push the sum beyond 1.
pub proof fn lemma_aliquot_sum_one_is_prime(n: nat)
    requires
        n >= 2,
        aliquot_sum_spec(n) == 1,
    ensures
        is_prime(n),
{
    if !is_prime(n) {
        let d = choose|d: nat| 2 <= d < n && #[trigger] (n % d) == 0;
        lemma_fundamental_div_mod(n as int, 1);
        lemma_mod_division_less_than_divisor(n as int, 1);
        assert(n % 1 == 0);
        lemma_range_split(n, 1, 2, n);
        lemma_range_split(n, 2, d, n);
        assert(range_div_sum(n, d, n) == d + range_div_sum(n, d + 1, n));
        assert(range_div_sum(n, 1, 2) == 1 + range_div_sum(n, 2, 2));
        assert(range_div_sum(n, 1, n) >= 1 + d);
        assert(false);
    }
}

/// The overflow diagnostic text: a running sum, the divisor pair being
/// added, and the domain maximum, all in decimal.
pub open spec fn overflow_message(sum: nat, add: nat) -> Seq<char> {
    dec_str(sum) + " plus "@ + dec_str(add) + " exceeds maximum "@ + dec_str(u64::MAX as nat)
}

/// What a faithful overflow report for `n` says: at some trial divisor
/// the running sum still fits the domain, the divisor pair found there no
/// longer does, and the message names exactly that sum, that pair and the
/// domain maximum.
pub open spec fn is_overflow_report(m: Seq<char>, n: nat) -> bool {
    exists|j: nat|
        #![trigger pair_div_sum(n, j)]
        2 <= j && 1 + pair_div_sum(n, j) <= u64::MAX && 1 + pair_div_sum(n, j) + pair_contrib(n, j)
            > u64::MAX && m == overflow_message(1 + pair_div_sum(n, j), pair_contrib(n, j))
}

/// Every number above 1 has at least the divisor 1, so its aliquot sum
/// is positive.
pub proof fn lemma_aliquot_sum_positive(n: nat)
    requires
        n >= 2,
    ensures
        aliquot_sum_spec(n) >= 1,
{
    lemma_fundamental_div_mod(n as int, 1);
    lemma_mod_division_less_than_divisor(n as int, 1);
    assert(n % 1 == 0);
    assert(range_div_sum(n, 1, n) == 1 + range_div_sum(n, 2, n));
}

/// One Newton step from any positive `x` lands at or above the integer
/// square root of `k`.
proof fn lemma_newton_step(k: nat, x: nat, y: nat)
    requires
        1 <= x,
        y == (x + k / x) / 2,
    ensures
        k < (y + 1) * (y + 1),
{
    let q = k / x;
    let r = k % x;
    lemma_fundamental_div_mod(k as int, x as int);
    lemma_mod_division_less_than_divisor(k as int, x as int);
    let s = (x + q) as int;
    lemma_fundamental_div_mod(s, 2);
    lemma_mod_division_less_than_divisor(s, 2);
    assert(2 * (y as int) + 2 >= s + 1);
    assert(4 * (k as int) < (2 * (y as int) + 2) * (2 * (y as int) + 2)) by (nonlinear_arith)
        requires
            k as int == (x as int) * (q as int) + (r as int),
            0 <= r as int,
            (r as int) < (x as int),
            1 <= x as int,
            0 <= q as int,
            2 * (y as int) + 2 >= (x as int) + (q as int) + 1,
    ;
    assert((k as int) < ((y as int) + 1) * ((y as int) + 1)) by (nonlinear_arith)
        requires
            4 * (k as int) < (2 * (y as int) + 2) * (2 * (y as int) + 2),
    ;
}

/// Integer square root by Newton's iteration, with no floating point.
fn isqrt(k: u64) -> (r: u64)
    ensures
        (r as int) * (r as int) <= k as int,
        (k as int) < ((r as int) + 1) * ((r as int) + 1),
{
    if k <= 1 {
        proof {
            if k == 0 {
                assert((0int + 1) * (0int + 1) == 1);
            } else {
                assert((1int + 1) * (1int + 1) == 4);
            }
        }
        return k;
    }
    let mut x0: u64 = k / 2;
    proof {
        lemma_div_le(1, k as nat, 2);
        assert(1 <= x0);
        lemma_fundamental_div_mod(k as int, 2);
        lemma_mod_division_less_than_divisor(k as int, 2);
        assert((k as int) < ((x0 as int) + 1) * ((x0 as int) + 1)) by (nonlinear_arith)
            requires
                k as int == 2 * (x0 as int) + (k as int % 2),
                (k as int % 2) < 2,
                1 <= x0 as int,
        ;
        // k / x0 stays small at the start, so the first sum cannot overflow
        assert((k as int) < 4 * (x0 as int)) by (nonlinear_arith)
            requires
                k as int == 2 * (x0 as int) + (k as int % 2),
                (k as int % 2) < 2,
                1 <= x0 as int,
        ;
        lemma_multiply_divide_lt(k as int, x0 as int, 4);
        assert((k as nat) / (x0 as nat) < 4);
    }
    let q0 = k / x0;
    let mut x1: u64 = (x0 + q0) / 2;
    proof {
        lemma_newton_step(k as nat, x0 as nat, x1 as nat);
        assert(1 <= x1) by (nonlinear_arith)
            requires
                (k as int) < ((x1 as int) + 1) * ((x1 as int) + 1),
                2 <= k as int,
                0 <= x1 as int,
        ;
    }
    while x1 < x0
        invariant
            2 <= k,
            1 <= x1,
            x0 <= k / 2,
            (k as int) < ((x0 as int) + 1) * ((x0 as int) + 1),
            (k as int) < ((x1 as int) + 1) * ((x1 as int) + 1),
            x1 as int == ((x0 as int) + ((k as nat) / (x0 as nat))) / 2,
        decreases x0,
    {
        x0 = x1;
        proof {
            // the next quotient fits: either x0 is tiny and so is k, or
            // both halves are bounded by k / 2
            if x0 == 1 {
                assert(k <= 3) by (nonlinear_arith)
                    requires
                        (k as int) < ((x0 as int) + 1) * ((x0 as int) + 1),
                        x0 as int == 1,
                ;
            } else {
                vstd::arithmetic::div_mod::lemma_div_is_ordered_by_denominator(
                    k as int,
                    2,
                    x0 as int,
                );
                lemma_fundamental_div_mod(k as int, 2);
                lemma_mod_division_less_than_divisor(k as int, 2);
            }
        }
        let q = k / x0;
        x1 = (x0 + q) / 2;
        proof {
            lemma_newton_step(k as nat, x0 as nat, x1 as nat);
            assert(1 <= x1) by (nonlinear_arith)
                requires
                    (k as int) < ((x1 as int) + 1) * ((x1 as int) + 1),
                    2 <= k as int,
                    0 <= x1 as int,
            ;
        }
    }
    proof {
        // at the fixed point the candidate is also at most the square root
        let q = (k as nat) / (x0 as nat);
        if (x0 as int) * (x0 as int) > k as int {
            lemma_multiply_divide_lt(k as int, x0 as int, x0 as int);
            assert((q as int) < x0 as int);
            lemma_fundamental_div_mod(((x0 + q) as u64) as int, 2);
            lemma_mod_division_less_than_divisor(((x0 + q) as u64) as int, 2);
            assert(x1 as int <= (x0 as int) - 1) by (nonlinear_arith)
                requires
                    x1 as int == ((x0 as int) + (q as int)) / 2,
                    (q as int) <= (x0 as int) - 1,
                    1 <= x0 as int,
                    0 <= q as int,
                    2 * (x1 as int) <= (x0 as int) + (q as int),
            ;
            assert(false);
        }
    }
    x0
}

/// Computes the aliquot sum of `n` by trial division up to the integer
/// square root: each divisor `i` found is paired with its codivisor
/// `n / i`, a perfect-square divisor being counted once. Succeeds exactly
/// when the sum fits the numeric domain, and otherwise reports overflow.
pub(crate) fn aliquot_sum_u64(n: u64) -> (r: Result<u64, AliquotError>)
    ensures
        r matches Ok(s) ==> aliquot_sum_spec(n as nat) <= u64::MAX && s == aliquot_sum_spec(
            n as nat,
        ),
        r matches Err(e) ==> aliquot_sum_spec(n as nat) > u64::MAX && (e matches AliquotError::OverflowError(m) && is_overflow_report(m@, n as nat)),
{
    if n <= 1 {
        return Ok(0);
    }
    let mut sum: u64 = 1;
    let root = isqrt(n);
    proof {
        assert(1 <= root) by (nonlinear_arith)
            requires
                (n as int) < ((root as int) + 1) * ((root as int) + 1),
                2 <= n as int,
                0 <= root as int,
        ;
        assert(root < 0x1_0000_0000u64) by (nonlinear_arith)
            requires
                (root as int) * (root as int) <= n as int,
                n as int <= 0xffff_ffff_ffff_ffffu64 as int,
                0 <= root as int,
        ;
    }
    let end = root + 1;
    let mut i: u64 = 2;
    while i < end
        invariant
            2 <= n,
            2 <= i,
            i <= end,
            end == root as int + 1,
            1 <= root,
            root < 0x1_0000_0000u64,
            (root as int) * (root as int) <= n as int,
            (n as int) < ((root as int) + 1) * ((root as int) + 1),
            sum as nat == 1 + pair_div_sum(n as nat, i as nat),
        decreases end - i,
    {
        proof {
            // in-loop bounds: i <= root, so n is at least 4 and i * (n / i)
            // stays within the domain
            assert(4 <= n) by (nonlinear_arith)
                requires
                    2 <= root as int,
                    (root as int) * (root as int) <= n as int,
            ;
            lemma_fundamental_div_mod(n as int, i as int);
            lemma_mod_division_less_than_divisor(n as int, i as int);
            assert((i as int) * ((n as nat / i as nat) as int) <= n as int) by (nonlinear_arith)
                requires
                    n as int == (i as int) * ((n as nat / i as nat) as int) + (n as int % i as int),
                    0 <= n as int % i as int,
            ;
        }
        let div = n / i;
        let chk = i * div;
        if chk == n {
            proof {
                assert(n % i == 0);
            }
            let add = if i != div {
                proof {
                    // i <= root <= n / root <= n / 2 and div <= n / 2
                    lemma_div_le(root as nat, n as nat, root as nat);
                    vstd::arithmetic::div_mod::lemma_div_is_ordered_by_denominator(
                        n as int,
                        2,
                        root as int,
                    );
                    vstd::arithmetic::div_mod::lemma_div_is_ordered_by_denominator(
                        n as int,
                        2,
                        i as int,
                    );
                    lemma_fundamental_div_mod(n as int, 2);
                    lemma_mod_division_less_than_divisor(n as int, 2);
                    assert(i + div <= n);
                }
                i + div
            } else {
                i
            };
            proof {
                if i == div {
                    lemma_div_exact(n as nat, i as nat);
                    assert((i as nat) * (i as nat) == n as nat);
                } else {
                    if (i as nat) * (i as nat) == n as nat {
                        lemma_fundamental_div_mod_converse(n as int, i as int, i as int, 0);
                        assert(false);
                    }
                }
                assert(add as nat == pair_contrib(n as nat, i as nat));
                assert(pair_div_sum(n as nat, (i + 1) as nat) == pair_div_sum(n as nat, i as nat)
                    + pair_contrib(n as nat, i as nat));
            }
            if add > u64::MAX - sum {
                proof {
                    lemma_pds_monotone(n as nat, (i + 1) as nat, (root + 1) as nat);
                    lemma_pairs_complete(n as nat, root as nat);
                }
                let mut msg = u64_to_string(sum);
                msg.append(" plus ");
                let add_str = u64_to_string(add);
                msg.append(add_str.as_str());
                msg.append(" exceeds maximum ");
                let max_str = u64_to_string(u64::MAX);
                msg.append(max_str.as_str());
                proof {
                    assert(msg@ =~= overflow_message(sum as nat, add as nat));
                    assert(1 + pair_div_sum(n as nat, i as nat) + pair_contrib(n as nat, i as nat)
                        > u64::MAX);
                    assert(is_overflow_report(msg@, n as nat));
                }
                return Err(AliquotError::OverflowError(msg));
            }
            sum = sum + add;
        } else {
            proof {
                if n % i == 0 {
                    lemma_div_exact(n as nat, i as nat);
                    assert(false);
                }
                assert(pair_div_sum(n as nat, (i + 1) as nat) == pair_div_sum(n as nat, i as nat));
            }
        }
        i = i + 1;
    }
    proof {
        lemma_pairs_complete(n as nat, root as nat);
    }
    Ok(sum)
}

} // verus!
