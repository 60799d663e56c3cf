//! Integer arithmetic underlying the accumulator's shape: population count,
//! trailing-one count, powers of two and the height at which two leaf paths
//! diverge.  Everything here is pure arithmetic on unsigned values; the
//! bit-level facts the merge and lookup algorithms rely on are proved as
//! lemmas over these definitions.

use vstd::prelude::*;
use vstd::arithmetic::power2::{
    lemma2_to64, lemma2_to64_rest, lemma_pow2_adds, lemma_pow2_pos, lemma_pow2_strictly_increases,
    lemma_pow2_unfold, pow2,
};
use vstd::arithmetic::div_mod::{
    lemma_div_basics, lemma_div_denominator, lemma_div_is_ordered, lemma_fundamental_div_mod,
    lemma_fundamental_div_mod_converse,
};

verus! {


/// Number of set bits in the binary representation of `n`.
pub open spec fn popcount(n: nat) -> nat
    decreases n,
{
    if n == 0 {
        0
    } else {
        n % 2 + popcount(n / 2)
    }
}

/// Number of consecutive one bits at the low end of `n`.
pub open spec fn trailing_ones(n: nat) -> nat
    decreases n,
{
    if n % 2 == 0 {
        0
    } else {
        1 + trailing_ones(n / 2)
    }
}

/// A number below `2^k` has at most `k` set bits.
pub proof fn lemma_popcount_bound(n: nat, k: nat)
    requires
        n < pow2(k),
    ensures
        popcount(n) <= k,
    decreases k,
{
    if k == 0 {
        assert(pow2(0) == 1) by {
            lemma2_to64();
        }
    } else {
        lemma_pow2_unfold(k);
        lemma_fundamental_div_mod(n as int, 2);
        lemma_popcount_bound(n / 2, (k - 1) as nat);
    }
}

/// The trailing ones of `n` are among its set bits.
pub proof fn lemma_trailing_ones_le_popcount(n: nat)
    ensures
        trailing_ones(n) <= popcount(n),
    decreases n,
{
    if n % 2 != 0 {
        lemma_trailing_ones_le_popcount(n / 2);
    }
}

/// Incrementing a binary counter clears its trailing ones and sets the next
/// bit: the set-bit count changes by one minus the number of trailing ones.
pub proof fn lemma_popcount_increment(n: nat)
    ensures
        popcount(n + 1) + trailing_ones(n) == popcount(n) + 1,
    decreases n,
{
    let q = n / 2;
    lemma_fundamental_div_mod(n as int, 2);
    if n % 2 == 0 {
        lemma_fundamental_div_mod_converse((n + 1) as int, 2, q as int, 1);
        assert(popcount(n + 1) == 1 + popcount(q));
    } else {
        lemma_fundamental_div_mod_converse((n + 1) as int, 2, (q + 1) as int, 0);
        lemma_popcount_increment(q);
        assert(popcount(n + 1) == popcount(q + 1));
    }
}

/// Set bits split at any cut: those at or above position `k` and those below.
pub proof fn lemma_popcount_split(n: nat, k: nat)
    ensures
        popcount(n) == popcount(n / pow2(k)) + popcount(n % pow2(k)),
    decreases k,
{
    lemma_pow2_pos(k);
    if k == 0 {
        assert(pow2(0) == 1) by {
            lemma2_to64();
        }
    } else if n == 0 {
        assert(0nat / pow2(k) == 0 && 0nat % pow2(k) == 0) by {
            lemma_fundamental_div_mod_converse(0, pow2(k) as int, 0, 0);
        }
    } else {
        let p = pow2(k);
        let p1 = pow2((k - 1) as nat);
        lemma_pow2_unfold(k);
        lemma_pow2_pos((k - 1) as nat);
        let q = n / p;
        let r = n % p;
        lemma_fundamental_div_mod(n as int, p as int);
        lemma_fundamental_div_mod(r as int, 2);
        assert(n as int == 2 * (p1 * q + r / 2) + r % 2) by (nonlinear_arith)
            requires
                p == 2 * p1,
                n as int == p * q + r,
                r as int == 2 * (r as int / 2) + r as int % 2,
        ;
        lemma_fundamental_div_mod_converse(
            n as int,
            2,
            p1 as int * q as int + r as int / 2,
            r as int % 2,
        );
        assert(n / 2 == p1 * q + r / 2);
        assert(n % 2 == r % 2);
        lemma_fundamental_div_mod_converse(
            (n / 2) as int,
            p1 as int,
            q as int,
            (r / 2) as int,
        );
        assert((n / 2) / p1 == q && (n / 2) % p1 == r / 2);
        lemma_popcount_split(n / 2, (k - 1) as nat);
        assert(popcount(r) == r % 2 + popcount(r / 2));
    }
}

/// The position of the highest bit at which `a` and `b` differ, for `a != b`;
/// zero where they agree everywhere but in their lowest bit.
pub open spec fn split_height(a: nat, b: nat) -> nat
    decreases a + b,
{
    if a / 2 == b / 2 {
        0
    } else {
        1 + split_height(a / 2, b / 2)
    }
}


/// Equal argument pairs have equal split heights.  Stated as a lemma so
/// callers can bridge two occurrences whose arguments are only provably
/// equal.
pub proof fn lemma_split_height_congruence(a1: nat, b1: nat, a2: nat, b2: nat)
    requires
        a1 == a2,
        b1 == b2,
    ensures
        split_height(a1, b1) == split_height(a2, b2),
    decreases a1 + b1,
{
    if a1 / 2 != b1 / 2 {
        lemma_split_height_congruence(a1 / 2, b1 / 2, a2 / 2, b2 / 2);
    }
}

/// Dividing by `pow2(k + 1)` is halving and then dividing by `pow2(k)`.
pub proof fn lemma_div_pow2_succ(x: nat, k: nat)
    ensures
        x / pow2(k + 1) == (x / 2) / pow2(k),
{
    lemma_pow2_pos(k);
    lemma_pow2_unfold(k + 1);
    lemma_div_denominator(x as int, 2, pow2(k) as int);
}

/// Dividing by `pow2(k)` and then halving is dividing by `pow2(k + 1)`.
pub proof fn lemma_div_pow2_chain(x: nat, k: nat)
    ensures
        (x / pow2(k)) / 2 == x / pow2(k + 1),
{
    lemma_pow2_pos(k);
    lemma_div_denominator(x as int, pow2(k) as int, 2);
    lemma_pow2_adds(k, 1);
    assert(pow2(1) == 2) by {
        lemma2_to64();
    }
}

/// At the split height `h` of `a < b`, both agree above `h`, `b` carries a one
/// bit and `a` a zero bit; consequently `b` is at least `pow2(h)`.
pub proof fn lemma_split_height_props(a: nat, b: nat)
    requires
        a < b,
    ensures
        a / pow2(split_height(a, b) + 1) == b / pow2(split_height(a, b) + 1),
        (b / pow2(split_height(a, b))) % 2 == 1,
        (a / pow2(split_height(a, b))) % 2 == 0,
        pow2(split_height(a, b)) <= b,
    decreases a + b,
{
    let h = split_height(a, b);
    lemma_pow2_pos(h);
    if a / 2 == b / 2 {
        lemma_fundamental_div_mod(a as int, 2);
        lemma_fundamental_div_mod(b as int, 2);
        assert(pow2(0) == 1 && pow2(1) == 2) by {
            lemma2_to64();
        }
        assert(a % 2 == 0 && b % 2 == 1);
    } else {
        lemma_div_is_ordered(a as int, b as int, 2);
        lemma_split_height_props(a / 2, b / 2);
        let h1 = (h - 1) as nat;
        lemma_div_pow2_succ(a, h1 + 1);
        lemma_div_pow2_succ(b, h1 + 1);
        lemma_div_pow2_succ(a, h1);
        lemma_div_pow2_succ(b, h1);
        // pow2(h) <= b: the one bit of b at height h means b / pow2(h) >= 1.
        lemma_fundamental_div_mod(b as int, pow2(h) as int);
        assert(pow2(h) <= b) by (nonlinear_arith)
            requires
                b as int == pow2(h) * (b as nat / pow2(h)) + (b as nat % pow2(h)),
                b as nat / pow2(h) >= 1,
                pow2(h) >= 1,
                b as nat % pow2(h) >= 0,
        ;
    }
}

/// The split height of numbers below `2^k` is below `k`.
pub proof fn lemma_split_height_bound(a: nat, b: nat, k: nat)
    requires
        a < b,
        b < pow2(k),
    ensures
        split_height(a, b) < k,
{
    let h = split_height(a, b);
    lemma_split_height_props(a, b);
    if h >= k {
        lemma_pow2_strictly_increases(k, h);
        assert(false);
    }
}


/// One step of the definition of [`popcount`], packaged for callers.
pub proof fn lemma_popcount_unfold(n: nat)
    ensures
        popcount(n) == n % 2 + popcount(n / 2),
{
    if n == 0 {
        assert(popcount(0) == 0);
    }
}

/// One step of the definition of [`trailing_ones`], packaged for callers.
pub proof fn lemma_trailing_ones_unfold(n: nat)
    ensures
        n % 2 == 0 ==> trailing_ones(n) == 0,
        n % 2 == 1 ==> trailing_ones(n) == 1 + trailing_ones(n / 2),
{
}


/// Equal arguments have equal set-bit counts.  Stated as a lemma so callers
/// can bridge two occurrences whose arguments are only provably equal.
pub proof fn lemma_popcount_congruence(a: nat, b: nat)
    requires
        a == b,
    ensures
        popcount(a) == popcount(b),
    decreases a,
{
    if a == 0 {
        lemma2_to64();
        lemma_popcount_bound(a, 0);
        lemma_popcount_bound(b, 0);
    } else {
        lemma_popcount_congruence(a / 2, b / 2);
        lemma_popcount_unfold(a);
        lemma_popcount_unfold(b);
    }
}

/// Shifting left by `k` does not change the number of set bits.
pub proof fn lemma_popcount_shift(a: nat, k: nat)
    ensures
        popcount(a * pow2(k)) == popcount(a),
    decreases k,
{
    if k == 0 {
        assert(pow2(0) == 1) by {
            lemma2_to64();
        }
        assert(a * 1 == a) by (nonlinear_arith);
    } else {
        lemma_pow2_unfold(k);
        lemma_pow2_pos((k - 1) as nat);
        assert(a * pow2(k) == (2 * a) * pow2((k - 1) as nat)) by (nonlinear_arith)
            requires
                pow2(k) == 2 * pow2((k - 1) as nat),
        ;
        lemma_popcount_shift(2 * a, (k - 1) as nat);
        lemma_popcount_unfold(2 * a);
        lemma_fundamental_div_mod_converse((2 * a) as int, 2, a as int, 0);
    }
}

/// An odd number loses exactly one set bit when decremented.
pub proof fn lemma_popcount_odd_pred(m: nat)
    requires
        m % 2 == 1,
    ensures
        popcount((m - 1) as nat) == popcount(m) - 1,
{
    lemma_fundamental_div_mod(m as int, 2);
    lemma_popcount_unfold(m);
    lemma_popcount_unfold((m - 1) as nat);
    lemma_fundamental_div_mod_converse((m - 1) as int, 2, (m / 2) as int, 0);
}

/// The three divide-and-parity conditions pin the split height down.
pub proof fn lemma_split_height_unique(a: nat, b: nat, h: nat)
    requires
        a / pow2(h + 1) == b / pow2(h + 1),
        (b / pow2(h)) % 2 == 1,
        (a / pow2(h)) % 2 == 0,
    ensures
        split_height(a, b) == h,
    decreases h,
{
    assert(pow2(0) == 1 && pow2(1) == 2) by {
        lemma2_to64();
    }
    if h == 0 {
        lemma_div_basics(a as int);
        lemma_div_basics(b as int);
    } else {
        lemma_div_pow2_succ(a, h);
        lemma_div_pow2_succ(b, h);
        lemma_div_pow2_succ(a, (h - 1) as nat);
        lemma_div_pow2_succ(b, (h - 1) as nat);
        assert((a / 2) / pow2(h) == (b / 2) / pow2(h));
        assert(((b / 2) / pow2((h - 1) as nat)) % 2 == 1);
        assert(((a / 2) / pow2((h - 1) as nat)) % 2 == 0);
        lemma_split_height_unique(a / 2, b / 2, (h - 1) as nat);
        // The two differ at height h, hence below the top they still differ.
        assert(a / 2 != b / 2);
    }
}

/// Dividing a left-shifted value undoes the shift.
pub proof fn lemma_mul_pow2_div(a: nat, k: nat)
    ensures
        (a * pow2(k)) / pow2(k) == a,
        (a * pow2(k)) % pow2(k) == 0,
{
    lemma_pow2_pos(k);
    lemma_fundamental_div_mod_converse((a * pow2(k)) as int, pow2(k) as int, a as int, 0);
}

/// A left shift by `k` followed by a division by `pow2(m)`, for `m >= k`,
/// divides the unshifted value by `pow2(m - k)`.
pub proof fn lemma_mul_pow2_div_higher(a: nat, k: nat, m: nat)
    requires
        k <= m,
    ensures
        (a * pow2(k)) / pow2(m) == a / pow2((m - k) as nat),
{
    let j = (m - k) as nat;
    lemma_pow2_pos(k);
    lemma_pow2_pos(j);
    lemma_pow2_adds(k, j);
    lemma_div_denominator((a * pow2(k)) as int, pow2(k) as int, pow2(j) as int);
    lemma_mul_pow2_div(a, k);
}

/// The low `m` bits of a value shifted left by `k <= m` are the low `m - k`
/// bits of the value, shifted by the same amount.
pub proof fn lemma_mul_pow2_mod_higher(a: nat, k: nat, m: nat)
    requires
        k <= m,
    ensures
        (a * pow2(k)) % pow2(m) == (a % pow2((m - k) as nat)) * pow2(k),
{
    let j = (m - k) as nat;
    lemma_pow2_pos(k);
    lemma_pow2_pos(j);
    lemma_pow2_adds(k, j);
    assert(pow2(m) == pow2(k) * pow2(j));
    lemma_fundamental_div_mod(a as int, pow2(j) as int);
    let q = a / pow2(j);
    let r = a % pow2(j);
    assert((a * pow2(k)) as int == pow2(m) * q + r * pow2(k)) by (nonlinear_arith)
        requires
            a as int == pow2(j) * q + r,
            pow2(m) == pow2(k) * pow2(j),
    ;
    assert(r * pow2(k) < pow2(m)) by (nonlinear_arith)
        requires
            r < pow2(j),
            pow2(m) == pow2(k) * pow2(j),
            pow2(k) >= 1,
    ;
    lemma_fundamental_div_mod_converse(
        (a * pow2(k)) as int,
        pow2(m) as int,
        q as int,
        (r * pow2(k)) as int,
    );
}

/// For odd `n` and `j >= 1`, decrementing `n` does not change its quotient
/// by `pow2(j)`.
pub proof fn lemma_odd_pred_div_stable(n: nat, j: nat)
    requires
        n % 2 == 1,
        j >= 1,
    ensures
        (n - 1) as nat / pow2(j) == n / pow2(j),
    decreases j,
{
    let m = (n - 1) as nat;
    lemma_pow2_pos(j);
    lemma_fundamental_div_mod(m as int, pow2(j) as int);
    let q = m / pow2(j);
    let r = m % pow2(j);
    // m is even and pow2(j) is even, so the remainder r is even and thus
    // strictly below pow2(j) - 1.
    lemma_pow2_unfold(j);
    let x = pow2((j - 1) as nat) as int * q as int;
    assert(m as int == 2 * x + r) by (nonlinear_arith)
        requires
            m as int == pow2(j) * q + r,
            pow2(j) == 2 * pow2((j - 1) as nat),
            x == pow2((j - 1) as nat) as int * q as int,
    ;
    assert(r % 2 == 0);
    lemma_fundamental_div_mod_converse(n as int, pow2(j) as int, q as int, (r + 1) as int);
}


/// For odd `n` and `j >= 1`, the low `j` bits of `n` are odd, and those of
/// `n - 1` are exactly one less.
pub proof fn lemma_odd_mod_pow2(n: nat, j: nat)
    requires
        n % 2 == 1,
        j >= 1,
    ensures
        (n % pow2(j)) % 2 == 1,
        ((n - 1) as nat) % pow2(j) == n % pow2(j) - 1,
{
    lemma_pow2_pos(j);
    lemma_pow2_unfold(j);
    lemma_fundamental_div_mod(n as int, pow2(j) as int);
    let q = n / pow2(j);
    let r = n % pow2(j);
    let x = pow2((j - 1) as nat) as int * q as int;
    assert(n as int == 2 * x + r) by (nonlinear_arith)
        requires
            n as int == pow2(j) * q + r,
            pow2(j) == 2 * pow2((j - 1) as nat),
            x == pow2((j - 1) as nat) as int * q as int,
    ;
    assert(r % 2 == 1);
    lemma_fundamental_div_mod_converse((n - 1) as int, pow2(j) as int, q as int, (r - 1) as int);
}

/// While carries are owed, the bits of `n` below the cut are ones, the bit
/// at the cut of `n + 1` absorbs them, and above the cut nothing changes.
pub proof fn lemma_trailing_ones_carry(n: nat, j: nat)
    requires
        j <= trailing_ones(n),
    ensures
        (n + 1) / pow2(j) == n / pow2(j) + 1,
        j < trailing_ones(n) ==> (n / pow2(j)) % 2 == 1,
        j == trailing_ones(n) ==> (n / pow2(j)) % 2 == 0,
    decreases j,
{
    lemma_trailing_ones_unfold(n);
    assert(pow2(0) == 1) by {
        lemma2_to64();
    }
    if j == 0 {
        lemma_div_basics(n as int);
        lemma_div_basics((n + 1) as int);
        lemma_fundamental_div_mod(n as int, 2);
        if trailing_ones(n) == 0 {
            assert(n % 2 == 0);
        } else {
            assert(n % 2 == 1);
        }
    } else {
        // j >= 1 and trailing_ones(n) >= 1, so n is odd.
        assert(n % 2 == 1);
        lemma_fundamental_div_mod(n as int, 2);
        lemma_fundamental_div_mod_converse((n + 1) as int, 2, (n / 2 + 1) as int, 0);
        lemma_trailing_ones_carry(n / 2, (j - 1) as nat);
        lemma_div_pow2_succ(n, (j - 1) as nat);
        lemma_div_pow2_succ(n + 1, (j - 1) as nat);
        assert((n + 1) / 2 == n / 2 + 1);
    }
}


/// For odd `n`, a leaf index below the last (shortest) tree of the forest of
/// `n * pow2(lev)` splits from the count strictly above `lev`, and at the
/// same height whether or not that last tree is stripped from the count.
pub proof fn lemma_split_height_strip(i: nat, n: nat, lev: nat)
    requires
        n % 2 == 1,
        i < (n - 1) as nat * pow2(lev),
    ensures
        split_height(i, n * pow2(lev)) > lev,
        split_height(i, (n - 1) as nat * pow2(lev)) == split_height(i, n * pow2(lev)),
{
    let nn = n * pow2(lev);
    let base = (n - 1) as nat * pow2(lev);
    lemma_pow2_pos(lev);
    assert(base < nn) by (nonlinear_arith)
        requires
            nn == n * pow2(lev),
            base == (n - 1) as nat * pow2(lev),
            n >= 1,
            pow2(lev) >= 1,
    ;
    lemma_split_height_props(i, nn);
    let h = split_height(i, nn);
    if h <= lev {
        // The count is divisible by pow2(h), so agreement above h together
        // with the parity bits forces i to lie inside the last tree.
        let d = (lev - h) as nat;
        lemma_pow2_adds(h, d);
        lemma_pow2_pos(h);
        lemma_pow2_pos(d);
        assert(nn == (n * pow2(d)) * pow2(h)) by (nonlinear_arith)
            requires
                nn == n * pow2(lev),
                pow2(lev) == pow2(h) * pow2(d),
        ;
        lemma_mul_pow2_div(n * pow2(d), h);
        let a2 = i / pow2(h);
        let b2 = nn / pow2(h);
        lemma_div_pow2_chain(i, h);
        lemma_div_pow2_chain(nn, h);
        lemma_fundamental_div_mod(a2 as int, 2);
        lemma_fundamental_div_mod(b2 as int, 2);
        assert(b2 == a2 + 1);
        lemma_fundamental_div_mod(i as int, pow2(h) as int);
        assert(i >= pow2(h) * a2);
        assert(pow2(h) * a2 == nn - pow2(h)) by (nonlinear_arith)
            requires
                nn == (n * pow2(d)) * pow2(h),
                b2 == n * pow2(d),
                b2 == a2 + 1,
        ;
        if h < lev {
            lemma_pow2_strictly_increases(h, lev);
        }
        assert(pow2(lev) <= nn - base) by (nonlinear_arith)
            requires
                nn == n * pow2(lev),
                base == (n - 1) as nat * pow2(lev),
                n >= 1,
        ;
        assert(false);
    }
    let j = (h - lev) as nat;
    lemma_mul_pow2_div_higher(n, lev, h);
    lemma_mul_pow2_div_higher(n, lev, h + 1);
    lemma_mul_pow2_div_higher((n - 1) as nat, lev, h);
    lemma_mul_pow2_div_higher((n - 1) as nat, lev, h + 1);
    lemma_odd_pred_div_stable(n, j);
    lemma_odd_pred_div_stable(n, j + 1);
    lemma_split_height_unique(i, base, h);
}

/// Stripping the lowest set bit of an odd shifted count removes exactly one
/// peak below any cut above the shift, and one in total.
pub proof fn lemma_popcount_strip_low_tree(n: nat, lev: nat, h: nat)
    requires
        n % 2 == 1,
        lev < h,
    ensures
        popcount((n - 1) as nat * pow2(lev)) == popcount(n * pow2(lev)) - 1,
        popcount(((n - 1) as nat * pow2(lev)) % pow2(h)) == popcount((n * pow2(lev)) % pow2(h))
            - 1,
        popcount((n * pow2(lev)) % pow2(h)) >= 1,
{
    let j = (h - lev) as nat;
    lemma_odd_mod_pow2(n, j);
    let mlow: nat = n % pow2(j);
    lemma_odd_ge_one(mlow);
    lemma_popcount_congruence(((n - 1) as nat) % pow2(j), (mlow - 1) as nat);
    lemma_popcount_odd_pred(mlow);
    lemma_popcount_odd_pos(mlow);
    lemma_popcount_shift(n, lev);
    lemma_popcount_shift((n - 1) as nat, lev);
    lemma_popcount_odd_pred(n);
    lemma_mul_pow2_mod_higher(n, lev, h);
    lemma_mul_pow2_mod_higher((n - 1) as nat, lev, h);
    lemma_popcount_shift(mlow, lev);
    lemma_popcount_shift(((n - 1) as nat) % pow2(j), lev);
}

/// Computes `pow2(e)` for exponents that fit a 64-bit word.
pub fn pow2_u64(e: u32) -> (r: u64)
    requires
        e < 64,
    ensures
        r == pow2(e as nat),
{
    let mut r: u64 = 1;
    let mut i: u32 = 0;
    proof {
        assert(pow2(0) == 1) by {
            lemma2_to64();
        }
    }
    while i < e
        invariant
            i <= e,
            e < 64,
            r == pow2(i as nat),
        decreases e - i,
    {
        proof {
            lemma_pow2_unfold(i as nat + 1);
            lemma_pow2_strictly_increases(i as nat + 1, 64);
            lemma2_to64_rest();
        }
        r = r * 2;
        i = i + 1;
    }
    r
}

/// The exponent of the highest power of two not exceeding `n`.
pub fn floor_log2_u64(n: u64) -> (r: u32)
    requires
        n >= 1,
    ensures
        pow2(r as nat) <= n < pow2(r as nat + 1),
        r < 64,
{
    let mut m: u64 = n;
    let mut r: u32 = 0;
    proof {
        assert(pow2(0) == 1) by {
            lemma2_to64();
        }
        lemma2_to64_rest();
    }
    while m >= 2
        invariant
            1 <= m,
            m == n as nat / pow2(r as nat),
            r < 64,
            n < pow2(64),
        decreases m,
    {
        proof {
            lemma_pow2_pos(r as nat);
            lemma_div_denominator(n as int, pow2(r as nat) as int, 2);
            lemma_pow2_adds(r as nat, 1);
            assert(pow2(1) == 2) by {
                lemma2_to64();
            }
            assert((n as nat / pow2(r as nat)) / 2 == n as nat / pow2(r as nat + 1));
            // m >= 2 means n >= 2 * pow2(r) == pow2(r + 1), so r + 1 < 64.
            lemma_pow2_pos(r as nat);
            lemma_fundamental_div_mod(n as int, pow2(r as nat) as int);
            lemma_pow2_unfold(r as nat + 1);
            assert(pow2(r as nat + 1) <= n) by (nonlinear_arith)
                requires
                    pow2(r as nat + 1) == 2 * pow2(r as nat),
                    n as nat >= pow2(r as nat) * (n as nat / pow2(r as nat)),
                    n as nat / pow2(r as nat) >= 2,
                    pow2(r as nat) >= 1,
            ;
            if r as nat + 1 >= 64 {
                lemma_pow2_strictly_increases(64, r as nat + 1);
                assert(false);
            }
        }
        m = m / 2;
        r = r + 1;
    }
    proof {
        // m == 1: pow2(r) <= n < pow2(r + 1).
        lemma_pow2_pos(r as nat);
        lemma_fundamental_div_mod(n as int, pow2(r as nat) as int);
        lemma_pow2_unfold(r as nat + 1);
    }
    r
}

/// The successor of an odd number is even.
pub proof fn lemma_odd_succ_even(e: nat)
    requires
        e % 2 == 1,
    ensures
        (e + 1) % 2 == 0,
{
    lemma_fundamental_div_mod(e as int, 2);
    lemma_fundamental_div_mod_converse((e + 1) as int, 2, (e / 2 + 1) as int, 0);
}

/// An odd number is positive.
pub proof fn lemma_odd_ge_one(m: nat)
    requires
        m % 2 == 1,
    ensures
        m >= 1,
{
}

/// An odd number has at least one set bit.
pub proof fn lemma_popcount_odd_pos(m: nat)
    requires
        m % 2 == 1,
    ensures
        popcount(m) >= 1,
{
    assert(popcount(m) == m % 2 + popcount(m / 2));
}

/// The peak holding leaf `i` exists: at the split height `h` of `i` and `n`,
/// the count `n` carries a one bit, so the peaks above the cut number at
/// least one.
pub proof fn lemma_peak_index_bounds(i: nat, n: nat)
    requires
        i < n,
    ensures
        popcount(n) == popcount(n / pow2(split_height(i, n))) + popcount(
            n % pow2(split_height(i, n)),
        ),
        popcount(n / pow2(split_height(i, n))) >= 1,
{
    let h = split_height(i, n);
    lemma_split_height_props(i, n);
    lemma_popcount_split(n, h);
    lemma_popcount_odd_pos(n / pow2(h));
}

/// Counts the set bits of `n`.
pub fn popcount_u64(n: u64) -> (r: u32)
    ensures
        r == popcount(n as nat),
{
    proof {
        lemma2_to64_rest();
        lemma_popcount_bound(n as nat, 64);
    }
    let mut m: u64 = n;
    let mut r: u32 = 0;
    while m > 0
        invariant
            popcount(n as nat) == r + popcount(m as nat),
            popcount(n as nat) <= 64,
        decreases m,
    {
        proof {
            lemma_fundamental_div_mod(m as int, 2);
            lemma_trailing_ones_le_popcount(m as nat);
        }
        if m % 2 == 1 {
            r = r + 1;
        }
        m = m / 2;
    }
    r
}

/// Counts the consecutive one bits at the low end of `n`.
pub fn trailing_ones_u64(n: u64) -> (r: u32)
    ensures
        r == trailing_ones(n as nat),
{
    proof {
        lemma2_to64_rest();
        lemma_popcount_bound(n as nat, 64);
        lemma_trailing_ones_le_popcount(n as nat);
    }
    let mut m: u64 = n;
    let mut r: u32 = 0;
    while m % 2 == 1
        invariant
            trailing_ones(n as nat) == r + trailing_ones(m as nat),
            trailing_ones(n as nat) <= 64,
        decreases m,
    {
        proof {
            lemma_fundamental_div_mod(m as int, 2);
        }
        r = r + 1;
        m = m / 2;
    }
    r
}

} // verus!
