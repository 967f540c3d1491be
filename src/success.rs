use vstd::prelude::*;

verus! {

/// The least retry bound unit: lengths below it count as this.
pub const MIN_LENGTH: usize = 16;

/// Lifetime success rate as a fraction (numerator, denominator); one half
/// before any attempt is recorded.
pub open spec fn rate(successes: nat, attempts: nat) -> (nat, nat) {
    if attempts == 0 {
        (1, 2)
    } else {
        (successes, attempts)
    }
}

/// `ceil(1 / clamp(num / den, 1/100, 99/100))`.
pub open spec fn multiplier_of(num: nat, den: nat) -> nat {
    if 100 * num <= den {
        100
    } else if 100 * num >= 99 * den {
        2
    } else {
        ((den + num - 1) as int / (num as int)) as nat
    }
}

/// The retry multiplier that a generator's counters give.
pub open spec fn rate_multiplier(successes: nat, attempts: nat) -> nat {
    multiplier_of(rate(successes, attempts).0, rate(successes, attempts).1)
}

pub open spec fn length_unit(length: nat) -> nat {
    if length < MIN_LENGTH {
        MIN_LENGTH as nat
    } else {
        length
    }
}

/// `ceil(1 / clamp(success_rate, 0.01, 0.99)) * max(length, 16)`.
pub open spec fn adaptive_bound(successes: nat, attempts: nat, length: nat) -> nat {
    rate_multiplier(successes, attempts) * length_unit(length)
}

/// Whether the rate of the first counter pair is at most that of the second.
pub open spec fn rate_le(s1: nat, t1: nat, s2: nat, t2: nat) -> bool {
    rate(s1, t1).0 * rate(s2, t2).1 <= rate(s2, t2).0 * rate(s1, t1).1
}

proof fn lemma_ceil_upper(d: nat, n: nat, q: nat)
    requires
        n > 0,
        d <= q * n,
    ensures
        (d + n - 1) / (n as int) <= q,
{
    assert((d + n - 1) / (n as int) <= q) by (nonlinear_arith)
        requires
            n > 0,
            d <= q * n,
    ;
}

proof fn lemma_ceil_lower(d: nat, n: nat)
    requires
        n > 0,
    ensures
        ((d + n - 1) / (n as int)) * n >= d,
{
    assert(((d + n - 1) / (n as int)) * n >= d) by (nonlinear_arith)
        requires
            n > 0,
    ;
}

proof fn lemma_multiplier_range(num: nat, den: nat)
    requires
        num <= den,
        den > 0,
    ensures
        2 <= multiplier_of(num, den) <= 100,
{
    if !(100 * num <= den) && !(100 * num >= 99 * den) {
        lemma_ceil_upper(den, num, 100);
        let c = (den + num - 1) / (num as int);
        lemma_ceil_lower(den, num);
        assert(c >= 2) by (nonlinear_arith)
            requires
                c * num >= den,
                100 * num < 99 * den,
                num > 0,
        ;
    }
}

/// The adaptive bound lies between one and a hundred times `max(length, 16)`,
/// for every state of the counters.
pub proof fn lemma_bound_range(successes: nat, attempts: nat, length: nat)
    requires
        successes <= attempts,
    ensures
        length_unit(length) <= adaptive_bound(successes, attempts, length) <= 100 * length_unit(length),
        2 <= rate_multiplier(successes, attempts) <= 100,
{
    let (n, d) = rate(successes, attempts);
    lemma_multiplier_range(n, d);
    let m = rate_multiplier(successes, attempts);
    let u = length_unit(length);
    assert(u <= m * u <= 100 * u) by (nonlinear_arith)
        requires
            2 <= m <= 100,
    ;
}

/// A lower lifetime success rate never gives a smaller adaptive bound.
pub proof fn lemma_bound_monotone(s1: nat, t1: nat, s2: nat, t2: nat, length: nat)
    requires
        s1 <= t1,
        s2 <= t2,
        rate_le(s2, t2, s1, t1),
    ensures
        adaptive_bound(s1, t1, length) <= adaptive_bound(s2, t2, length),
{
    let (n1, d1) = rate(s1, t1);
    let (n2, d2) = rate(s2, t2);
    lemma_multiplier_range(n1, d1);
    lemma_multiplier_range(n2, d2);
    let m1 = multiplier_of(n1, d1);
    let m2 = multiplier_of(n2, d2);
    if 100 * n2 <= d2 || 100 * n1 >= 99 * d1 {
    } else {
        assert(100 * n1 > d1) by (nonlinear_arith)
            requires
                100 * n2 > d2,
                n2 * d1 <= n1 * d2,
                d1 > 0,
                d2 > 0,
        ;
        assert(100 * n2 < 99 * d2) by (nonlinear_arith)
            requires
                100 * n1 < 99 * d1,
                n2 * d1 <= n1 * d2,
                d1 > 0,
                d2 > 0,
        ;
        let q = (d2 + n2 - 1) / (n2 as int);
        lemma_ceil_lower(d2, n2);
        assert(d1 <= q * n1) by (nonlinear_arith)
            requires
                q * n2 >= d2,
                n2 * d1 <= n1 * d2,
                n2 > 0,
                q >= 0,
        ;
        lemma_ceil_upper(d1, n1, q as nat);
    }
    let u = length_unit(length);
    assert(m1 * u <= m2 * u) by (nonlinear_arith)
        requires
            m1 <= m2,
    ;
}

/// Computes the adaptive bound from a generator's counters.
pub fn adaptive_retry_bound(successes: u64, attempts: u64, length: usize) -> (r: usize)
    requires
        successes <= attempts,
        length <= usize::MAX / 100,
    ensures
        r == adaptive_bound(successes as nat, attempts as nat, length as nat),
{
    proof {
        lemma_bound_range(successes as nat, attempts as nat, length as nat);
    }
    let (num, den): (u128, u128) = if attempts == 0 {
        (1, 2)
    } else {
        (successes as u128, attempts as u128)
    };
    let mult: u128 = if 100 * num <= den {
        100
    } else if 100 * num >= 99 * den {
        2
    } else {
        (den + num - 1) / num
    };
    let unit: usize = if length < MIN_LENGTH {
        MIN_LENGTH
    } else {
        length
    };
    proof {
        assert(mult * unit <= 100 * unit) by (nonlinear_arith)
            requires
                mult <= 100,
        ;
    }
    (mult as usize) * unit
}

} // verus!
