//! Greatest-common-divisor computation and the tail-relaxed gcd search used
//! to plan row-distribution cycles.
//!
//! `max_gcd_with_tail` may discard up to one percent of either operand (the
//! "tail") if doing so yields a larger gcd; the winning gcd then gives the
//! number of interleaving cycles for one partition group against the groups
//! after it.

use vstd::arithmetic::div_mod::*;
use vstd::arithmetic::mul::*;
use vstd::prelude::*;

verus! {

/// `d` divides `x`.
pub open spec fn divides(d: int, x: int) -> bool {
    exists|k: int| x == #[trigger] (d * k)
}

/// The greatest common divisor, by Euclid's rule; `spec_gcd(a, 0) == a`.
pub open spec fn spec_gcd(a: nat, b: nat) -> nat
    decreases b,
{
    if b == 0 {
        a
    } else {
        spec_gcd(b, a % b)
    }
}

/// The gcd divides both operands and is positive when either operand is.
pub proof fn lemma_gcd_divides(a: nat, b: nat)
    ensures
        (a > 0 || b > 0) ==> spec_gcd(a, b) >= 1,
        divides(spec_gcd(a, b) as int, a as int),
        divides(spec_gcd(a, b) as int, b as int),
    decreases b,
{
    if b == 0 {
        assert(a as int == a as int * 1);
        assert(b as int == a as int * 0);
    } else {
        lemma_gcd_divides(b, a % b);
        let g = spec_gcd(b, a % b) as int;
        lemma_fundamental_div_mod(a as int, b as int);
        let kb = choose|k: int| b as int == #[trigger] (g * k);
        let kr = choose|k: int| (a % b) as int == #[trigger] (g * k);
        assert(a as int == g * ((a as int / b as int) * kb + kr)) by (nonlinear_arith)
            requires
                a as int == b as int * (a as int / b as int) + (a % b) as int,
                b as int == g * kb,
                (a % b) as int == g * kr,
        ;
    }
}

/// Any common divisor of the operands divides their gcd.
pub proof fn lemma_gcd_greatest(a: nat, b: nat, d: int)
    requires
        d >= 1,
        divides(d, a as int),
        divides(d, b as int),
    ensures
        divides(d, spec_gcd(a, b) as int),
    decreases b,
{
    if b == 0 {
    } else {
        lemma_fundamental_div_mod(a as int, b as int);
        let ka = choose|k: int| a as int == #[trigger] (d * k);
        let kb = choose|k: int| b as int == #[trigger] (d * k);
        assert((a % b) as int == d * (ka - (a as int / b as int) * kb)) by (nonlinear_arith)
            requires
                a as int == b as int * (a as int / b as int) + (a % b) as int,
                a as int == d * ka,
                b as int == d * kb,
        ;
        lemma_gcd_greatest(b, a % b, d);
    }
}

/// A positive divisor of a positive number is no larger than it.
pub proof fn lemma_divides_le(d: int, x: int)
    requires
        d >= 1,
        x >= 1,
        divides(d, x),
    ensures
        d <= x,
{
    let k = choose|k: int| x == #[trigger] (d * k);
    assert(k >= 1 && d * k >= d) by (nonlinear_arith)
        requires
            d >= 1,
            d * k >= 1,
    ;
}

/// Computes the greatest common divisor of two numbers.
pub fn gcd(n1: u64, n2: u64) -> (r: u64)
    ensures
        r == spec_gcd(n1 as nat, n2 as nat),
    decreases n2,
{
    if n2 == 0 {
        n1
    } else {
        gcd(n2, n1 % n2)
    }
}

/// The best candidate after scanning first-operand tails `0..=t`: the
/// largest `gcd(n1 - s, n2)` seen, together with the first tail achieving
/// it (a later tail only wins strictly).
pub open spec fn spec_scan_first(n1: u64, n2: u64, t: int) -> (int, int)
    decreases t,
{
    if t <= 0 {
        (spec_gcd(n1 as nat, n2 as nat) as int, 0)
    } else {
        let prev = spec_scan_first(n1, n2, t - 1);
        let cand = spec_gcd((n1 - t) as nat, n2 as nat) as int;
        if cand > prev.0 {
            (cand, t)
        } else {
            prev
        }
    }
}

/// The best candidate after additionally scanning second-operand tails
/// `0..=u`, seeded with the whole first-operand scan: `(gcd, tail1, tail2)`.
/// A second-side candidate only wins strictly, and then clears the first
/// side's tail.
pub open spec fn spec_scan_second(n1: u64, n2: u64, u: int) -> (int, int, int)
    decreases u,
{
    if u <= 0 {
        let first = spec_scan_first(n1, n2, n1 as int / 100);
        let cand = spec_gcd(n1 as nat, n2 as nat) as int;
        if cand > first.0 {
            (cand, 0, 0)
        } else {
            (first.0, first.1, 0)
        }
    } else {
        let prev = spec_scan_second(n1, n2, u - 1);
        let cand = spec_gcd(n1 as nat, (n2 - u) as nat) as int;
        if cand > prev.0 {
            (cand, 0, u)
        } else {
            prev
        }
    }
}

/// The split the search chooses for `(n1, n2)`: the scanned maximum with its
/// tails, each multiplier being the chosen head divided by the gcd.
pub open spec fn spec_best_split(n1: u64, n2: u64) -> (u64, (u64, u64), (u64, u64)) {
    let b = spec_scan_second(n1, n2, n2 as int / 100);
    (
        b.0 as u64,
        (((n1 - b.1) / b.0) as u64, b.1 as u64),
        (((n2 - b.2) / b.0) as u64, b.2 as u64),
    )
}

/// What `max_gcd_with_tail` promises of its result `(g, (m1, t1), (m2, t2))`
/// for operands `(n1, n2)`.
pub open spec fn max_gcd_split_wf(n1: u64, n2: u64, r: (u64, (u64, u64), (u64, u64))) -> bool {
    let g = r.0;
    let m1 = r.1.0;
    let t1 = r.1.1;
    let m2 = r.2.0;
    let t2 = r.2.1;
    &&& g >= 1
    &&& t1 <= n1 as int / 100
    &&& t2 <= n2 as int / 100
    &&& (t1 == 0 || t2 == 0)
    &&& n1 as int == g as int * m1 as int + t1 as int
    &&& n2 as int == g as int * m2 as int + t2 as int
    &&& (t1 > 0 ==> t1 < g)
    &&& (t2 > 0 ==> t2 < g)
}

/// Takes the row counts of a partition group and of all groups after it, and
/// finds the split `(head, tail)` of either operand — the tail at most one
/// percent of it — that maximises `gcd(head, other operand)`.  Returns that
/// gcd, and for each operand its multiplier `head / gcd` and its tail.
pub fn max_gcd_with_tail(n1: u64, n2: u64) -> (r: (u64, (u64, u64), (u64, u64)))
    requires
        n1 >= 1,
    ensures
        max_gcd_split_wf(n1, n2, r),
        r == spec_best_split(n1, n2),
        r.0 == spec_gcd((n1 - r.1.1) as nat, (n2 - r.2.1) as nat),
        forall|s: int|
            0 <= s <= n1 as int / 100 ==> #[trigger] spec_gcd((n1 - s) as nat, n2 as nat) <= r.0,
        forall|s: int|
            0 <= s <= n2 as int / 100 ==> #[trigger] spec_gcd(n1 as nat, (n2 - s) as nat) <= r.0,
{
    let mut max_gcd: u64 = 0;
    let mut best_m1: u64 = 0;
    let mut best_t1: u64 = 0;
    let mut best_m2: u64 = 0;
    let mut best_t2: u64 = 0;

    let max_tail_n1 = n1 / 100;
    proof {
        assert(max_tail_n1 < n1) by {
            if n1 > 1 {
                lemma_div_decreases(n1 as int, 100);
            }
        }
    }
    let mut t: u64 = 0;
    while t <= max_tail_n1
        invariant
            n1 >= 1,
            max_tail_n1 == n1 as int / 100,
            max_tail_n1 < n1,
            t <= max_tail_n1 + 1,
            t == 0 ==> max_gcd == 0,
            t >= 1 ==> {
                &&& max_gcd >= 1
                &&& best_t2 == 0
                &&& best_t1 < t
                &&& best_t1 <= max_tail_n1
                &&& n1 as int == max_gcd as int * best_m1 as int + best_t1 as int
                &&& n2 as int == max_gcd as int * best_m2 as int
                &&& max_gcd == spec_gcd((n1 - best_t1) as nat, n2 as nat)
                &&& (max_gcd as int, best_t1 as int) == spec_scan_first(n1, n2, t - 1)
                &&& forall|s: int|
                    0 <= s < t ==> #[trigger] spec_gcd((n1 - s) as nat, n2 as nat) <= max_gcd
                &&& (best_t1 > 0 ==> forall|s: int|
                    0 <= s < best_t1 ==> #[trigger] spec_gcd((n1 - s) as nat, n2 as nat) < max_gcd)
            },
        decreases max_tail_n1 + 1 - t,
    {
        let head_n1 = n1 - t;
        let gcd_value = gcd(head_n1, n2);
        proof {
            lemma_gcd_divides(head_n1 as nat, n2 as nat);
        }
        if gcd_value > max_gcd {
            proof {
                let g = gcd_value as int;
                let k1 = choose|k: int| head_n1 as int == #[trigger] (g * k);
                assert(head_n1 as int / g == k1 && head_n1 as int == g * (head_n1 as int / g)) by {
                    lemma_div_multiples_vanish(k1, g);
                    lemma_mul_is_commutative(g, k1);
                }
                let k2 = choose|k: int| n2 as int == #[trigger] (g * k);
                assert(n2 as int / g == k2 && n2 as int == g * (n2 as int / g)) by {
                    lemma_div_multiples_vanish(k2, g);
                    lemma_mul_is_commutative(g, k2);
                }
            }
            max_gcd = gcd_value;
            best_m1 = head_n1 / gcd_value;
            best_t1 = t;
            best_m2 = n2 / gcd_value;
            best_t2 = 0;
        }
        t = t + 1;
    }

    let max_tail_n2 = n2 / 100;
    proof {
        assert(n2 >= 1 ==> max_tail_n2 < n2) by {
            if n2 > 1 {
                lemma_div_decreases(n2 as int, 100);
            }
        }
        assert(n2 == 0 ==> max_tail_n2 == 0);
    }
    let mut u: u64 = 0;
    while u <= max_tail_n2
        invariant
            n1 >= 1,
            max_tail_n2 == n2 as int / 100,
            max_tail_n2 <= n2,
            u <= max_tail_n2 + 1,
            max_gcd >= 1,
            best_t1 == 0 || best_t2 == 0,
            best_t1 <= n1 as int / 100,
            best_t2 <= max_tail_n2,
            n1 as int == max_gcd as int * best_m1 as int + best_t1 as int,
            n2 as int == max_gcd as int * best_m2 as int + best_t2 as int,
            max_gcd as int == spec_gcd((n1 - best_t1) as nat, (n2 - best_t2) as nat) as int,
            u == 0 ==> best_t2 == 0 && (max_gcd as int, best_t1 as int) == spec_scan_first(
                n1,
                n2,
                n1 as int / 100,
            ),
            u >= 1 ==> (max_gcd as int, best_t1 as int, best_t2 as int) == spec_scan_second(
                n1,
                n2,
                u - 1,
            ),
            forall|s: int|
                0 <= s <= n1 as int / 100 ==> #[trigger] spec_gcd((n1 - s) as nat, n2 as nat)
                    <= max_gcd,
            best_t1 > 0 ==> forall|s: int|
                0 <= s < best_t1 ==> #[trigger] spec_gcd((n1 - s) as nat, n2 as nat) < max_gcd,
            best_t2 > 0 ==> best_t2 < u,
            best_t2 > 0 ==> forall|s: int|
                0 <= s < best_t2 ==> #[trigger] spec_gcd(n1 as nat, (n2 - s) as nat) < max_gcd,
            forall|s: int| 0 <= s < u ==> #[trigger] spec_gcd(n1 as nat, (n2 - s) as nat) <= max_gcd,
        decreases max_tail_n2 + 1 - u,
    {
        let head_n2 = n2 - u;
        let gcd_value = gcd(n1, head_n2);
        proof {
            lemma_gcd_divides(n1 as nat, head_n2 as nat);
        }
        if gcd_value > max_gcd {
            proof {
                let g = gcd_value as int;
                let k1 = choose|k: int| n1 as int == #[trigger] (g * k);
                assert(n1 as int / g == k1 && n1 as int == g * (n1 as int / g)) by {
                    lemma_div_multiples_vanish(k1, g);
                    lemma_mul_is_commutative(g, k1);
                }
                let k2 = choose|k: int| head_n2 as int == #[trigger] (g * k);
                assert(head_n2 as int / g == k2 && head_n2 as int == g * (head_n2 as int / g)) by {
                    lemma_div_multiples_vanish(k2, g);
                    lemma_mul_is_commutative(g, k2);
                }
            }
            max_gcd = gcd_value;
            best_m1 = n1 / gcd_value;
            best_t1 = 0;
            best_m2 = head_n2 / gcd_value;
            best_t2 = u;
        }
        u = u + 1;
    }

    proof {
        let g = max_gcd as int;
        if best_t1 > 0 && g <= best_t1 {
            let s = best_t1 - g;
            let m1 = best_m1 as int;
            assert((n1 - s) as int == g * (m1 + 1)) by (nonlinear_arith)
                requires
                    n1 as int == g * m1 + best_t1 as int,
                    s == best_t1 - g,
            ;
            assert(divides(g, (n1 - s) as int));
            assert(divides(g, n2 as int));
            lemma_gcd_greatest((n1 - s) as nat, n2 as nat, g);
            lemma_gcd_divides((n1 - s) as nat, n2 as nat);
            lemma_divides_le(g, spec_gcd((n1 - s) as nat, n2 as nat) as int);
            assert(false);
        }
        if best_t2 > 0 && g <= best_t2 {
            let s = best_t2 - g;
            let m2 = best_m2 as int;
            assert((n2 - s) as int == g * (m2 + 1)) by (nonlinear_arith)
                requires
                    n2 as int == g * m2 + best_t2 as int,
                    s == best_t2 - g,
            ;
            assert(divides(g, (n2 - s) as int));
            assert(divides(g, n1 as int));
            lemma_gcd_greatest(n1 as nat, (n2 - s) as nat, g);
            lemma_gcd_divides(n1 as nat, (n2 - s) as nat);
            lemma_divides_le(g, spec_gcd(n1 as nat, (n2 - s) as nat) as int);
            assert(false);
        }
        // the final state is exactly the scanned best split
        assert((max_gcd as int, best_t1 as int, best_t2 as int) == spec_scan_second(
            n1,
            n2,
            n2 as int / 100,
        ));
        assert((n1 - best_t1) as int == g * (best_m1 as int));
        assert((n1 - best_t1) as int / g == best_m1 as int) by {
            lemma_div_multiples_vanish(best_m1 as int, g);
            lemma_mul_is_commutative(g, best_m1 as int);
        }
        assert((n2 - best_t2) as int == g * (best_m2 as int));
        assert((n2 - best_t2) as int / g == best_m2 as int) by {
            lemma_div_multiples_vanish(best_m2 as int, g);
            lemma_mul_is_commutative(g, best_m2 as int);
        }
    }
    (max_gcd, (best_m1, best_t1), (best_m2, best_t2))
}

} // verus!
