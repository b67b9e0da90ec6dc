//! Greatest common divisor and least common multiple folds.

use vstd::prelude::*;
use vstd::arithmetic::div_mod::{lemma_fundamental_div_mod, lemma_fundamental_div_mod_converse};

verus! {

/// `d` divides `a`.
pub open spec fn divides(d: int, a: int) -> bool {
    exists|k: int| a == #[trigger] (k * d)
}

/// Euclid's greatest common divisor.
pub open spec fn spec_gcd(a: int, b: int) -> int
    decreases b,
    when b >= 0
{
    if b <= 0 {
        a
    } else {
        spec_gcd(b, a % b)
    }
}

/// The greatest common divisor divides both arguments.
pub proof fn lemma_gcd_divides(a: int, b: int)
    requires
        a >= 0,
        b >= 0,
    ensures
        divides(spec_gcd(a, b), a),
        divides(spec_gcd(a, b), b),
        spec_gcd(a, b) >= 0,
    decreases b,
{
    if b == 0 {
        assert(a == 1 * spec_gcd(a, b));
        assert(0 == 0 * spec_gcd(a, b));
    } else {
        lemma_fundamental_div_mod(a, b);
        lemma_gcd_divides(b, a % b);
        let g = spec_gcd(b, a % b);
        let k1 = choose|k: int| b == #[trigger] (k * g);
        let k2 = choose|k: int| a % b == #[trigger] (k * g);
        assert(a == ((a / b) * k1 + k2) * g) by (nonlinear_arith)
            requires
                a == b * (a / b) + a % b,
                b == k1 * g,
                a % b == k2 * g,
        ;
    }
}

/// Every common divisor of the two arguments divides their greatest common
/// divisor.
pub proof fn lemma_gcd_greatest(a: int, b: int, d: int)
    requires
        a >= 0,
        b >= 0,
        divides(d, a),
        divides(d, b),
    ensures
        divides(d, spec_gcd(a, b)),
    decreases b,
{
    if b == 0 {
    } else {
        lemma_fundamental_div_mod(a, b);
        let k1 = choose|k: int| a == #[trigger] (k * d);
        let k2 = choose|k: int| b == #[trigger] (k * d);
        assert(a % b == (k1 - k2 * (a / b)) * d) by (nonlinear_arith)
            requires
                a == b * (a / b) + a % b,
                a == k1 * d,
                b == k2 * d,
        ;
        lemma_gcd_greatest(b, a % b, d);
    }
}

/// Euclid's algorithm: the greatest common divisor of `a` and `b`, dividing
/// both, and divided by every common divisor.
pub fn gcd(a: u64, b: u64) -> (r: u64)
    ensures
        r == spec_gcd(a as int, b as int),
        divides(r as int, a as int),
        divides(r as int, b as int),
        forall|d: int| divides(d, a as int) && divides(d, b as int) ==> divides(d, r as int),
    decreases b,
{
    proof {
        lemma_gcd_divides(a as int, b as int);
        assert forall|d: int| divides(d, a as int) && divides(d, b as int) implies divides(
            d,
            spec_gcd(a as int, b as int),
        ) by {
            lemma_gcd_greatest(a as int, b as int, d);
        }
    }
    if b == 0 {
        a
    } else {
        gcd(b, a % b)
    }
}

/// Divisibility carries through a middle term.
proof fn lemma_divides_transitive(a: int, b: int, c: int)
    requires
        divides(a, b),
        divides(b, c),
    ensures
        divides(a, c),
{
    let k1 = choose|k: int| b == #[trigger] (k * a);
    let k2 = choose|k: int| c == #[trigger] (k * b);
    assert(c == (k2 * k1) * a) by (nonlinear_arith)
        requires
            b == k1 * a,
            c == k2 * b,
    ;
}

/// The greatest common divisor scales with a common factor.
proof fn lemma_gcd_scale(m: int, a: int, b: int)
    requires
        m >= 0,
        a >= 0,
        b >= 0,
    ensures
        spec_gcd(m * a, m * b) == m * spec_gcd(a, b),
    decreases b,
{
    if m == 0 {
        assert(m * a == 0 && m * b == 0 && m * spec_gcd(a, b) == 0) by (nonlinear_arith)
            requires m == 0;
    } else if b == 0 {
        assert(m * b == 0) by (nonlinear_arith)
            requires b == 0;
    } else {
        lemma_fundamental_div_mod(a, b);
        let q = a / b;
        let r = a % b;
        assert(m * a == q * (m * b) + m * r) by (nonlinear_arith)
            requires a == b * q + r;
        assert(0 <= m * r < m * b) by (nonlinear_arith)
            requires 0 <= r < b, m > 0;
        lemma_fundamental_div_mod_converse(m * a, m * b, q, m * r);
        lemma_gcd_scale(m, b, r);
    }
}

/// The least common multiple is a common multiple: each argument divides it,
/// and it is nonnegative.
proof fn lemma_lcm_common(a: int, b: int)
    requires
        a >= 0,
        b >= 0,
    ensures
        divides(a, spec_lcm(a, b)),
        divides(b, spec_lcm(a, b)),
        spec_lcm(a, b) >= 0,
{
    let g = spec_gcd(a, b);
    lemma_gcd_divides(a, b);
    if g == 0 {
        let ka = choose|k: int| a == #[trigger] (k * g);
        let kb = choose|k: int| b == #[trigger] (k * g);
        assert(a == 0 && b == 0) by (nonlinear_arith)
            requires a == ka * g, b == kb * g, g == 0;
        assert(0int == 0 * 0);
    } else {
        let qa = choose|k: int| a == #[trigger] (k * g);
        let qb = choose|k: int| b == #[trigger] (k * g);
        lemma_fundamental_div_mod_converse(a, g, qa, 0);
        assert(spec_lcm(a, b) == qa * b);
        assert(qa * b == qb * a && qa * b >= 0) by (nonlinear_arith)
            requires a == qa * g, b == qb * g, g > 0, a >= 0, b >= 0;
    }
}

/// The least common multiple divides every common multiple.
proof fn lemma_lcm_least(a: int, b: int, m: int)
    requires
        a >= 0,
        b >= 0,
        m >= 0,
        divides(a, m),
        divides(b, m),
    ensures
        divides(spec_lcm(a, b), m),
{
    let g = spec_gcd(a, b);
    lemma_gcd_divides(a, b);
    if g == 0 {
        let ka = choose|k: int| a == #[trigger] (k * g);
        let kb = choose|k: int| b == #[trigger] (k * g);
        assert(a == 0 && b == 0) by (nonlinear_arith)
            requires a == ka * g, b == kb * g, g == 0;
        let km = choose|k: int| m == #[trigger] (k * a);
        assert(m == 0) by (nonlinear_arith)
            requires m == km * a, a == 0;
        assert(0int == 0 * 0);
    } else {
        let sm = choose|k: int| m == #[trigger] (k * a);
        let um = choose|k: int| m == #[trigger] (k * b);
        assert(m * a == um * (a * b) && m * b == sm * (a * b)) by (nonlinear_arith)
            requires m == sm * a, m == um * b;
        assert(m * a >= 0 && m * b >= 0) by (nonlinear_arith)
            requires m >= 0, a >= 0, b >= 0;
        lemma_gcd_scale(m, a, b);
        lemma_gcd_greatest(m * a, m * b, a * b);
        let w = choose|k: int| m * g == #[trigger] (k * (a * b));
        let qa = choose|k: int| a == #[trigger] (k * g);
        lemma_fundamental_div_mod_converse(a, g, qa, 0);
        assert(spec_lcm(a, b) == qa * b);
        assert(m == w * (qa * b)) by (nonlinear_arith)
            requires m * g == w * (a * b), a == qa * g, g > 0;
    }
}

/// The fold laws: the fold is a nonnegative common multiple of every input,
/// and — when there is an input at all — divides every common multiple.
pub proof fn lemma_lcm_fold_laws(s: Seq<u64>)
    ensures
        lcm_fold(s) >= 0,
        forall|k: int| 0 <= k < s.len() ==> divides((#[trigger] s[k]) as int, lcm_fold(s)),
        s.len() >= 1 ==> forall|m: int|
            m >= 0 && (forall|k: int| 0 <= k < s.len() ==> divides((#[trigger] s[k]) as int, m))
                ==> #[trigger] divides(lcm_fold(s), m),
    decreases s.len(),
{
    if s.len() == 0 {
    } else if s.len() == 1 {
        assert(s[0] as int == 1 * (s[0] as int));
    } else {
        let rest = s.drop_last();
        lemma_lcm_fold_laws(rest);
        let f = lcm_fold(rest);
        let last = s.last() as int;
        lemma_lcm_common(f, last);
        assert forall|k: int| 0 <= k < s.len() implies divides(
            (#[trigger] s[k]) as int,
            lcm_fold(s),
        ) by {
            if k < s.len() - 1 {
                assert(rest[k] == s[k]);
                assert(divides((rest[k]) as int, f));
                lemma_divides_transitive(s[k] as int, f, lcm_fold(s));
            }
        }
        assert forall|m: int|
            m >= 0 && (forall|k: int| 0 <= k < s.len() ==> divides((#[trigger] s[k]) as int, m))
                implies #[trigger] divides(lcm_fold(s), m) by {
            assert forall|k: int| 0 <= k < rest.len() implies divides(
                (#[trigger] rest[k]) as int,
                m,
            ) by {
                assert(rest[k] == s[k]);
            }
            assert(divides(f, m));
            assert(divides((s[s.len() - 1]) as int, m));
            lemma_lcm_least(f, last, m);
        }
    }
}

/// The least common multiple of two values, as the fold computes it: zero
/// when both are zero by convention, and `a / gcd(a, b) * b` otherwise.
pub open spec fn spec_lcm(a: int, b: int) -> int {
    if spec_gcd(a, b) == 0 {
        0
    } else {
        a / spec_gcd(a, b) * b
    }
}

/// The least common multiple of all values, folded left to right over the
/// sequence; 0 for an empty sequence.
pub open spec fn lcm_fold(s: Seq<u64>) -> int
    decreases s.len(),
{
    if s.len() == 0 {
        0
    } else if s.len() == 1 {
        s[0] as int
    } else {
        spec_lcm(lcm_fold(s.drop_last()), s.last() as int)
    }
}

/// Folds the least common multiple over all values, 0 when there are none.
/// The two preconditions exclude what would fail at run time: a zero followed
/// by a second zero divides by zero, and a fold value beyond `u64` overflows.
pub fn lcm(nums: &Vec<u64>) -> (r: u64)
    requires
        forall|k: int|
            1 <= k < nums@.len() ==> !(lcm_fold(nums@.subrange(0, k)) == 0 && nums@[k] == 0),
        forall|k: int| 1 <= k <= nums@.len() ==> lcm_fold(#[trigger] nums@.subrange(0, k)) <= u64::MAX,
    ensures
        r == lcm_fold(nums@),
        forall|k: int| 0 <= k < nums@.len() ==> divides((#[trigger] nums@[k]) as int, r as int),
        nums@.len() >= 1 ==> forall|m: int|
            m >= 0 && (forall|k: int|
                0 <= k < nums@.len() ==> divides((#[trigger] nums@[k]) as int, m))
                ==> #[trigger] divides(r as int, m),
{
    proof {
        lemma_lcm_fold_laws(nums@);
    }
    if nums.len() == 0 {
        return 0;
    }
    let n = nums.len();
    let mut l = nums[0];
    proof {
        assert(nums@.subrange(0, 1)[0] == nums@[0]);
        assert(l == lcm_fold(nums@.subrange(0, 1)));
    }
    for k in 1..n
        invariant
            n == nums@.len(),
            1 <= k <= n,
            l == lcm_fold(nums@.subrange(0, k as int)),
            forall|t: int|
                1 <= t < nums@.len() ==> !(lcm_fold(nums@.subrange(0, t)) == 0 && nums@[t] == 0),
            forall|t: int|
                1 <= t <= nums@.len() ==> lcm_fold(#[trigger] nums@.subrange(0, t)) <= u64::MAX,
        decreases n - k,
    {
        let x = nums[k];
        let g = gcd(l, x);
        proof {
            if g == 0 {
                assert(spec_gcd(l as int, x as int) == 0);
                lemma_gcd_divides(l as int, x as int);
                let k1 = choose|k2: int| l as int == #[trigger] (k2 * 0);
                assert(l == 0) by (nonlinear_arith)
                    requires l as int == k1 * 0;
                let k2 = choose|k3: int| x as int == #[trigger] (k3 * 0);
                assert(x == 0) by (nonlinear_arith)
                    requires x as int == k2 * 0;
                assert(false);
            }
            let next = nums@.subrange(0, k as int + 1);
            assert(next.drop_last() =~= nums@.subrange(0, k as int));
            assert(next.last() == nums@[k as int]);
            assert(lcm_fold(next) == spec_lcm(l as int, x as int));
            assert(lcm_fold(next) <= u64::MAX);
        }
        l = (l / g) * x;
    }
    proof {
        assert(nums@.subrange(0, nums@.len() as int) =~= nums@);
    }
    l
}

} // verus!
