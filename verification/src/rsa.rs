use vstd::prelude::*;
use vstd::string::StringExecFns;
use vstd::arithmetic::power::{pow, lemma_pow1, lemma_pow_adds, lemma_pow_mod_noop};
use vstd::arithmetic::div_mod::{
    lemma_mod_bound, lemma_small_mod, lemma_mod_self_0, lemma_mul_mod_noop_right,
    lemma_mul_mod_noop_left, lemma_mod_multiples_vanish, lemma_add_mod_noop, lemma_sub_mod_noop,
    lemma_fundamental_div_mod, lemma_fundamental_div_mod_converse_mod,
};
use num_bigint::BigInt;
use crate::bignum::{
    big_value, divides, big_from_u64, big_clone, big_add, big_sub, big_mul, big_rem, big_eq,
    big_sqrt, big_modpow, big_extended_gcd, big_to_u64,
};
use crate::codec::{decoded_block, decoded_message, decode_block, lemma_decoded_message_none};

verus! {

/// Why a recovery failed: no decryption exponent exists, a recovered block
/// cannot be rendered in the legacy code page, or a search exhausted its
/// iteration budget. Every failure aborts the whole multi-block recovery.
#[derive(Debug, Clone, Copy, PartialEq, Eq, Structural)]
pub enum RecoverError {
    NoModularInverse,
    InvalidEncoding,
    NonConvergence,
}

/// Iteration budgets for the two unbounded searches. The searches are
/// unbounded by nature - how long they run measures how weak the attacked
/// instance is - so the budgets are merely the largest the counters allow,
/// and exhausting one is reported as `NonConvergence`, never as a wrong
/// answer.
pub const FERMAT_CAP: u64 = u64::MAX;

pub const CYCLE_CAP: u64 = u64::MAX;

/// A factorization of `n` into a strictly ordered pair.
pub open spec fn strict_pair(n: int, p: int, q: int) -> bool {
    p > q >= 1 && p * q == n
}

/// The factorization of `n` whose factors lie closest together: the one
/// Fermat's method meets first.
pub open spec fn min_strict_pair(n: int, p: int, q: int) -> bool {
    &&& strict_pair(n, p, q)
    &&& forall|p2: int, q2: int| strict_pair(n, p2, q2) ==> p + q <= p2 + q2
}

pub open spec fn is_square(w: int) -> bool {
    exists|s: int| s >= 0 && #[trigger] (s * s) == w
}

pub open spec fn is_sqrt_floor(n: int, s: int) -> bool {
    0 <= s && s * s <= n && n < (s + 1) * (s + 1)
}

/// No integer of two or more divides both.
pub open spec fn coprime(a: int, b: int) -> bool {
    forall|c: int| 2 <= c ==> !(divides(c, a) && divides(c, b))
}

/// `d` is the canonical modular inverse of `e` modulo `phi`.
pub open spec fn is_inverse(e: int, phi: int, d: int) -> bool {
    0 <= d < phi && (e * d) % phi == 1int % phi
}

/// The values a `BigInt` sequence holds.
pub open spec fn big_values(s: Seq<BigInt>) -> Seq<int> {
    Seq::new(s.len(), |i: int| big_value(s[i]))
}

/// Every block raised to `d` modulo `n`: the decryption of a ciphertext
/// sequence under the exponent `d`.
pub open spec fn powed(cs: Seq<int>, d: int, n: int) -> Seq<int> {
    Seq::new(cs.len(), |i: int| pow(cs[i], d as nat) % n)
}

/// The `k`-th repeated encryption of `c`: applying `y -> y^e mod n` to the
/// ciphertext `k` times.
pub open spec fn cyc(n: int, e: int, c: int, k: nat) -> int
    decreases k,
{
    if k == 0 {
        c
    } else {
        pow(cyc(n, e, c, (k - 1) as nat), e as nat) % n
    }
}

/// `m` is what the cycling attack recovers from `c`: the iterate held just
/// before repeated encryption first returns to the ciphertext itself.
pub open spec fn is_cycle_recovery(n: int, e: int, c: int, m: int) -> bool {
    exists|k: nat|
        {
            &&& m == cyc(n, e, c, k)
            &&& #[trigger] cyc(n, e, c, (k + 1) as nat) == c
            &&& forall|i: nat| 1 <= i <= k ==> cyc(n, e, c, i) != c
        }
}

/// The recovery, and in addition the fact that the cycle closed within
/// `cap` re-encryptions: what a capped search can actually report.
pub open spec fn is_cycle_recovery_within(n: int, e: int, c: int, m: int, cap: nat) -> bool {
    exists|k: nat|
        {
            &&& k < cap
            &&& m == cyc(n, e, c, k)
            &&& #[trigger] cyc(n, e, c, (k + 1) as nat) == c
            &&& forall|i: nat| 1 <= i <= k ==> cyc(n, e, c, i) != c
        }
}

/// The pair's sum stays within `cap` of twice the square root: the walk of
/// Fermat's method finds it within `cap` steps, so a search with that
/// budget succeeds - which pins whether the capped factorizer succeeds.
pub open spec fn pair_within(n: int, p: int, q: int, cap: u64) -> bool {
    forall|s2: int| is_sqrt_floor(n, s2) ==> p + q <= 2 * (s2 + cap)
}

/// There is only one floor square root.
proof fn lemma_sqrt_floor_unique(n: int, s1: int, s2: int)
    requires
        is_sqrt_floor(n, s1),
        is_sqrt_floor(n, s2),
    ensures
        s1 == s2,
{
    if s1 < s2 {
        assert((s1 + 1) * (s1 + 1) <= s2 * s2) by (nonlinear_arith)
            requires
                0 <= s1,
                s1 < s2,
        ;
    }
    if s2 < s1 {
        assert((s2 + 1) * (s2 + 1) <= s1 * s1) by (nonlinear_arith)
            requires
                0 <= s2,
                s2 < s1,
        ;
    }
}

/// The canonical modular inverse is unique.
pub proof fn lemma_inverse_unique(e: int, phi: int, d1: int, d2: int)
    requires
        phi >= 1,
        is_inverse(e, phi, d1),
        is_inverse(e, phi, d2),
    ensures
        d1 == d2,
{
    assert(d1 * (e * d2) == d2 * (e * d1)) by (nonlinear_arith);
    lemma_mul_mod_noop_right(d1, e * d2, phi);
    lemma_mul_mod_noop_right(d1, 1, phi);
    assert((d1 * (e * d2)) % phi == (d1 * (1int % phi)) % phi);
    lemma_small_mod(d1 as nat, phi as nat);
    assert((d1 * (e * d2)) % phi == d1);
    lemma_mul_mod_noop_right(d2, e * d1, phi);
    lemma_mul_mod_noop_right(d2, 1, phi);
    lemma_small_mod(d2 as nat, phi as nat);
    assert((d2 * (e * d1)) % phi == d2);
}

/// The cycling attack's answer is unique: there is one first return to `c`.
pub proof fn lemma_cycle_recovery_unique(n: int, e: int, c: int, m1: int, m2: int)
    requires
        is_cycle_recovery(n, e, c, m1),
        is_cycle_recovery(n, e, c, m2),
    ensures
        m1 == m2,
{
    let k1 = choose|k: nat|
        {
            &&& m1 == cyc(n, e, c, k)
            &&& #[trigger] cyc(n, e, c, (k + 1) as nat) == c
            &&& forall|i: nat| 1 <= i <= k ==> cyc(n, e, c, i) != c
        };
    let k2 = choose|k: nat|
        {
            &&& m2 == cyc(n, e, c, k)
            &&& #[trigger] cyc(n, e, c, (k + 1) as nat) == c
            &&& forall|i: nat| 1 <= i <= k ==> cyc(n, e, c, i) != c
        };
    if k1 < k2 {
        assert(cyc(n, e, c, ((k1 + 1) as nat)) != c);
    } else if k2 < k1 {
        assert(cyc(n, e, c, ((k2 + 1) as nat)) != c);
    }
}

/// In an odd number's strict factorization both factors are odd, so half
/// their sum is a whole number, at least one above the floor square root
/// whenever no smaller midpoint turns `a^2 - n` into a perfect square.
proof fn lemma_pair_midpoint_bound(n: int, s: int, p2: int, q2: int, bound: int)
    requires
        n >= 3,
        n % 2 == 1,
        is_sqrt_floor(n, s),
        strict_pair(n, p2, q2),
        s + 1 <= bound,
        forall|a0: int| s + 1 <= a0 < bound ==> !#[trigger] is_square(a0 * a0 - n),
    ensures
        p2 + q2 >= 2 * bound,
{
    // Both factors are odd, else the product would be even.
    lemma_mul_mod_noop_left(p2, q2, 2);
    lemma_mul_mod_noop_right(p2 % 2, q2, 2);
    lemma_mod_bound(p2, 2);
    lemma_mod_bound(q2, 2);
    if p2 % 2 == 0 || q2 % 2 == 0 {
        assert((p2 % 2) * (q2 % 2) == 0) by (nonlinear_arith)
            requires
                p2 % 2 == 0 || q2 % 2 == 0,
        ;
        assert(n % 2 == ((p2 % 2) * (q2 % 2)) % 2);
        assert(false);
    }
    // The midpoint and half-difference are whole.
    lemma_add_mod_noop(p2, q2, 2);
    lemma_sub_mod_noop(p2, q2, 2);
    let a2 = (p2 + q2) / 2;
    let b2 = (p2 - q2) / 2;
    lemma_fundamental_div_mod(p2 + q2, 2);
    lemma_fundamental_div_mod(p2 - q2, 2);
    assert(p2 + q2 == 2 * a2);
    assert(p2 - q2 == 2 * b2);
    assert(b2 >= 1);
    assert(a2 >= 2);
    // Their squares differ by exactly n.
    assert(a2 * a2 - b2 * b2 == n) by (nonlinear_arith)
        requires
            p2 + q2 == 2 * a2,
            p2 - q2 == 2 * b2,
            p2 * q2 == n,
    ;
    // The midpoint clears the floor square root.
    assert(a2 * a2 >= n + 1) by (nonlinear_arith)
        requires
            a2 * a2 - b2 * b2 == n,
            b2 >= 1,
    ;
    assert(a2 > s) by (nonlinear_arith)
        requires
            a2 * a2 >= n + 1,
            s * s <= n,
            a2 >= 0,
            s >= 0,
    ;
    // And no midpoint below `bound` survives the search's record.
    if a2 < bound {
        assert(b2 * b2 == a2 * a2 - n);
        assert(is_square(a2 * a2 - n));
        assert(false);
    }
}

/// Fermat's difference-of-squares factorization. Walk `a` upward from just
/// above the square root of `n` until `a^2 - n` is itself a perfect square
/// `b^2`; then `(a + b)(a - b) == n`. The walk meets the factor pair with
/// the smallest midpoint first, so the returned pair is the closest one.
/// `None` means no factorization with a midpoint within `cap` of the square
/// root exists - with a generous cap, that the factors are far apart.
pub fn fermat_factorization(n: &BigInt, cap: u64) -> (r: Option<(BigInt, BigInt)>)
    requires
        big_value(*n) >= 3,
        big_value(*n) % 2 == 1,
    ensures
        r matches Some(pq) ==> min_strict_pair(big_value(*n), big_value(pq.0), big_value(pq.1))
            && pair_within(big_value(*n), big_value(pq.0), big_value(pq.1), cap),
        r is None ==> forall|p2: int, q2: int, s: int|
            strict_pair(big_value(*n), p2, q2) && is_sqrt_floor(big_value(*n), s) ==> p2 + q2 > 2
                * (s + cap),
{
    let ghost nv = big_value(*n);
    let root = big_sqrt(n);
    let ghost sv = big_value(root);
    let one = big_from_u64(1);
    let mut a = big_add(&root, &one);
    let mut i: u64 = 0;
    while i < cap
        invariant
            big_value(*n) == nv,
            nv >= 3,
            nv % 2 == 1,
            is_sqrt_floor(nv, sv),
            big_value(one) == 1,
            i <= cap,
            big_value(a) == sv + 1 + i,
            forall|a0: int| sv + 1 <= a0 < big_value(a) ==> !#[trigger] is_square(a0 * a0 - nv),
        decreases cap - i,
    {
        let ghost av = big_value(a);
        proof {
            assert(av * av > nv) by (nonlinear_arith)
                requires
                    av >= sv + 1,
                    sv >= 0,
                    nv < (sv + 1) * (sv + 1),
            ;
        }
        let aa = big_mul(&a, &a);
        let w = big_sub(&aa, n);
        let b = big_sqrt(&w);
        let ghost bv = big_value(b);
        let bb = big_mul(&b, &b);
        if big_eq(&bb, &w) {
            let p = big_add(&a, &b);
            let q = big_sub(&a, &b);
            proof {
                let wv = av * av - nv;
                assert(big_value(p) * big_value(q) == nv) by (nonlinear_arith)
                    requires
                        big_value(p) == av + bv,
                        big_value(q) == av - bv,
                        bv * bv == av * av - nv,
                ;
                assert(bv < av) by (nonlinear_arith)
                    requires
                        bv * bv == av * av - nv,
                        nv >= 3,
                        bv >= 0,
                        av >= 1,
                ;
                assert(bv >= 1) by (nonlinear_arith)
                    requires
                        bv * bv == av * av - nv,
                        av * av > nv,
                        bv >= 0,
                ;
                assert(strict_pair(nv, big_value(p), big_value(q)));
                assert forall|p2: int, q2: int| strict_pair(nv, p2, q2) implies big_value(p)
                    + big_value(q) <= p2 + q2 by {
                    lemma_pair_midpoint_bound(nv, sv, p2, q2, av);
                }
                assert forall|s2: int| is_sqrt_floor(nv, s2) implies big_value(p) + big_value(q)
                    <= 2 * (s2 + cap) by {
                    lemma_sqrt_floor_unique(nv, s2, sv);
                    assert(big_value(p) + big_value(q) == 2 * av);
                }
            }
            return Some((p, q));
        }
        proof {
            let wv = av * av - nv;
            assert forall|s2: int| s2 >= 0 && #[trigger] (s2 * s2) == wv implies false by {
                assert(s2 <= bv ==> s2 * s2 <= bv * bv) by (nonlinear_arith)
                    requires
                        s2 >= 0,
                        bv >= 0,
                ;
                assert(s2 >= bv + 1 ==> s2 * s2 >= (bv + 1) * (bv + 1)) by (nonlinear_arith)
                    requires
                        s2 >= 0,
                        bv >= 0,
                ;
            }
            assert(!is_square(av * av - nv));
            assert forall|a0: int| sv + 1 <= a0 < av + 1 implies !#[trigger] is_square(a0 * a0 - nv) by {
                if a0 < av {
                } else {
                    assert(a0 == av);
                }
            }
        }
        a = big_add(&a, &one);
        i = i + 1;
    }
    proof {
        assert forall|p2: int, q2: int, s: int|
            strict_pair(nv, p2, q2) && is_sqrt_floor(nv, s) implies p2 + q2 > 2 * (s + cap) by {
            lemma_sqrt_floor_unique(nv, s, sv);
            lemma_pair_midpoint_bound(nv, sv, p2, q2, sv + 1 + cap);
        }
    }
    None
}

/// One halving step of square-and-multiply: peeling the exponent's low
/// bit leaves an equal product modulo `m`.
proof fn lemma_modpow_step(result: int, b: int, e: int, m: int)
    requires
        m >= 1,
        0 <= result < m,
        0 <= b < m,
        e >= 1,
    ensures
        e % 2 == 1 ==> (((result * b) % m) * pow((b * b) % m, (e / 2) as nat)) % m == (result * pow(
            b,
            e as nat,
        )) % m,
        e % 2 == 0 ==> (result * pow((b * b) % m, (e / 2) as nat)) % m == (result * pow(
            b,
            e as nat,
        )) % m,
{
    let k = (e / 2) as nat;
    vstd::arithmetic::div_mod::lemma_fundamental_div_mod(e, 2);
    lemma_pow1(b);
    lemma_pow_adds(b, 1, 1);
    assert(pow(b, 2) == b * b);
    vstd::arithmetic::power::lemma_pow_multiplies(b, 2, k);
    assert(pow(b * b, k) == pow(b, 2 * k));
    lemma_pow_mod_noop(b * b, k, m);
    assert(pow((b * b) % m, k) % m == pow(b, 2 * k) % m);
    let pk = pow((b * b) % m, k);
    let p2k = pow(b, 2 * k);
    if e % 2 == 1 {
        assert(e == 2 * k + 1);
        lemma_pow_adds(b, 1, 2 * k);
        assert(pow(b, e as nat) == b * p2k);
        lemma_mul_mod_noop_left(result * b, pk, m);
        assert((((result * b) % m) * pk) % m == ((result * b) * pk) % m);
        lemma_mul_mod_noop_right(result * b, pk, m);
        lemma_mul_mod_noop_right(result * b, p2k, m);
        assert(((result * b) * pk) % m == ((result * b) * (pk % m)) % m);
        assert(((result * b) * (p2k % m)) % m == ((result * b) * p2k) % m);
        assert((result * b) * p2k == result * (b * p2k)) by (nonlinear_arith);
    } else {
        assert(e == 2 * k);
        lemma_mul_mod_noop_right(result, pk, m);
        lemma_mul_mod_noop_right(result, p2k, m);
        assert((result * pk) % m == (result * (pk % m)) % m);
        assert((result * (p2k % m)) % m == (result * p2k) % m);
    }
}

/// Modular exponentiation on machine words by square-and-multiply, used as
/// a fast path when modulus, exponent and base all fit in one word.
pub fn modpow_u64(base: u64, exp: u64, m: u64) -> (r: u64)
    requires
        m >= 1,
    ensures
        r as int == pow(base as int, exp as nat) % (m as int),
        r < m,
{
    let mut result: u64 = 1 % m;
    let mut b: u64 = base % m;
    let mut e: u64 = exp;
    proof {
        lemma_pow_mod_noop(base as int, exp as nat, m as int);
        lemma_mul_mod_noop_left(1, pow(b as int, e as nat), m as int);
        lemma_mod_bound(1, m as int);
        lemma_mod_bound(base as int, m as int);
    }
    while e > 0
        invariant
            m >= 1,
            result < m,
            b < m,
            ((result as int) * pow(b as int, e as nat)) % (m as int) == pow(
                base as int,
                exp as nat,
            ) % (m as int),
        decreases e,
    {
        proof {
            lemma_modpow_step(result as int, b as int, e as int, m as int);
            lemma_mod_bound((result as int) * (b as int), m as int);
            lemma_mod_bound((b as int) * (b as int), m as int);
            assert((result as int) * (b as int) < 0x100000000000000000000000000000000int)
                by (nonlinear_arith)
                requires
                    result < 0x10000000000000000int,
                    b < 0x10000000000000000int,
            ;
            assert((b as int) * (b as int) < 0x100000000000000000000000000000000int)
                by (nonlinear_arith)
                requires
                    b < 0x10000000000000000int,
            ;
        }
        if e % 2 == 1 {
            result = (((result as u128) * (b as u128)) % (m as u128)) as u64;
        }
        b = (((b as u128) * (b as u128)) % (m as u128)) as u64;
        e = e / 2;
    }
    proof {
        assert(pow(b as int, 0) == 1) by {
            vstd::arithmetic::power::lemma_pow0(b as int);
        }
        lemma_small_mod(result as nat, m as nat);
    }
    result
}

/// The extended Euclidean algorithm run on `(e, phi)` yields Bezout
/// coefficients; when the gcd is one, the coefficient of `e`, normalized
/// into `[0, phi)`, is the decryption exponent. `None` signals that no
/// inverse exists, exactly when `e` and `phi` share a factor.
pub fn mod_inverse(e: &BigInt, phi: &BigInt) -> (r: Option<BigInt>)
    requires
        big_value(*e) >= 1,
        big_value(*phi) >= 1,
    ensures
        r is Some <==> coprime(big_value(*e), big_value(*phi)),
        r matches Some(d) ==> is_inverse(big_value(*e), big_value(*phi), big_value(d)),
{
    let ghost ev = big_value(*e);
    let ghost phiv = big_value(*phi);
    let egc = big_extended_gcd(e, phi);
    let (g, x, y) = egc;
    let ghost gv = big_value(g);
    let ghost xv = big_value(x);
    let ghost yv = big_value(y);
    let one = big_from_u64(1);
    if !big_eq(&g, &one) {
        proof {
            let k1 = choose|k: int| ev == #[trigger] (gv * k);
            let k2 = choose|k: int| phiv == #[trigger] (gv * k);
            assert(divides(gv, ev) && divides(gv, phiv) && gv >= 2);
            assert(!coprime(ev, phiv));
        }
        None
    } else {
        proof {
            assert forall|c: int| 2 <= c implies !(divides(c, ev) && divides(c, phiv)) by {
                if divides(c, ev) && divides(c, phiv) {
                    let k1 = choose|k: int| ev == #[trigger] (c * k);
                    let k2 = choose|k: int| phiv == #[trigger] (c * k);
                    assert(c * (k1 * xv + k2 * yv) == 1) by (nonlinear_arith)
                        requires
                            ev == c * k1,
                            phiv == c * k2,
                            ev * xv + phiv * yv == 1,
                    ;
                    let k3 = k1 * xv + k2 * yv;
                    assert(false) by (nonlinear_arith)
                        requires
                            c * k3 == 1,
                            c >= 2,
                    ;
                }
            }
        }
        let t = big_rem(&x, phi);
        let u = big_add(&t, phi);
        let d = big_rem(&u, phi);
        proof {
            let tv = big_value(t);
            let dv = big_value(d);
            if xv >= 0 {
                lemma_mod_bound(xv, phiv);
                lemma_mod_multiples_vanish(1, tv, phiv);
                lemma_small_mod(tv as nat, phiv as nat);
                assert(dv == xv % phiv);
            } else {
                let wv = (-xv) % phiv;
                lemma_mod_bound(-xv, phiv);
                lemma_fundamental_div_mod(-xv, phiv);
                let j = (-xv) / phiv;
                assert(phiv * (-j) == -(phiv * j)) by (nonlinear_arith);
                assert(xv == phiv * (-j) + (-wv));
                if wv == 0 {
                    lemma_mod_self_0(phiv);
                    assert(dv == 0);
                    lemma_mod_multiples_vanish(-j, 0, phiv);
                    assert(xv % phiv == 0);
                } else {
                    lemma_small_mod((phiv - wv) as nat, phiv as nat);
                    assert(dv == phiv - wv);
                    assert((-j - 1) * phiv + (phiv - wv) == xv) by (nonlinear_arith)
                        requires
                            xv == phiv * (-j) + (-wv),
                    ;
                    lemma_fundamental_div_mod_converse_mod(xv, phiv, -j - 1, phiv - wv);
                    assert(xv % phiv == phiv - wv);
                }
                assert(dv == xv % phiv);
            }
            lemma_mod_bound(xv, phiv);
            lemma_mul_mod_noop_right(ev, xv, phiv);
            assert(ev * xv == phiv * (-yv) + 1) by (nonlinear_arith)
                requires
                    ev * xv + phiv * yv == 1,
            ;
            lemma_mod_multiples_vanish(-yv, 1, phiv);
            assert((ev * xv) % phiv == 1int % phiv);
            lemma_mul_mod_noop_right(ev, xv % phiv, phiv);
            assert((ev * dv) % phiv == 1int % phiv);
            assert(is_inverse(ev, phiv, dv));
        }
        Some(d)
    }
}

/// The cycling attack on one ciphertext block: re-encrypt repeatedly until
/// the ciphertext reappears; the iterate held just before that return is
/// the plaintext's preimage under one encryption. Needs neither the factors
/// of `n` nor a decryption exponent. `None` means the cycle did not close
/// within `cap` steps. When modulus, exponent and block all fit in a
/// machine word the walk runs on words; otherwise it runs on big integers.
pub fn recover_block_by_cycling(n: &BigInt, e: &BigInt, c: &BigInt, cap: u64) -> (r: Option<
    BigInt,
>)
    requires
        big_value(*n) >= 1,
        big_value(*e) >= 1,
        0 <= big_value(*c) < big_value(*n),
    ensures
        r matches Some(m) ==> is_cycle_recovery(
            big_value(*n),
            big_value(*e),
            big_value(*c),
            big_value(m),
        ) && is_cycle_recovery_within(
            big_value(*n),
            big_value(*e),
            big_value(*c),
            big_value(m),
            cap as nat,
        ) && 0 <= big_value(m) < big_value(*n),
        r is None ==> forall|k: nat|
            1 <= k <= cap ==> cyc(big_value(*n), big_value(*e), big_value(*c), k) != big_value(*c),
{
    let ghost nv = big_value(*n);
    let ghost ev = big_value(*e);
    let ghost cv = big_value(*c);
    match (big_to_u64(n), big_to_u64(e), big_to_u64(c)) {
        (Some(nn), Some(ee), Some(cc)) => {
            let mut y: u64 = cc;
            let ghost mut kk: nat = 0;
            let mut i: u64 = 0;
            while i < cap
                invariant
                    big_value(*n) == nv,
                    big_value(*e) == ev,
                    big_value(*c) == cv,
                    nn as int == nv,
                    ee as int == ev,
                    cc as int == cv,
                    nv >= 1,
                    ev >= 1,
                    0 <= cv < nv,
                    i <= cap,
                    kk == i as nat,
                    y as int == cyc(nv, ev, cv, kk),
                    y < nn,
                    forall|j: nat| 1 <= j <= kk ==> cyc(nv, ev, cv, j) != cv,
                decreases cap - i,
            {
                let y_next = modpow_u64(y, ee, nn);
                proof {
                    assert(ee as nat == ev as nat);
                    assert(y_next as int == cyc(nv, ev, cv, (kk + 1) as nat));
                }
                if y_next == cc {
                    let ghost k = kk;
                    proof {
                        assert(k < cap && y as int == cyc(nv, ev, cv, k) && cyc(
                            nv,
                            ev,
                            cv,
                            (k + 1) as nat,
                        ) == cv && (forall|i2: nat| 1 <= i2 <= k ==> cyc(nv, ev, cv, i2) != cv));
                        assert(is_cycle_recovery(nv, ev, cv, y as int));
                        assert(is_cycle_recovery_within(nv, ev, cv, y as int, cap as nat));
                    }
                    return Some(big_from_u64(y));
                }
                y = y_next;
                proof {
                    kk = kk + 1;
                }
                i = i + 1;
            }
            return None;
        },
        _ => {},
    }
    let mut y = big_clone(c);
    let ghost mut kk: nat = 0;
    let mut i: u64 = 0;
    while i < cap
        invariant
            big_value(*n) == nv,
            big_value(*e) == ev,
            big_value(*c) == cv,
            nv >= 1,
            ev >= 1,
            0 <= cv < nv,
            i <= cap,
            kk == i as nat,
            big_value(y) == cyc(nv, ev, cv, kk),
            0 <= big_value(y) < nv,
            forall|j: nat| 1 <= j <= kk ==> cyc(nv, ev, cv, j) != cv,
        decreases cap - i,
    {
        let y_next = big_modpow(&y, e, n);
        proof {
            assert(big_value(y_next) == cyc(nv, ev, cv, (kk + 1) as nat));
            lemma_mod_bound(pow(big_value(y), ev as nat), nv);
        }
        if big_eq(&y_next, c) {
            let ghost k = kk;
            proof {
                assert(k < cap && big_value(y) == cyc(nv, ev, cv, k) && cyc(
                    nv,
                    ev,
                    cv,
                    (k + 1) as nat,
                ) == cv && (forall|i2: nat| 1 <= i2 <= k ==> cyc(nv, ev, cv, i2) != cv));
                assert(is_cycle_recovery(nv, ev, cv, big_value(y)));
                assert(is_cycle_recovery_within(nv, ev, cv, big_value(y), cap as nat));
            }
            return Some(y);
        }
        y = y_next;
        proof {
            kk = kk + 1;
        }
        i = i + 1;
    }
    None
}

/// The factorization-based attack: factor `n` by Fermat's method, derive
/// the totient and the decryption exponent, decrypt every block in order
/// and decode the whole message under the legacy code page. Any failure
/// aborts the entire recovery; there is no partial output.
pub fn decrypt_via_factorization(n: &BigInt, e: &BigInt, c: &[BigInt]) -> (r: Result<
    String,
    RecoverError,
>)
    requires
        big_value(*n) >= 3,
        big_value(*n) % 2 == 1,
        big_value(*e) >= 1,
        forall|i: int| 0 <= i < c@.len() ==> 0 <= big_value(#[trigger] c@[i]) < big_value(*n),
    ensures
        r matches Ok(s) ==> exists|p: int, q: int, d: int|
            {
                &&& #[trigger] min_strict_pair(big_value(*n), p, q)
                &&& pair_within(big_value(*n), p, q, FERMAT_CAP)
                &&& #[trigger] is_inverse(big_value(*e), (p - 1) * (q - 1), d)
                &&& decoded_message(powed(big_values(c@), d, big_value(*n))) == Some(s@)
            },
        r == Err::<String, RecoverError>(RecoverError::InvalidEncoding) ==> exists|p: int, q: int, d: int|
            {
                &&& #[trigger] min_strict_pair(big_value(*n), p, q)
                &&& pair_within(big_value(*n), p, q, FERMAT_CAP)
                &&& #[trigger] is_inverse(big_value(*e), (p - 1) * (q - 1), d)
                &&& decoded_message(powed(big_values(c@), d, big_value(*n))) is None
            },
        r == Err::<String, RecoverError>(RecoverError::NoModularInverse) ==> exists|p: int, q: int|
            #[trigger] min_strict_pair(big_value(*n), p, q) && pair_within(
                big_value(*n),
                p,
                q,
                FERMAT_CAP,
            ) && ((p - 1) * (q - 1) == 0 || !coprime(big_value(*e), (p - 1) * (q - 1))),
        r == Err::<String, RecoverError>(RecoverError::NonConvergence) ==> forall|p2: int, q2: int, s: int|
            strict_pair(big_value(*n), p2, q2) && is_sqrt_floor(big_value(*n), s) ==> p2 + q2 > 2
                * (s + FERMAT_CAP),
{
    let ghost nv = big_value(*n);
    let ghost ev = big_value(*e);
    let (p, q) = match fermat_factorization(n, FERMAT_CAP) {
        None => {
            return Err(RecoverError::NonConvergence);
        },
        Some(pq) => pq,
    };
    let ghost pv = big_value(p);
    let ghost qv = big_value(q);
    let one = big_from_u64(1);
    if big_eq(&q, &one) {
        proof {
            assert((pv - 1) * (qv - 1) == 0) by (nonlinear_arith)
                requires
                    qv == 1,
            ;
        }
        return Err(RecoverError::NoModularInverse);
    }
    let phi = big_mul(&big_sub(&p, &one), &big_sub(&q, &one));
    let ghost phiv = big_value(phi);
    proof {
        assert(phiv >= 1) by (nonlinear_arith)
            requires
                phiv == (pv - 1) * (qv - 1),
                pv > qv >= 2,
        ;
    }
    let d = match mod_inverse(e, &phi) {
        None => {
            return Err(RecoverError::NoModularInverse);
        },
        Some(d) => d,
    };
    let ghost dv = big_value(d);
    let ghost ms = powed(big_values(c@), dv, nv);
    let mut message = String::from_str("");
    proof {
        reveal_strlit("");
        assert(ms.take(0) =~= Seq::<int>::empty());
    }
    let len = c.len();
    let mut i: usize = 0;
    while i < len
        invariant
            len == c@.len(),
            i <= len,
            big_value(*n) == nv,
            nv >= 3,
            big_value(*e) == ev,
            min_strict_pair(nv, pv, qv),
            pair_within(nv, pv, qv, FERMAT_CAP),
            phiv == (pv - 1) * (qv - 1),
            is_inverse(ev, phiv, dv),
            big_value(d) == dv,
            0 <= dv,
            forall|j: int| 0 <= j < c@.len() ==> 0 <= big_value(#[trigger] c@[j]) < nv,
            ms == powed(big_values(c@), dv, nv),
            decoded_message(ms.take(i as int)) == Some(message@),
        decreases len - i,
    {
        let m = big_modpow(&c[i], &d, n);
        proof {
            lemma_mod_bound(pow(big_value(c@[i as int]), dv as nat), nv);
            assert(big_value(m) == ms[i as int]);
        }
        match decode_block(&m) {
            None => {
                proof {
                    lemma_decoded_message_none(ms, i as int);
                    assert(min_strict_pair(nv, pv, qv));
                    assert(pair_within(nv, pv, qv, FERMAT_CAP));
                    assert(is_inverse(ev, (pv - 1) * (qv - 1), dv));
                    assert(decoded_message(powed(big_values(c@), dv, nv)) is None);
                }
                return Err(RecoverError::InvalidEncoding);
            },
            Some(frag) => {
                message.append(frag.as_str());
                proof {
                    assert(ms.take(i + 1).drop_last() =~= ms.take(i as int));
                    assert(ms.take(i + 1).last() == ms[i as int]);
                }
            },
        }
        i = i + 1;
    }
    proof {
        assert(ms.take(len as int) =~= ms);
    }
    Ok(message)
}

/// The cycling attack on a whole message: recover every block independently
/// by iterated re-encryption, decode each fragment in order, and fail the
/// entire recovery as soon as one block cannot be decoded.
#[verifier::rlimit(60)]
pub fn decrypt_via_cycling(n: &BigInt, e: &BigInt, c: &[BigInt]) -> (r: Result<
    String,
    RecoverError,
>)
    requires
        big_value(*n) >= 1,
        big_value(*e) >= 1,
        forall|i: int| 0 <= i < c@.len() ==> 0 <= big_value(#[trigger] c@[i]) < big_value(*n),
    ensures
        r matches Ok(s) ==> exists|ms: Seq<int>|
            {
                &&& ms.len() == c@.len()
                &&& forall|i: int|
                    0 <= i < ms.len() ==> is_cycle_recovery(
                        big_value(*n),
                        big_value(*e),
                        big_values(c@)[i],
                        #[trigger] ms[i],
                    ) && is_cycle_recovery_within(
                        big_value(*n),
                        big_value(*e),
                        big_values(c@)[i],
                        ms[i],
                        CYCLE_CAP as nat,
                    )
                &&& decoded_message(ms) == Some(s@)
            },
        r == Err::<String, RecoverError>(RecoverError::InvalidEncoding) ==> exists|ms: Seq<int>|
            {
                &&& 0 < ms.len() <= c@.len()
                &&& forall|i: int|
                    0 <= i < ms.len() ==> is_cycle_recovery(
                        big_value(*n),
                        big_value(*e),
                        big_values(c@)[i],
                        #[trigger] ms[i],
                    ) && is_cycle_recovery_within(
                        big_value(*n),
                        big_value(*e),
                        big_values(c@)[i],
                        ms[i],
                        CYCLE_CAP as nat,
                    )
                &&& decoded_message(ms.drop_last()) is Some
                &&& decoded_block(ms.last()) is None
            },
        r == Err::<String, RecoverError>(RecoverError::NonConvergence) ==> exists|j: int|
            #![trigger big_values(c@)[j]]
            0 <= j < c@.len() && forall|k: nat|
                1 <= k <= CYCLE_CAP ==> #[trigger] cyc(
                    big_value(*n),
                    big_value(*e),
                    big_values(c@)[j],
                    k,
                ) != big_values(c@)[j],
        r != Err::<String, RecoverError>(RecoverError::NoModularInverse),
{
    let ghost nv = big_value(*n);
    let ghost ev = big_value(*e);
    let mut message = String::from_str("");
    let ghost mut ms: Seq<int> = Seq::empty();
    proof {
        reveal_strlit("");
    }
    let len = c.len();
    let mut i: usize = 0;
    while i < len
        invariant
            len == c@.len(),
            i <= len,
            big_value(*n) == nv,
            big_value(*e) == ev,
            nv >= 1,
            ev >= 1,
            forall|j: int| 0 <= j < c@.len() ==> 0 <= big_value(#[trigger] c@[j]) < nv,
            ms.len() == i as int,
            forall|j: int|
                0 <= j < ms.len() ==> is_cycle_recovery(nv, ev, big_values(c@)[j], #[trigger] ms[j])
                    && is_cycle_recovery_within(nv, ev, big_values(c@)[j], ms[j], CYCLE_CAP as nat),
            decoded_message(ms) == Some(message@),
        decreases len - i,
    {
        proof {
            assert(big_values(c@)[i as int] == big_value(c@[i as int]));
        }
        let m = match recover_block_by_cycling(n, e, &c[i], CYCLE_CAP) {
            None => {
                proof {
                    let j = i as int;
                    assert(0 <= j < c@.len() && forall|k: nat|
                        1 <= k <= CYCLE_CAP ==> #[trigger] cyc(nv, ev, big_values(c@)[j], k)
                            != big_values(c@)[j]);
                }
                return Err(RecoverError::NonConvergence);
            },
            Some(m) => m,
        };
        match decode_block(&m) {
            None => {
                proof {
                    let ms2 = ms.push(big_value(m));
                    assert(ms2.drop_last() =~= ms);
                    assert(ms2.last() == big_value(m));
                    assert(forall|j2: int|
                        0 <= j2 < ms2.len() ==> is_cycle_recovery(
                            nv,
                            ev,
                            big_values(c@)[j2],
                            #[trigger] ms2[j2],
                        ) && is_cycle_recovery_within(
                            nv,
                            ev,
                            big_values(c@)[j2],
                            ms2[j2],
                            CYCLE_CAP as nat,
                        ));
                    assert(decoded_message(ms2.drop_last()) is Some);
                    assert(decoded_block(ms2.last()) is None);
                    assert(0 < ms2.len() <= c@.len());
                }
                return Err(RecoverError::InvalidEncoding);
            },
            Some(frag) => {
                message.append(frag.as_str());
                proof {
                    let ms2 = ms.push(big_value(m));
                    assert(ms2.drop_last() =~= ms);
                    assert(ms2.last() == big_value(m));
                    assert(decoded_message(ms2) == Some(message@));
                    ms = ms2;
                }
            },
        }
        i = i + 1;
    }
    Ok(message)
}

} // verus!
