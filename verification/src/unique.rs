//! Uniqueness of prime factorization. The chain runs through Euclid's
//! lemma, proved from Bezout coefficients of the greatest common divisor:
//! the `valuation` of a number at a prime is well defined, multiplicative,
//! and read off any factorization, so two factorizations of one number
//! agree on every exponent.

use vstd::prelude::*;
use vstd::arithmetic::div_mod::{
    lemma_div_by_multiple, lemma_fundamental_div_mod, lemma_mod_multiples_basic, lemma_mod_self_0,
    lemma_small_mod,
};
use crate::prime::{
    Prime, is_prime_spec, is_factor_seq, is_factorization, exp_of, product_of, factor_value,
    pow_nat, has_base, sorted_bases, lemma_pow_pos, lemma_product_pos, lemma_exp_of_push,
    lemma_exp_of_absent, lemma_sorted_profile_equal,
};

verus! {

/// The greatest common divisor, by Euclid's recursion.
pub open spec fn gcd(a: nat, b: nat) -> nat
    decreases b,
{
    if b == 0 {
        a
    } else {
        gcd(b, a % b)
    }
}

/// Bezout coefficients: the gcd is an integer combination of its arguments.
proof fn lemma_bezout(a: nat, b: nat) -> (r: (int, int))
    ensures
        a as int * r.0 + b as int * r.1 == gcd(a, b) as int,
    decreases b,
{
    if b == 0 {
        assert(gcd(a, 0) == a);
        let r = (1int, 0int);
        assert(a as int * 1int + 0int * 0int == a as int);
        r
    } else {
        let (x, y) = lemma_bezout(b, a % b);
        lemma_fundamental_div_mod(a as int, b as int);
        let q = a as int / b as int;
        assert(a as int == (b as int) * q + (a % b) as int);
        assert(a as int * y + b as int * (x - q * y) == gcd(a, b) as int) by (nonlinear_arith)
            requires
                b as int * x + (a % b) as int * y == gcd(b, a % b) as int,
                gcd(a, b) == gcd(b, a % b),
                a as int == (b as int) * q + (a % b) as int,
        ;
        (y, x - q * y)
    }
}

/// The gcd is positive and divides both arguments.
proof fn lemma_gcd_divides(a: nat, b: nat)
    requires
        a > 0 || b > 0,
    ensures
        gcd(a, b) > 0,
        a % gcd(a, b) == 0,
        b % gcd(a, b) == 0,
    decreases b,
{
    if b == 0 {
        lemma_mod_self_0(a as int);
        lemma_small_mod(0nat, a);
    } else {
        lemma_gcd_divides(b, a % b);
        let g = gcd(b, a % b);
        lemma_fundamental_div_mod(a as int, b as int);
        let q = a as int / b as int;
        lemma_fundamental_div_mod(b as int, g as int);
        let qb = b as int / g as int;
        lemma_fundamental_div_mod((a % b) as int, g as int);
        let qr = (a % b) as int / g as int;
        assert(a as int == (b as int) * q + (a % b) as int);
        assert(b as int == (g as int) * qb + (b as int) % (g as int));
        assert((a % b) as int == (g as int) * qr + ((a % b) as int) % (g as int));
        assert(b % g == 0 && (a % b) % g == 0);
        assert(a as int == (q * qb + qr) * (g as int)) by (nonlinear_arith)
            requires
                a as int == (b as int) * q + (a % b) as int,
                b as int == (g as int) * qb + (b as int) % (g as int),
                (b as int) % (g as int) == 0,
                (a % b) as int == (g as int) * qr + ((a % b) as int) % (g as int),
                ((a % b) as int) % (g as int) == 0,
        ;
        lemma_mod_multiples_basic(q * qb + qr, g as int);
        assert(a as int % (g as int) == 0);
    }
}

/// Euclid's lemma: a prime that divides a product divides one of the
/// factors.
proof fn lemma_euclid(p: u32, a: nat, b: nat)
    requires
        is_prime_spec(p),
        (a * b) % (p as nat) == 0,
        a % (p as nat) != 0,
    ensures
        b % (p as nat) == 0,
{
    let pn = p as nat;
    if a == 0 {
        lemma_small_mod(0nat, pn);
        assert(false);
    }
    let g = gcd(pn, a);
    lemma_gcd_divides(pn, a);
    if g != 1 {
        lemma_fundamental_div_mod(pn as int, g as int);
        let qg = pn as int / g as int;
        assert(2 <= g as int) by {
            assert(g > 0 && g != 1);
        }
        assert(g as int <= pn as int) by (nonlinear_arith)
            requires
                pn as int == (g as int) * qg + (pn as int) % (g as int),
                (pn as int) % (g as int) == 0,
                g as int >= 1,
                pn as int >= 2,
        ;
        if g != pn {
            assert(p % (g as u32) == 0);
            assert(false);
        }
        assert(a % pn == 0);
        assert(false);
    }
    let (x, y) = lemma_bezout(pn, a);
    lemma_fundamental_div_mod((a * b) as int, p as int);
    let k = (a * b) as int / (p as int);
    assert(b as int == ((b as int) * x + k * y) * (p as int)) by (nonlinear_arith)
        requires
            (pn as int) * x + (a as int) * y == 1,
            (a as int) * (b as int) == (p as int) * k,
            pn as int == p as int,
    ;
    lemma_mod_multiples_basic((b as int) * x + k * y, p as int);
    assert(b as int % (p as int) == 0);
}

/// The exponent of prime `p` in `n`: how many times `p` divides `n`.
pub open spec fn valuation(n: nat, p: nat) -> nat
    decreases n,
    via valuation_decreases
{
    if n >= 1 && p >= 2 && n % p == 0 {
        1 + valuation(n / p, p)
    } else {
        0
    }
}

#[via_fn]
proof fn valuation_decreases(n: nat, p: nat) {
    if n >= 1 && p >= 2 && n % p == 0 {
        lemma_fundamental_div_mod(n as int, p as int);
        assert(n / p < n) by (nonlinear_arith)
            requires
                n as int == (p as int) * ((n / p) as int) + (n % p) as int,
                (n % p) as int == 0,
                0 <= (n / p) as int,
                p >= 2,
                n >= 1,
        ;
    }
}

/// The valuation adds up over a product, by Euclid's lemma.
proof fn lemma_valuation_mul(a: nat, b: nat, p: u32)
    requires
        is_prime_spec(p),
        a >= 1,
        b >= 1,
    ensures
        valuation(a * b, p as nat) == valuation(a, p as nat) + valuation(b, p as nat),
    decreases a * b,
{
    let pn = p as nat;
    assert(a * b >= 1) by (nonlinear_arith)
        requires
            a >= 1,
            b >= 1,
    ;
    if (a * b) % pn == 0 {
        if a % pn == 0 {
            lemma_fundamental_div_mod(a as int, pn as int);
            let qa = a / pn;
            assert(a == pn * qa);
            assert(1 <= qa && qa < a) by (nonlinear_arith)
                requires
                    a as int == (pn as int) * (qa as int),
                    a >= 1,
                    pn >= 2,
            ;
            lemma_div_by_multiple((qa * b) as int, pn as int);
            assert(a * b == (qa * b) * pn) by (nonlinear_arith)
                requires
                    a == pn * qa,
            ;
            assert((a * b) / pn == qa * b);
            assert(qa * b < a * b) by (nonlinear_arith)
                requires
                    qa < a,
                    b >= 1,
            ;
            lemma_valuation_mul(qa, b, p);
            assert(valuation(a, pn) == 1 + valuation(qa, pn));
            assert(valuation(a * b, pn) == 1 + valuation((a * b) / pn, pn));
        } else {
            lemma_euclid(p, a, b);
            lemma_fundamental_div_mod(b as int, pn as int);
            let qb = b / pn;
            assert(b == pn * qb);
            assert(1 <= qb && qb < b) by (nonlinear_arith)
                requires
                    b as int == (pn as int) * (qb as int),
                    b >= 1,
                    pn >= 2,
            ;
            lemma_div_by_multiple((a * qb) as int, pn as int);
            assert(a * b == (a * qb) * pn) by (nonlinear_arith)
                requires
                    b == pn * qb,
            ;
            assert((a * b) / pn == a * qb);
            assert(a * qb < a * b) by (nonlinear_arith)
                requires
                    qb < b,
                    a >= 1,
            ;
            lemma_valuation_mul(a, qb, p);
            assert(valuation(b, pn) == 1 + valuation(qb, pn));
            assert(valuation(a * b, pn) == 1 + valuation((a * b) / pn, pn));
        }
    } else {
        assert(valuation(a * b, pn) == 0);
        if a % pn == 0 {
            lemma_fundamental_div_mod(a as int, pn as int);
            let qa = a / pn;
            lemma_mod_multiples_basic((qa * b) as int, pn as int);
            assert(a * b == (qa * b) * pn) by (nonlinear_arith)
                requires
                    a == pn * qa,
            ;
            assert(false);
        }
        if b % pn == 0 {
            lemma_fundamental_div_mod(b as int, pn as int);
            let qb = b / pn;
            lemma_mod_multiples_basic((a * qb) as int, pn as int);
            assert(a * b == (a * qb) * pn) by (nonlinear_arith)
                requires
                    b == pn * qb,
            ;
            assert(false);
        }
    }
}

/// The valuation of one prime at another: 1 at itself, 0 elsewhere.
proof fn lemma_valuation_prime(q: u32, p: u32)
    requires
        is_prime_spec(q),
        is_prime_spec(p),
    ensures
        valuation(q as nat, p as nat) == (if p == q {
            1nat
        } else {
            0nat
        }),
{
    let pn = p as nat;
    if p == q {
        lemma_mod_self_0(p as int);
        lemma_div_by_multiple(1int, p as int);
        assert((1int * (p as int)) / (p as int) == 1);
        assert(q as nat / pn == 1);
        lemma_small_mod(1nat, pn);
        assert(valuation(1nat, pn) == 0);
    } else {
        if (q as nat) < pn {
            lemma_small_mod(q as nat, pn);
            assert(q as nat % pn == q as nat);
        } else {
            if q as nat % pn == 0 {
                assert(2 <= p < q);
                assert(q % p == 0);
                assert(false);
            }
        }
        assert(valuation(q as nat, pn) == 0);
    }
}

/// The valuation of a prime power.
proof fn lemma_valuation_pow(q: u32, p: u32, e: nat)
    requires
        is_prime_spec(q),
        is_prime_spec(p),
    ensures
        valuation(pow_nat(q as nat, e), p as nat) == (if p == q {
            e
        } else {
            0nat
        }),
    decreases e,
{
    let pn = p as nat;
    if e == 0 {
        assert(pow_nat(q as nat, 0) == 1);
        lemma_small_mod(1nat, pn);
        assert(valuation(1nat, pn) == 0);
    } else {
        lemma_valuation_pow(q, p, (e - 1) as nat);
        lemma_pow_pos(q as nat, (e - 1) as nat);
        assert(pow_nat(q as nat, e) == (q as nat) * pow_nat(q as nat, (e - 1) as nat));
        lemma_valuation_mul(q as nat, pow_nat(q as nat, (e - 1) as nat), p);
        lemma_valuation_prime(q, p);
    }
}

/// Reading the valuation off a well-formed factor sequence: it is the
/// exponent the sequence lists for that prime.
proof fn lemma_valuation_product(s: Seq<Prime>, p: u32)
    requires
        is_factor_seq(s),
        is_prime_spec(p),
    ensures
        valuation(product_of(s), p as nat) == exp_of(s, p),
    decreases s.len(),
{
    let pn = p as nat;
    if s.len() == 0 {
        lemma_small_mod(1nat, pn);
        assert(valuation(1nat, pn) == 0);
        lemma_exp_of_absent(s, p);
    } else {
        let dl = s.drop_last();
        let last = s.last();
        assert(is_factor_seq(dl)) by {
            assert(forall|i: int| 0 <= i < dl.len() ==> dl[i] == s[i]);
        }
        lemma_valuation_product(dl, p);
        lemma_product_pos(dl);
        lemma_pow_pos(last.value as nat, last.exponent as nat);
        lemma_valuation_mul(product_of(dl), factor_value(last), p);
        lemma_valuation_pow(last.value, p, last.exponent as nat);
        assert(product_of(s) == product_of(dl) * factor_value(last));
        assert(s =~= dl.push(last));
        lemma_exp_of_push(dl, last, p);
        if last.value != p && !has_base(dl, p) {
            lemma_exp_of_absent(dl, p);
        }
        if last.value == p {
            assert forall|j: int| 0 <= j < dl.len() implies dl[j].value != p by {
                assert(dl[j] == s[j]);
                assert(s[j].value != s[s.len() - 1].value);
            }
            assert(!has_base(dl, p));
            lemma_exp_of_absent(dl, p);
        }
    }
}

/// Uniqueness of prime factorization: two factorizations of one number list
/// the same exponent for every base.
pub proof fn lemma_factorization_unique(s1: Seq<Prime>, s2: Seq<Prime>, n: u32)
    requires
        is_factorization(s1, n),
        is_factorization(s2, n),
    ensures
        forall|v: u32| exp_of(s1, v) == exp_of(s2, v),
{
    if n >= 2 {
        assert forall|v: u32| exp_of(s1, v) == exp_of(s2, v) by {
            if is_prime_spec(v) {
                lemma_valuation_product(s1, v);
                lemma_valuation_product(s2, v);
            } else {
                if has_base(s1, v) {
                    let i = choose|i: int| 0 <= i < s1.len() && s1[i].value == v;
                    assert(is_prime_spec(s1[i].value));
                    assert(false);
                }
                if has_base(s2, v) {
                    let i = choose|i: int| 0 <= i < s2.len() && s2[i].value == v;
                    assert(is_prime_spec(s2[i].value));
                    assert(false);
                }
                lemma_exp_of_absent(s1, v);
                lemma_exp_of_absent(s2, v);
            }
        }
    } else {
        assert(s1 =~= s2);
    }
}

/// Determinism at the sequence level: two sorted factorizations of one
/// number are the same sequence. With `prime_factors` promising a sorted
/// factorization, equal inputs give equal results.
pub proof fn lemma_sorted_factorization_unique(s1: Seq<Prime>, s2: Seq<Prime>, n: u32)
    requires
        is_factorization(s1, n),
        is_factorization(s2, n),
        sorted_bases(s1),
        sorted_bases(s2),
    ensures
        s1 == s2,
{
    lemma_factorization_unique(s1, s2, n);
    if n >= 2 {
        lemma_sorted_profile_equal(s1, s2);
    } else {
        assert(s1 =~= s2);
    }
}

} // verus!
