//! Prime factorization of a `u32` by recursive trial division, together with
//! the specification model that the reducers in the crate root build on: a
//! factorization is a sequence of `Prime` entries with pairwise distinct prime
//! bases whose product of `base^exponent` gives back the factored number.

use vstd::prelude::*;
use vstd::arithmetic::div_mod::{
    lemma_fundamental_div_mod, lemma_mod_multiples_basic, lemma_small_mod,
};
use vstd::pervasive::VecAdditionalExecFns;

verus! {

/// One prime-power component `value^exponent` of a factorization.
#[derive(PartialEq, Eq, Structural, Debug, Copy, Clone)]
pub struct Prime {
    pub value: u32,
    pub exponent: u32,
}

/// `n` is prime: at least 2 and with no divisor strictly between 1 and itself.
pub open spec fn is_prime_spec(n: u32) -> bool {
    n >= 2 && forall|d: u32| 2 <= d < n ==> #[trigger] (n % d) != 0
}

/// `b` raised to the `e`-th power, over unbounded naturals.
pub open spec fn pow_nat(b: nat, e: nat) -> nat
    decreases e,
{
    if e == 0 {
        1
    } else {
        b * pow_nat(b, (e - 1) as nat)
    }
}

/// The number a single entry stands for: `value^exponent`.
pub open spec fn factor_value(p: Prime) -> nat {
    pow_nat(p.value as nat, p.exponent as nat)
}

/// Product of `value^exponent` over all entries of `s`.
pub open spec fn product_of(s: Seq<Prime>) -> nat
    decreases s.len(),
{
    if s.len() == 0 {
        1
    } else {
        product_of(s.drop_last()) * factor_value(s.last())
    }
}

/// The exponent attached to base `v` in `s`: the exponent of the first entry
/// whose value is `v`, or 0 when no entry has that value.
pub open spec fn exp_of(s: Seq<Prime>, v: u32) -> nat
    decreases s.len(),
{
    if s.len() == 0 {
        0
    } else if s[0].value == v {
        s[0].exponent as nat
    } else {
        exp_of(s.drop_first(), v)
    }
}

/// Some entry of `s` has base `v`.
pub open spec fn has_base(s: Seq<Prime>, v: u32) -> bool {
    exists|i: int| 0 <= i < s.len() && s[i].value == v
}

/// No two entries of `s` share a base.
pub open spec fn distinct_bases(s: Seq<Prime>) -> bool {
    forall|i: int, j: int| 0 <= i < j < s.len() ==> s[i].value != s[j].value
}

/// The bases of `s` stand in strictly increasing order.
pub open spec fn sorted_bases(s: Seq<Prime>) -> bool {
    forall|i: int, j: int| 0 <= i < j < s.len() ==> s[i].value < s[j].value
}

/// Every divisor of `n` above 1 is at least `b`.
pub open spec fn factors_at_least(n: u32, b: u32) -> bool {
    forall|d: u32| 2 <= d <= n && #[trigger] (n % d) == 0 ==> d >= b
}

/// A well-formed sequence of prime powers: prime bases, pairwise distinct,
/// every exponent at least 1.
pub open spec fn is_factor_seq(s: Seq<Prime>) -> bool {
    &&& distinct_bases(s)
    &&& forall|i: int| 0 <= i < s.len() ==> is_prime_spec((#[trigger] s[i]).value)
    &&& forall|i: int| 0 <= i < s.len() ==> (#[trigger] s[i]).exponent >= 1
}

/// `s` is the factorization this crate produces for `n`: for `n >= 2` a
/// well-formed sequence of prime powers whose product is `n`; for the
/// degenerate inputs 0 and 1, the single pseudo-factor `[{n, 1}]`.
pub open spec fn is_factorization(s: Seq<Prime>, n: u32) -> bool {
    if n >= 2 {
        is_factor_seq(s) && product_of(s) == n
    } else {
        s.len() == 1 && s[0] == (Prime { value: n, exponent: 1 })
    }
}

/// Values below 2 are never prime, and 2 is the smallest prime.
pub proof fn lemma_smallest_prime()
    ensures
        forall|n: u32| n <= 1 ==> !is_prime_spec(n),
        is_prime_spec(2),
        forall|n: u32| is_prime_spec(n) ==> n >= 2,
{
}

/// A number with no divisor up to its square root has no divisor at all.
proof fn lemma_no_small_divisor(n: u32, i: u32)
    requires
        n >= 2,
        i >= 2,
        (i as int) * (i as int) > n as int,
        forall|d: u32| 2 <= d < i ==> #[trigger] (n % d) != 0,
    ensures
        forall|d: u32| 2 <= d < n ==> #[trigger] (n % d) != 0,
{
    assert forall|d: u32| 2 <= d < n implies #[trigger] (n % d) != 0 by {
        if d >= i && n % d == 0 {
            lemma_fundamental_div_mod(n as int, d as int);
            let q = n as int / d as int;
            assert(n as int == d as int * q);
            assert(2 <= q < i) by (nonlinear_arith)
                requires
                    n as int == d as int * q,
                    2 <= d as int,
                    (d as int) < n as int,
                    (d as int) >= i as int,
                    (i as int) >= 2,
                    (i as int) * (i as int) > n as int,
            ;
            lemma_mod_multiples_basic(d as int, q);
            assert(n as int % q == 0);
            assert(n % (q as u32) == 0);
            assert(false);
        }
    }
}

/// A power of a positive base is positive.
pub proof fn lemma_pow_pos(b: nat, e: nat)
    requires
        b >= 1,
    ensures
        pow_nat(b, e) >= 1,
    decreases e,
{
    if e > 0 {
        lemma_pow_pos(b, (e - 1) as nat);
        assert(b * pow_nat(b, (e - 1) as nat) >= 1) by (nonlinear_arith)
            requires
                b >= 1,
                pow_nat(b, (e - 1) as nat) >= 1,
        ;
    }
}

/// A power of a base of at least 2 grows beyond its exponent.
proof fn lemma_exponent_bound(b: nat, e: nat)
    requires
        b >= 2,
    ensures
        pow_nat(b, e) > e,
    decreases e,
{
    if e > 0 {
        lemma_exponent_bound(b, (e - 1) as nat);
        assert(b * pow_nat(b, (e - 1) as nat) > e) by (nonlinear_arith)
            requires
                b >= 2,
                e >= 1,
                pow_nat(b, (e - 1) as nat) >= e,
        ;
    }
}

/// A product over entries with positive bases is positive.
pub proof fn lemma_product_pos(s: Seq<Prime>)
    requires
        forall|i: int| 0 <= i < s.len() ==> (#[trigger] s[i]).value >= 1,
    ensures
        product_of(s) >= 1,
    decreases s.len(),
{
    if s.len() > 0 {
        lemma_product_pos(s.drop_last());
        lemma_pow_pos(s.last().value as nat, s.last().exponent as nat);
        assert(product_of(s.drop_last()) * factor_value(s.last()) >= 1) by (nonlinear_arith)
            requires
                product_of(s.drop_last()) >= 1,
                factor_value(s.last()) >= 1,
        ;
    }
}

/// Each single entry's value is a lower bound on the whole product, as long
/// as every base is positive.
proof fn lemma_product_entry_lower(s: Seq<Prime>, i: int)
    requires
        forall|j: int| 0 <= j < s.len() ==> (#[trigger] s[j]).value >= 1,
        0 <= i < s.len(),
    ensures
        product_of(s) >= factor_value(s[i]),
    decreases s.len(),
{
    if i == s.len() - 1 {
        lemma_product_pos(s.drop_last());
        assert(product_of(s.drop_last()) * factor_value(s.last()) >= factor_value(s.last()))
            by (nonlinear_arith)
            requires
                product_of(s.drop_last()) >= 1,
        ;
    } else {
        lemma_product_entry_lower(s.drop_last(), i);
        lemma_pow_pos(s.last().value as nat, s.last().exponent as nat);
        assert(product_of(s.drop_last()) * factor_value(s.last()) >= factor_value(s[i]))
            by (nonlinear_arith)
            requires
                product_of(s.drop_last()) >= factor_value(s[i]),
                factor_value(s.last()) >= 1,
        ;
    }
}

/// Appending an entry multiplies the product by that entry's value.
pub proof fn lemma_product_push(s: Seq<Prime>, p: Prime)
    ensures
        product_of(s.push(p)) == product_of(s) * factor_value(p),
{
    assert(s.push(p).drop_last() =~= s);
    assert(s.push(p).last() == p);
}

/// Replacing one entry exchanges its factor inside the product.
proof fn lemma_product_update(s: Seq<Prime>, i: int, q: Prime)
    requires
        0 <= i < s.len(),
    ensures
        product_of(s.update(i, q)) * factor_value(s[i]) == product_of(s) * factor_value(q),
    decreases s.len(),
{
    let t = s.update(i, q);
    if i == s.len() - 1 {
        assert(t.drop_last() =~= s.drop_last());
        assert(t.last() == q);
        let a = product_of(s.drop_last());
        assert((a * factor_value(q)) * factor_value(s[i]) == (a * factor_value(s[i]))
            * factor_value(q)) by (nonlinear_arith);
    } else {
        lemma_product_update(s.drop_last(), i, q);
        assert(t.drop_last() =~= s.drop_last().update(i, q));
        assert(t.last() == s.last());
        assert(s.drop_last()[i] == s[i]);
        let u = product_of(s.drop_last().update(i, q));
        let a = product_of(s.drop_last());
        let fl = factor_value(s.last());
        assert((u * fl) * factor_value(s[i]) == (a * fl) * factor_value(q)) by (nonlinear_arith)
            requires
                u * factor_value(s[i]) == a * factor_value(q),
        ;
    }
}

/// A sequence that lists base 0 with a positive exponent has product 0.
pub proof fn lemma_product_zero(s: Seq<Prime>)
    requires
        has_base(s, 0),
        forall|i: int| 0 <= i < s.len() ==> (#[trigger] s[i]).exponent >= 1,
    ensures
        product_of(s) == 0,
    decreases s.len(),
{
    let i = choose|i: int| 0 <= i < s.len() && s[i].value == 0;
    if i == s.len() - 1 {
        let e = s.last().exponent as nat;
        assert(pow_nat(0, e) == 0 * pow_nat(0, (e - 1) as nat));
        assert(product_of(s.drop_last()) * 0 == 0) by (nonlinear_arith);
    } else {
        assert(s.drop_last()[i] == s[i]);
        assert(has_base(s.drop_last(), 0));
        lemma_product_zero(s.drop_last());
        assert(0 * factor_value(s.last()) == 0) by (nonlinear_arith);
    }
}

/// `exp_of` after appending an entry: an existing base keeps its exponent,
/// a fresh base takes the appended one.
pub proof fn lemma_exp_of_push(s: Seq<Prime>, p: Prime, v: u32)
    ensures
        exp_of(s.push(p), v) == (if has_base(s, v) {
            exp_of(s, v)
        } else if p.value == v {
            p.exponent as nat
        } else {
            0
        }),
    decreases s.len(),
{
    let t = s.push(p);
    if s.len() == 0 {
        assert(t[0] == p);
        assert(t.drop_first() =~= Seq::<Prime>::empty());
        assert(exp_of(t.drop_first(), v) == 0);
        assert(!has_base(s, v));
    } else {
        assert(t[0] == s[0]);
        if s[0].value == v {
            assert(has_base(s, v));
            assert(exp_of(t, v) == s[0].exponent as nat);
            assert(exp_of(s, v) == s[0].exponent as nat);
        } else {
            assert(exp_of(t, v) == exp_of(t.drop_first(), v));
            assert(exp_of(s, v) == exp_of(s.drop_first(), v));
            assert(t.drop_first() =~= s.drop_first().push(p));
            lemma_exp_of_push(s.drop_first(), p, v);
            if has_base(s, v) {
                let i = choose|i: int| 0 <= i < s.len() && s[i].value == v;
                assert(s.drop_first()[i - 1] == s[i]);
                assert(has_base(s.drop_first(), v));
            }
            if has_base(s.drop_first(), v) {
                let i = choose|i: int|
                    0 <= i < s.drop_first().len() && s.drop_first()[i].value == v;
                assert(s[i + 1] == s.drop_first()[i]);
                assert(has_base(s, v));
            }
        }
    }
}

/// `exp_of` after replacing the entry of one base by another entry of the
/// same base.
pub proof fn lemma_exp_of_update(s: Seq<Prime>, i: int, q: Prime, v: u32)
    requires
        distinct_bases(s),
        0 <= i < s.len(),
        s[i].value == q.value,
    ensures
        exp_of(s.update(i, q), v) == (if v == q.value {
            q.exponent as nat
        } else {
            exp_of(s, v)
        }),
    decreases s.len(),
{
    let t = s.update(i, q);
    if i == 0 {
        assert(t[0] == q);
        if q.value != v {
            assert(t.drop_first() =~= s.drop_first());
        }
    } else {
        assert(t[0] == s[0]);
        assert(s[0].value != q.value);
        assert(t.drop_first() =~= s.drop_first().update(i - 1, q));
        assert(distinct_bases(s.drop_first())) by {
            assert forall|a: int, b: int|
                0 <= a < b < s.drop_first().len() implies s.drop_first()[a].value
                != s.drop_first()[b].value by {
                assert(s.drop_first()[a] == s[a + 1]);
                assert(s.drop_first()[b] == s[b + 1]);
            }
        }
        assert(s.drop_first()[i - 1] == s[i]);
        lemma_exp_of_update(s.drop_first(), i - 1, q, v);
    }
}

/// A base occurs in a sequence of positive exponents exactly when its
/// exponent there is positive.
pub proof fn lemma_exp_of_base(s: Seq<Prime>, v: u32)
    requires
        forall|i: int| 0 <= i < s.len() ==> (#[trigger] s[i]).exponent >= 1,
    ensures
        has_base(s, v) <==> exp_of(s, v) >= 1,
    decreases s.len(),
{
    if s.len() > 0 {
        if s[0].value == v {
            assert(has_base(s, v));
        } else {
            lemma_exp_of_base(s.drop_first(), v);
            if has_base(s, v) {
                let i = choose|i: int| 0 <= i < s.len() && s[i].value == v;
                assert(s.drop_first()[i - 1] == s[i]);
                assert(has_base(s.drop_first(), v));
            }
            if has_base(s.drop_first(), v) {
                let i = choose|i: int|
                    0 <= i < s.drop_first().len() && s.drop_first()[i].value == v;
                assert(s[i + 1] == s.drop_first()[i]);
                assert(has_base(s, v));
            }
        }
    }
}

/// A base that does not occur carries exponent 0.
pub proof fn lemma_exp_of_absent(s: Seq<Prime>, v: u32)
    requires
        !has_base(s, v),
    ensures
        exp_of(s, v) == 0,
    decreases s.len(),
{
    if s.len() > 0 {
        assert(s[0].value != v);
        assert forall|j: int| 0 <= j < s.drop_first().len() implies s.drop_first()[j].value
            != v by {
            assert(s.drop_first()[j] == s[j + 1]);
        }
        lemma_exp_of_absent(s.drop_first(), v);
    }
}

/// A factorization's product gives back the factored number, for the
/// degenerate inputs 0 and 1 too.
pub proof fn lemma_factorization_product(s: Seq<Prime>, n: u32)
    requires
        is_factorization(s, n),
    ensures
        product_of(s) == n as nat,
{
    if n < 2 {
        assert(s.drop_last() =~= Seq::<Prime>::empty());
        assert(product_of(Seq::<Prime>::empty()) == 1);
        assert(s.last() == s[0]);
        assert(pow_nat(n as nat, 0) == 1);
        assert(factor_value(s[0]) == n as nat * pow_nat(n as nat, 0));
        assert(product_of(s) == product_of(s.drop_last()) * factor_value(s.last()));
    }
}

/// The exponent `exp_of` reads is the one of the first entry with that base.
pub proof fn lemma_exp_of_first_match(s: Seq<Prime>, v: u32, i: int)
    requires
        0 <= i < s.len(),
        s[i].value == v,
        forall|j: int| 0 <= j < i ==> s[j].value != v,
    ensures
        exp_of(s, v) == s[i].exponent as nat,
    decreases s.len(),
{
    if i > 0 {
        assert(s.drop_first()[i - 1] == s[i]);
        assert forall|j: int| 0 <= j < i - 1 implies s.drop_first()[j].value != v by {
            assert(s.drop_first()[j] == s[j + 1]);
        }
        lemma_exp_of_first_match(s.drop_first(), v, i - 1);
    }
}

/// The position of the first entry with base `v`; the length when no entry
/// has it.
pub open spec fn index_of_base(s: Seq<Prime>, v: u32) -> int
    decreases s.len(),
{
    if s.len() == 0 {
        0
    } else if s[0].value == v {
        0
    } else {
        1 + index_of_base(s.drop_first(), v)
    }
}

/// `index_of_base` finds the first match.
pub proof fn lemma_index_of_base(s: Seq<Prime>, v: u32, i: int)
    requires
        0 <= i < s.len(),
        s[i].value == v,
        forall|j: int| 0 <= j < i ==> s[j].value != v,
    ensures
        index_of_base(s, v) == i,
    decreases s.len(),
{
    if i > 0 {
        assert(s.drop_first()[i - 1] == s[i]);
        assert forall|j: int| 0 <= j < i - 1 implies s.drop_first()[j].value != v by {
            assert(s.drop_first()[j] == s[j + 1]);
        }
        lemma_index_of_base(s.drop_first(), v, i - 1);
    }
}

/// Where `index_of_base` points when the base occurs: at the first entry
/// with that base.
pub proof fn lemma_index_of_base_has(s: Seq<Prime>, v: u32)
    requires
        has_base(s, v),
    ensures
        0 <= index_of_base(s, v) < s.len(),
        s[index_of_base(s, v)].value == v,
        forall|j: int| 0 <= j < index_of_base(s, v) ==> s[j].value != v,
    decreases s.len(),
{
    if s[0].value != v {
        let i = choose|i: int| 0 <= i < s.len() && s[i].value == v;
        assert(s.drop_first()[i - 1] == s[i]);
        assert(has_base(s.drop_first(), v));
        lemma_index_of_base_has(s.drop_first(), v);
        let k = index_of_base(s.drop_first(), v);
        assert(s[k + 1] == s.drop_first()[k]);
        assert forall|j: int| 0 <= j < index_of_base(s, v) implies s[j].value != v by {
            if j > 0 {
                assert(s.drop_first()[j - 1] == s[j]);
            }
        }
    }
}

/// Divisibility is transitive.
proof fn lemma_divides_trans(d: u32, m: u32, n: u32)
    requires
        1 <= d,
        1 <= m,
        m % d == 0,
        n % m == 0,
    ensures
        n % d == 0,
{
    lemma_fundamental_div_mod(m as int, d as int);
    lemma_fundamental_div_mod(n as int, m as int);
    let qm = m as int / d as int;
    let qn = n as int / m as int;
    assert(n as int == (qm * qn) * (d as int)) by (nonlinear_arith)
        requires
            m as int == (d as int) * qm + (m % d) as int,
            (m % d) as int == 0,
            n as int == (m as int) * qn + (n % m) as int,
            (n % m) as int == 0,
    ;
    lemma_mod_multiples_basic(qm * qn, d as int);
}

/// A power splits over a sum of exponents.
pub proof fn lemma_pow_add(b: nat, m: nat, n: nat)
    ensures
        pow_nat(b, m + n) == pow_nat(b, m) * pow_nat(b, n),
    decreases m,
{
    if m == 0 {
        assert(pow_nat(b, 0) == 1);
    } else {
        lemma_pow_add(b, (m - 1) as nat, n);
        assert(pow_nat(b, ((m - 1) + n) as nat) == pow_nat(b, (m - 1) as nat) * pow_nat(b, n));
        assert(pow_nat(b, m + n) == b * pow_nat(b, (m + n - 1) as nat));
        assert(pow_nat(b, m) == b * pow_nat(b, (m - 1) as nat));
        let x = pow_nat(b, (m - 1) as nat);
        let y = pow_nat(b, n);
        assert(b * (x * y) == (b * x) * y) by (nonlinear_arith);
    }
}

/// The product also peels off at the front.
#[verifier::spinoff_prover]
proof fn lemma_product_first(s: Seq<Prime>)
    requires
        s.len() > 0,
    ensures
        product_of(s) == factor_value(s[0]) * product_of(s.drop_first()),
    decreases s.len(),
{
    assert(product_of(s) == product_of(s.drop_last()) * factor_value(s.last()));
    if s.len() == 1 {
        assert(s.drop_last() =~= Seq::<Prime>::empty());
        assert(s.drop_first() =~= Seq::<Prime>::empty());
        assert(product_of(Seq::<Prime>::empty()) == 1);
        assert(s.last() == s[0]);
        assert(s.drop_last() == Seq::<Prime>::empty());
        assert(product_of(s.drop_last()) == 1);
        assert(factor_value(s.last()) == factor_value(s[0]));
        assert(product_of(s) == 1 * factor_value(s[0]));
        assert(1 * factor_value(s[0]) == factor_value(s[0])) by (nonlinear_arith);
        assert(product_of(s) == factor_value(s[0]));
        assert(factor_value(s[0]) * 1 == factor_value(s[0])) by (nonlinear_arith);
    } else {
        lemma_product_first(s.drop_last());
        assert(s.drop_last()[0] == s[0]);
        assert(s.drop_last().drop_first() =~= s.drop_first().drop_last());
        assert(s.drop_first().last() == s.last());
        assert(s.drop_first().len() > 0);
        assert(product_of(s.drop_first()) == product_of(s.drop_first().drop_last())
            * factor_value(s.drop_first().last()));
        let a = product_of(s.drop_first().drop_last());
        let f0 = factor_value(s[0]);
        let fl = factor_value(s.last());
        assert(product_of(s.drop_last()) == f0 * a);
        assert(product_of(s) == (f0 * a) * fl);
        assert(product_of(s.drop_first()) == a * fl);
        assert((f0 * a) * fl == f0 * (a * fl)) by (nonlinear_arith);
    }
}

/// The entries of `s` whose base is not `v`, in order.
pub open spec fn remove_base(s: Seq<Prime>, v: u32) -> Seq<Prime>
    decreases s.len(),
{
    if s.len() == 0 {
        Seq::<Prime>::empty()
    } else if s[0].value == v {
        remove_base(s.drop_first(), v)
    } else {
        seq![s[0]] + remove_base(s.drop_first(), v)
    }
}

/// Dropping the first entry keeps the bases pairwise distinct.
proof fn lemma_distinct_drop_first(s: Seq<Prime>)
    requires
        distinct_bases(s),
        s.len() > 0,
    ensures
        distinct_bases(s.drop_first()),
{
    assert forall|a: int, b: int|
        0 <= a < b < s.drop_first().len() implies s.drop_first()[a].value
        != s.drop_first()[b].value by {
        assert(s.drop_first()[a] == s[a + 1]);
        assert(s.drop_first()[b] == s[b + 1]);
    }
}

/// Which bases survive the removal: all but `v`.
pub proof fn lemma_remove_base_has(s: Seq<Prime>, v: u32, w: u32)
    ensures
        has_base(remove_base(s, v), w) <==> (has_base(s, w) && w != v),
    decreases s.len(),
{
    if s.len() > 0 {
        lemma_remove_base_has(s.drop_first(), v, w);
        if has_base(s.drop_first(), w) {
            let i = choose|i: int| 0 <= i < s.drop_first().len() && s.drop_first()[i].value == w;
            assert(s[i + 1] == s.drop_first()[i]);
            assert(has_base(s, w));
        }
        if has_base(s, w) && s[0].value != w {
            let i = choose|i: int| 0 <= i < s.len() && s[i].value == w;
            assert(s.drop_first()[i - 1] == s[i]);
            assert(has_base(s.drop_first(), w));
        }
        if s[0].value != v {
            let t = seq![s[0]] + remove_base(s.drop_first(), v);
            assert(remove_base(s, v) == t);
            assert(t[0] == s[0]);
            if has_base(remove_base(s.drop_first(), v), w) {
                let i = choose|i: int|
                    0 <= i < remove_base(s.drop_first(), v).len() && remove_base(
                        s.drop_first(),
                        v,
                    )[i].value == w;
                assert(t[i + 1] == remove_base(s.drop_first(), v)[i]);
                assert(has_base(t, w));
            }
            if has_base(t, w) && t[0].value != w {
                let i = choose|i: int| 0 <= i < t.len() && t[i].value == w;
                assert(t[i] == remove_base(s.drop_first(), v)[i - 1]);
                assert(has_base(remove_base(s.drop_first(), v), w));
            }
        }
    }
}

/// The exponents other bases carry are untouched by the removal.
pub proof fn lemma_remove_base_exp(s: Seq<Prime>, v: u32, w: u32)
    requires
        w != v,
    ensures
        exp_of(remove_base(s, v), w) == exp_of(s, w),
    decreases s.len(),
{
    if s.len() > 0 {
        lemma_remove_base_exp(s.drop_first(), v, w);
        if s[0].value != v {
            let t = seq![s[0]] + remove_base(s.drop_first(), v);
            assert(t[0] == s[0]);
            assert(t.drop_first() =~= remove_base(s.drop_first(), v));
        }
    }
}

/// The removal keeps every exponent positive and the bases distinct.
pub proof fn lemma_remove_base_shape(s: Seq<Prime>, v: u32)
    requires
        distinct_bases(s),
        forall|i: int| 0 <= i < s.len() ==> (#[trigger] s[i]).exponent >= 1,
    ensures
        distinct_bases(remove_base(s, v)),
        forall|i: int|
            0 <= i < remove_base(s, v).len() ==> (#[trigger] remove_base(s, v)[i]).exponent >= 1,
        remove_base(s, v).len() <= s.len(),
        has_base(s, v) ==> remove_base(s, v).len() < s.len(),
    decreases s.len(),
{
    if s.len() > 0 {
        lemma_distinct_drop_first(s);
        assert(forall|i: int|
            0 <= i < s.drop_first().len() ==> (#[trigger] s.drop_first()[i]).exponent >= 1);
        lemma_remove_base_shape(s.drop_first(), v);
        if s[0].value == v {
            assert(has_base(s, v));
        } else {
            let x = remove_base(s.drop_first(), v);
            let t = seq![s[0]] + x;
            assert(t[0] == s[0]);
            assert(forall|i: int| 1 <= i < t.len() ==> t[i] == x[i - 1]);
            assert forall|a: int, b: int| 0 <= a < b < t.len() implies t[a].value
                != t[b].value by {
                if a == 0 {
                    if t[b].value == s[0].value {
                        assert(x[b - 1].value == s[0].value);
                        assert(has_base(x, s[0].value));
                        lemma_remove_base_has(s.drop_first(), v, s[0].value);
                        let i = choose|i: int|
                            0 <= i < s.drop_first().len() && s.drop_first()[i].value
                                == s[0].value;
                        assert(s[i + 1] == s.drop_first()[i]);
                        assert(false);
                    }
                }
            }
            if has_base(s, v) {
                let i = choose|i: int| 0 <= i < s.len() && s[i].value == v;
                assert(s.drop_first()[i - 1] == s[i]);
                assert(has_base(s.drop_first(), v));
            }
        }
    }
}

/// Splitting off the power of one base: under distinct bases the product is
/// the removed sequence's product times `v` to the exponent it carried.
#[verifier::spinoff_prover]
pub proof fn lemma_remove_base_product(s: Seq<Prime>, v: u32)
    requires
        distinct_bases(s),
    ensures
        product_of(s) == product_of(remove_base(s, v)) * pow_nat(v as nat, exp_of(s, v)),
    decreases s.len(),
{
    if s.len() == 0 {
        assert(pow_nat(v as nat, 0) == 1);
        assert(product_of(s) == 1);
        assert(product_of(remove_base(s, v)) == 1);
        assert(1nat * 1nat == 1nat) by (nonlinear_arith);
    } else {
        lemma_distinct_drop_first(s);
        lemma_remove_base_product(s.drop_first(), v);
        lemma_product_first(s);
        if s[0].value == v {
            assert forall|j: int| 0 <= j < s.drop_first().len()
                implies s.drop_first()[j].value != v by {
                assert(s.drop_first()[j] == s[j + 1]);
            }
            assert(!has_base(s.drop_first(), v));
            lemma_exp_of_absent(s.drop_first(), v);
            assert(product_of(remove_base(s.drop_first(), v)) * 1 == product_of(remove_base(
                s.drop_first(),
                v,
            ))) by (nonlinear_arith);
            assert(product_of(s.drop_first()) == product_of(remove_base(s.drop_first(), v)) * 1);
            assert(exp_of(s, v) == s[0].exponent as nat);
            assert(factor_value(s[0]) == pow_nat(v as nat, exp_of(s, v)));
            let a = product_of(remove_base(s.drop_first(), v));
            let p = pow_nat(v as nat, exp_of(s, v));
            assert(product_of(s) == p * a);
            assert(p * a == a * p) by (nonlinear_arith);
            assert(product_of(s) == product_of(remove_base(s, v)) * p);
        } else {
            let x = remove_base(s.drop_first(), v);
            let t = seq![s[0]] + x;
            assert(t[0] == s[0]);
            assert(t.drop_first() =~= x);
            assert(t.len() > 0);
            lemma_product_first(t);
            assert(product_of(t) == factor_value(s[0]) * product_of(x));
            let f0 = factor_value(s[0]);
            let a = product_of(x);
            let p = pow_nat(v as nat, exp_of(s.drop_first(), v));
            assert(product_of(s.drop_first()) == a * p);
            assert(exp_of(s, v) == exp_of(s.drop_first(), v));
            assert(f0 * (a * p) == (f0 * a) * p) by (nonlinear_arith);
        }
    }
}

/// Sorted sequences with positive exponents and the same exponent profile
/// are one sequence.
pub proof fn lemma_sorted_profile_equal(s1: Seq<Prime>, s2: Seq<Prime>)
    requires
        sorted_bases(s1),
        sorted_bases(s2),
        forall|i: int| 0 <= i < s1.len() ==> (#[trigger] s1[i]).exponent >= 1,
        forall|i: int| 0 <= i < s2.len() ==> (#[trigger] s2[i]).exponent >= 1,
        forall|v: u32| exp_of(s1, v) == exp_of(s2, v),
    ensures
        s1 == s2,
    decreases s1.len(),
{
    if s1.len() == 0 && s2.len() == 0 {
        assert(s1 =~= s2);
    } else if s1.len() == 0 {
        assert(exp_of(s2, s2[0].value) == s2[0].exponent as nat);
        assert(exp_of(s1, s2[0].value) == 0);
        assert(false);
    } else if s2.len() == 0 {
        assert(exp_of(s1, s1[0].value) == s1[0].exponent as nat);
        assert(exp_of(s2, s1[0].value) == 0);
        assert(false);
    } else {
        let v1 = s1[0].value;
        let v2 = s2[0].value;
        assert(exp_of(s1, v1) == s1[0].exponent as nat);
        assert(exp_of(s2, v2) == s2[0].exponent as nat);
        lemma_exp_of_base(s1, v2);
        lemma_exp_of_base(s2, v1);
        let k2 = choose|k: int| 0 <= k < s2.len() && s2[k].value == v1;
        if k2 > 0 {
            assert(s2[0].value < s2[k2].value);
        }
        let k1 = choose|k: int| 0 <= k < s1.len() && s1[k].value == v2;
        if k1 > 0 {
            assert(s1[0].value < s1[k1].value);
        }
        assert(v1 == v2);
        assert(s1[0].exponent == s2[0].exponent);
        assert(s1[0] == s2[0]);
        assert forall|a: int, b: int|
            0 <= a < b < s1.drop_first().len() implies s1.drop_first()[a].value
            < s1.drop_first()[b].value by {
            assert(s1.drop_first()[a] == s1[a + 1]);
            assert(s1.drop_first()[b] == s1[b + 1]);
        }
        assert forall|a: int, b: int|
            0 <= a < b < s2.drop_first().len() implies s2.drop_first()[a].value
            < s2.drop_first()[b].value by {
            assert(s2.drop_first()[a] == s2[a + 1]);
            assert(s2.drop_first()[b] == s2[b + 1]);
        }
        assert(forall|i: int|
            0 <= i < s1.drop_first().len() ==> (#[trigger] s1.drop_first()[i]).exponent >= 1);
        assert(forall|i: int|
            0 <= i < s2.drop_first().len() ==> (#[trigger] s2.drop_first()[i]).exponent >= 1);
        assert forall|v: u32| exp_of(s1.drop_first(), v) == exp_of(s2.drop_first(), v) by {
            if v == v1 {
                assert forall|j: int|
                    0 <= j < s1.drop_first().len() implies s1.drop_first()[j].value != v by {
                    assert(s1.drop_first()[j] == s1[j + 1]);
                    assert(s1[0].value < s1[j + 1].value);
                }
                assert(!has_base(s1.drop_first(), v));
                lemma_exp_of_absent(s1.drop_first(), v);
                assert forall|j: int|
                    0 <= j < s2.drop_first().len() implies s2.drop_first()[j].value != v by {
                    assert(s2.drop_first()[j] == s2[j + 1]);
                    assert(s2[0].value < s2[j + 1].value);
                }
                assert(!has_base(s2.drop_first(), v));
                lemma_exp_of_absent(s2.drop_first(), v);
            } else {
                assert(exp_of(s1, v) == exp_of(s1.drop_first(), v));
                assert(exp_of(s2, v) == exp_of(s2.drop_first(), v));
            }
        }
        lemma_sorted_profile_equal(s1.drop_first(), s2.drop_first());
        assert forall|j: int| 0 <= j < s1.len() implies s1[j] == s2[j] by {
            if j > 0 {
                assert(s1.drop_first()[j - 1] == s1[j]);
                assert(s2.drop_first()[j - 1] == s2[j]);
            }
        }
        assert(s1 =~= s2);
    }
}

/// Is `number` a prime?
pub fn is_prime(number: u32) -> (r: bool)
    ensures
        r == is_prime_spec(number),
{
    if number <= 1 {
        return false;
    }
    let mut i: u32 = 2;
    while i <= number / i
        invariant
            2 <= i,
            2 <= number,
            forall|d: u32| 2 <= d < i ==> #[trigger] (number % d) != 0,
        decreases number - i,
    {
        proof {
            lemma_fundamental_div_mod(number as int, i as int);
            assert(i < number) by (nonlinear_arith)
                requires
                    number as int == i as int * (number as int / i as int) + number as int
                        % i as int,
                    (i as int) <= number as int / i as int,
                    0 <= number as int % i as int,
                    (i as int) >= 2,
            ;
        }
        if number % i == 0 {
            assert(!is_prime_spec(number));
            return false;
        }
        i = i + 1;
    }
    proof {
        lemma_fundamental_div_mod(number as int, i as int);
        assert((i as int) * (i as int) > number as int) by (nonlinear_arith)
            requires
                number as int == i as int * (number as int / i as int) + number as int % i as int,
                (number as int % i as int) < i as int,
                (i as int) > number as int / i as int,
                (i as int) >= 2,
                0 <= number as int / i as int,
        ;
        lemma_no_small_divisor(number, i);
    }
    true
}

/// Raise the exponent of `new_prime` if it is already listed, else append it
/// with exponent 1. Either way the recorded product gains a factor
/// `new_prime`.
pub fn add_prime(primes: &mut Vec<Prime>, new_prime: u32)
    requires
        is_factor_seq(old(primes)@),
        is_prime_spec(new_prime),
        product_of(old(primes)@) * new_prime <= u32::MAX as nat,
    ensures
        is_factor_seq(final(primes)@),
        product_of(final(primes)@) == product_of(old(primes)@) * new_prime,
        has_base(old(primes)@, new_prime) ==> final(primes)@ == old(primes)@.update(
            index_of_base(old(primes)@, new_prime),
            (Prime {
                value: new_prime,
                exponent: (old(primes)@[index_of_base(old(primes)@, new_prime)].exponent
                    + 1) as u32,
            }),
        ),
        !has_base(old(primes)@, new_prime) ==> final(primes)@ == old(primes)@.push(
            (Prime { value: new_prime, exponent: 1 }),
        ),
        sorted_bases(old(primes)@) && (old(primes)@.len() == 0 || new_prime >= old(
            primes,
        )@.last().value) ==> sorted_bases(final(primes)@),
{
    let mut i: usize = 0;
    while i < primes.len()
        invariant
            i <= primes@.len(),
            primes@ == old(primes)@,
            is_factor_seq(old(primes)@),
            is_prime_spec(new_prime),
            product_of(old(primes)@) * new_prime <= u32::MAX as nat,
            forall|t: int| 0 <= t < i ==> primes@[t].value != new_prime,
        decreases primes@.len() - i,
    {
        if primes[i].value == new_prime {
            let p = primes[i];
            proof {
                lemma_product_entry_lower(primes@, i as int);
                lemma_exponent_bound(new_prime as nat, p.exponent as nat);
                assert(product_of(primes@) <= product_of(primes@) * new_prime)
                    by (nonlinear_arith)
                    requires
                        new_prime >= 1,
                ;
            }
            let q = Prime { value: p.value, exponent: p.exponent + 1 };
            proof {
                assert(has_base(primes@, new_prime));
                lemma_index_of_base(primes@, new_prime, i as int);
            }
            primes.set(i, q);
            proof {
                assert(forall|a: int|
                    0 <= a < primes@.len() ==> (#[trigger] primes@[a]).value == old(
                        primes,
                    )@[a].value);
                lemma_product_update(old(primes)@, i as int, q);
                assert(factor_value(q) == new_prime as nat * factor_value(p));
                lemma_pow_pos(p.value as nat, p.exponent as nat);
                let x = product_of(primes@);
                let y = product_of(old(primes)@);
                assert(x == y * new_prime) by (nonlinear_arith)
                    requires
                        x * factor_value(p) == y * (new_prime as nat * factor_value(p)),
                        factor_value(p) >= 1,
                ;
            }
            return;
        }
        i += 1;
    }
    proof {
        assert(!has_base(primes@, new_prime));
    }
    let q = Prime { value: new_prime, exponent: 1 };
    primes.push(q);
    proof {
        if sorted_bases(old(primes)@) && (old(primes)@.len() == 0 || new_prime >= old(
            primes,
        )@.last().value) {
            assert forall|a: int, b: int|
                0 <= a < b < primes@.len() implies primes@[a].value < primes@[b].value by {
                if b < primes@.len() - 1 {
                    assert(primes@[a] == old(primes)@[a] && primes@[b] == old(primes)@[b]);
                } else {
                    assert(primes@[a] == old(primes)@[a]);
                    assert(primes@[b].value == new_prime);
                    assert(old(primes)@[a].value != new_prime);
                    assert(old(primes)@.last() == old(primes)@[old(primes)@.len() - 1]);
                    if a < old(primes)@.len() - 1 {
                        assert(old(primes)@[a].value < old(primes)@.last().value);
                    }
                }
            }
        }
        lemma_product_push(old(primes)@, q);
        assert(pow_nat(new_prime as nat, 0) == 1);
        assert(factor_value(q) == new_prime as nat * pow_nat(new_prime as nat, 0));
        assert(primes@ == old(primes)@.push(q));
        assert(product_of(primes@) == product_of(old(primes)@) * (new_prime as nat));
    }
}

/// Find the first divisor of `number`, decompose both halves recursively,
/// and save the prime components into `primes`, merging repeated primes.
/// The entries already recorded keep their bases and order; what is added
/// divides `number` and keeps the bases strictly increasing. When `number`
/// is prime or below 2 nothing is saved.
pub fn get_primes(number: u32, primes: &mut Vec<Prime>)
    requires
        is_factor_seq(old(primes)@),
        sorted_bases(old(primes)@),
        product_of(old(primes)@) * number <= u32::MAX as nat,
        old(primes)@.len() > 0 ==> factors_at_least(number, old(primes)@.last().value),
    ensures
        is_factor_seq(final(primes)@),
        sorted_bases(final(primes)@),
        final(primes)@.len() >= old(primes)@.len(),
        forall|j: int|
            0 <= j < old(primes)@.len() ==> (#[trigger] final(primes)@[j]).value
                == old(primes)@[j].value,
        forall|j: int|
            old(primes)@.len() <= j < final(primes)@.len()
                ==> number % (#[trigger] final(primes)@[j]).value == 0,
        number >= 2 && !is_prime_spec(number) ==> product_of(final(primes)@) == product_of(
            old(primes)@,
        ) * number,
        number < 2 || is_prime_spec(number) ==> final(primes)@ == old(primes)@,
    decreases number,
{
    let mut i: u32 = 2;
    while i < number
        invariant
            2 <= i,
            primes@ == old(primes)@,
            is_factor_seq(old(primes)@),
            sorted_bases(old(primes)@),
            product_of(old(primes)@) * number <= u32::MAX as nat,
            old(primes)@.len() > 0 ==> factors_at_least(number, old(primes)@.last().value),
            forall|d: u32| 2 <= d < i ==> #[trigger] (number % d) != 0,
        decreases number - i,
    {
        if number % i == 0 {
            let rest = number / i;
            proof {
                lemma_fundamental_div_mod(number as int, i as int);
                assert(number as int == i as int * rest as int);
                assert(2 <= rest as int && (rest as int) < number as int) by (nonlinear_arith)
                    requires
                        number as int == i as int * rest as int,
                        2 <= i as int,
                        (i as int) < number as int,
                ;
                assert(!is_prime_spec(number));
                // i is the smallest divisor of number, and rest divides it too
                assert(factors_at_least(number, i));
                lemma_mod_multiples_basic(i as int, rest as int);
                assert(number % rest == 0);
                assert(rest >= i);
                let y = product_of(old(primes)@);
                assert(y * i <= u32::MAX as nat) by (nonlinear_arith)
                    requires
                        y * number <= u32::MAX as nat,
                        (i as int) <= number as int,
                        y >= 0,
                ;
            }
            let ghost pre = primes@;
            if is_prime(i) {
                add_prime(primes, i);
                proof {
                    if has_base(pre, i) {
                        lemma_index_of_base_has(pre, i);
                    }
                }
            } else {
                proof {
                    // the smallest divisor of number is always prime: a
                    // smaller divisor of i would divide number too
                    let d = choose|d: u32| 2 <= d < i && #[trigger] (i % d) == 0;
                    lemma_divides_trans(d, i, number);
                    assert(false);
                }
                get_primes(i, primes);
            }
            proof {
                assert(sorted_bases(primes@));
                assert(primes@.len() >= pre.len() && primes@.len() > 0);
                assert(forall|j: int|
                    0 <= j < pre.len() ==> (#[trigger] primes@[j]).value == pre[j].value);
                assert(forall|j: int|
                    pre.len() <= j < primes@.len() ==> number % (#[trigger] primes@[j]).value
                        == 0);
                assert(primes@.last().value <= i);
                let x = product_of(primes@);
                let y = product_of(old(primes)@);
                assert(x * rest <= u32::MAX as nat) by (nonlinear_arith)
                    requires
                        x == y * i,
                        number as int == i as int * rest as int,
                        y * number <= u32::MAX as nat,
                ;
                // every divisor of rest divides number, so it is at least i
                assert forall|d: u32|
                    2 <= d <= rest && #[trigger] (rest % d) == 0 implies d >= i by {
                    lemma_divides_trans(d, rest, number);
                }
                assert(factors_at_least(rest, primes@.last().value));
            }
            let ghost mid = primes@;
            if is_prime(rest) {
                add_prime(primes, rest);
                proof {
                    if has_base(mid, rest) {
                        lemma_index_of_base_has(mid, rest);
                    }
                }
            } else {
                get_primes(rest, primes);
            }
            proof {
                assert(forall|j: int|
                    0 <= j < mid.len() ==> (#[trigger] primes@[j]).value == mid[j].value);
                assert forall|j: int|
                    mid.len() <= j < primes@.len() implies number % (#[trigger] primes@[j]).value
                        == 0 by {
                    if !is_prime_spec(rest) {
                        lemma_divides_trans(primes@[j].value, rest, number);
                    }
                }
                let y = product_of(old(primes)@);
                assert((y * i) * rest == y * number) by (nonlinear_arith)
                    requires
                        number as int == i as int * rest as int,
                ;
            }
            return;
        }
        i += 1;
    }
}

/// List all prime factors of `number`. For `number >= 2` the result is its
/// prime factorization, with the bases in strictly increasing order; 0 and
/// 1 come back as the single pseudo-factor `[{number, 1}]`.
pub fn prime_factors(number: u32) -> (r: Vec<Prime>)
    ensures
        is_factorization(r@, number),
        sorted_bases(r@),
{
    let mut primes: Vec<Prime> = Vec::new();
    assert(primes@ =~= Seq::<Prime>::empty());
    assert(product_of(Seq::<Prime>::empty()) == 1);
    get_primes(number, &mut primes);
    if primes.len() == 0 {
        proof {
            assert(primes@ =~= Seq::<Prime>::empty());
            assert(number < 2 || is_prime_spec(number));
        }
        let p = Prime { value: number, exponent: 1 };
        primes.push(p);
        proof {
            lemma_product_push(Seq::<Prime>::empty(), p);
            assert(pow_nat(number as nat, 0) == 1);
            assert(factor_value(p) == number as nat * pow_nat(number as nat, 0));
            assert(primes@.len() == 1 && primes@[0] == p);
            assert(product_of(primes@) == number as nat);
        }
    }
    primes
}

} // verus!
