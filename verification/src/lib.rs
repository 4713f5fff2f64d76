//! Greatest common factor and least common multiple over `u32`, computed by
//! the prime-factorization method: factor every input, merge the prime powers
//! (minimum exponents for the GCF, maximum exponents for the LCM), and
//! multiply the merged powers back together. Products wrap at the `u32`
//! width, as the reducers' contracts state explicitly.

use vstd::prelude::*;
use vstd::arithmetic::div_mod::{lemma_mul_mod_noop, lemma_mul_mod_noop_left};
use crate::prime::{
    Prime, prime_factors, is_factorization, distinct_bases, has_base, exp_of, product_of,
    factor_value, pow_nat, remove_base, lemma_exp_of_push, lemma_exp_of_update, lemma_exp_of_base,
    lemma_exp_of_first_match, lemma_exp_of_absent, lemma_factorization_product,
    lemma_product_zero, lemma_pow_add, lemma_remove_base_has,
    lemma_remove_base_exp, lemma_remove_base_shape, lemma_remove_base_product,
};
use vstd::arithmetic::div_mod::lemma_small_mod;
use crate::unique::lemma_factorization_unique;

pub mod prime;
pub mod unique;

verus! {

/// The larger of two naturals.
pub open spec fn nat_max(a: nat, b: nat) -> nat {
    if a >= b {
        a
    } else {
        b
    }
}

/// The smaller of two naturals.
pub open spec fn nat_min(a: nat, b: nat) -> nat {
    if a <= b {
        a
    } else {
        b
    }
}

/// Reduction of a value modulo 2^32, the wrap-around the reducers use.
pub open spec fn wrap_u32(x: nat) -> nat {
    x % 0x1_0000_0000
}

/// The largest exponent base `v` carries in any of the factorizations `fs`;
/// 0 when none lists it.
pub open spec fn max_exp(fs: Seq<Seq<Prime>>, v: u32) -> nat
    decreases fs.len(),
{
    if fs.len() == 0 {
        0
    } else {
        nat_max(max_exp(fs.drop_last(), v), exp_of(fs.last(), v))
    }
}

/// The exponent base `v` keeps under intersection: the smallest exponent it
/// carries over all of `fs`, which is 0 as soon as one factorization lacks it.
pub open spec fn gcf_exp(fs: Seq<Seq<Prime>>, v: u32) -> nat
    decreases fs.len(),
{
    if fs.len() == 0 {
        0
    } else if fs.len() == 1 {
        exp_of(fs[0], v)
    } else {
        nat_min(gcf_exp(fs.drop_last(), v), exp_of(fs.last(), v))
    }
}

/// A merged sequence of prime powers: bases pairwise distinct, every
/// exponent positive, so that `exp_of` describes it completely.
pub open spec fn is_merge_profile(m: Seq<Prime>) -> bool {
    distinct_bases(m) && forall|j: int| 0 <= j < m.len() ==> (#[trigger] m[j]).exponent >= 1
}

/// `fs` lists one factorization per input number.
pub open spec fn are_factorizations(fs: Seq<Seq<Prime>>, numbers: Seq<u32>) -> bool {
    fs.len() == numbers.len() && forall|i: int|
        0 <= i < fs.len() ==> is_factorization(#[trigger] fs[i], numbers[i])
}

/// `m` is the union merge of `fs`: each base appears once, with the largest
/// exponent it has anywhere in `fs`.
pub open spec fn is_lcm_merge(m: Seq<Prime>, fs: Seq<Seq<Prime>>) -> bool {
    is_merge_profile(m) && forall|v: u32| exp_of(m, v) == max_exp(fs, v)
}

/// `m` is the intersection merge of `fs`: each base appears once, with the
/// smallest exponent it has across all of `fs`, and only if all list it.
pub open spec fn is_gcf_merge(m: Seq<Prime>, fs: Seq<Seq<Prime>>) -> bool {
    is_merge_profile(m) && forall|v: u32| exp_of(m, v) == gcf_exp(fs, v)
}

/// `base^exponent`, reduced modulo 2^32 step by step.
fn pow_wrap(b: u32, e: u32) -> (r: u32)
    ensures
        r as nat == wrap_u32(pow_nat(b as nat, e as nat)),
{
    let mut total: u32 = 1;
    let mut j: u32 = 0;
    while j < e
        invariant
            j <= e,
            total as nat == wrap_u32(pow_nat(b as nat, j as nat)),
        decreases e - j,
    {
        proof {
            assert((total as int) * (b as int) < 0x1_0000_0000int * 0x1_0000_0000int)
                by (nonlinear_arith)
                requires
                    0 <= total as int,
                    (total as int) < 0x1_0000_0000,
                    0 <= b as int,
                    (b as int) < 0x1_0000_0000,
            ;
        }
        let next = (((total as u64) * (b as u64)) % 0x1_0000_0000u64) as u32;
        proof {
            lemma_mul_mod_noop_left(
                pow_nat(b as nat, j as nat) as int,
                b as int,
                0x1_0000_0000int,
            );
            assert(pow_nat(b as nat, (j + 1) as nat) == b as nat * pow_nat(b as nat, j as nat));
            assert(b as nat * pow_nat(b as nat, j as nat) == pow_nat(b as nat, j as nat) * b as nat)
                by (nonlinear_arith);
        }
        total = next;
        j += 1;
    }
    total
}

/// Multiply the `value^exponent` of all entries together, wrapping at the
/// `u32` width.
pub fn multiply_value(tab: &[Prime]) -> (r: u32)
    ensures
        r as nat == wrap_u32(product_of(tab@)),
{
    let mut total: u32 = 1;
    let mut i: usize = 0;
    while i < tab.len()
        invariant
            i <= tab@.len(),
            total as nat == wrap_u32(product_of(tab@.take(i as int))),
        decreases tab@.len() - i,
    {
        let p = tab[i];
        let pw = pow_wrap(p.value, p.exponent);
        proof {
            assert((total as int) * (pw as int) < 0x1_0000_0000int * 0x1_0000_0000int)
                by (nonlinear_arith)
                requires
                    0 <= total as int,
                    (total as int) < 0x1_0000_0000,
                    0 <= pw as int,
                    (pw as int) < 0x1_0000_0000,
            ;
        }
        let next = (((total as u64) * (pw as u64)) % 0x1_0000_0000u64) as u32;
        proof {
            assert(tab@.take(i + 1).drop_last() =~= tab@.take(i as int));
            assert(tab@.take(i + 1).last() == tab@[i as int]);
            lemma_mul_mod_noop(
                product_of(tab@.take(i as int)) as int,
                factor_value(tab@[i as int]) as int,
                0x1_0000_0000int,
            );
        }
        total = next;
        i += 1;
    }
    proof {
        assert(tab@.take(tab@.len() as int) =~= tab@);
    }
    total
}

/// Look up the exponent recorded for base `v` in `group`.
fn find_exp(group: &Vec<Prime>, v: u32) -> (r: Option<u32>)
    ensures
        match r {
            Some(e) => has_base(group@, v) && exp_of(group@, v) == e as nat,
            None => !has_base(group@, v) && exp_of(group@, v) == 0,
        },
{
    let mut i: usize = 0;
    while i < group.len()
        invariant
            i <= group@.len(),
            forall|j: int| 0 <= j < i ==> group@[j].value != v,
        decreases group@.len() - i,
    {
        if group[i].value == v {
            proof {
                lemma_exp_of_first_match(group@, v, i as int);
            }
            return Some(group[i].exponent);
        }
        i += 1;
    }
    proof {
        lemma_exp_of_absent(group@, v);
    }
    None
}

/// Merge one entry into the accumulator: keep the larger exponent for a base
/// already listed, append a fresh base as it is.
fn upsert_max(conserves: &mut Vec<Prime>, p: Prime)
    requires
        is_merge_profile(old(conserves)@),
        p.exponent >= 1,
    ensures
        is_merge_profile(final(conserves)@),
        forall|v: u32|
            exp_of(final(conserves)@, v) == (if v == p.value {
                nat_max(exp_of(old(conserves)@, v), p.exponent as nat)
            } else {
                exp_of(old(conserves)@, v)
            }),
        !has_base(old(conserves)@, p.value) ==> final(conserves)@ == old(conserves)@.push(p),
{
    let mut i: usize = 0;
    while i < conserves.len()
        invariant
            i <= conserves@.len(),
            conserves@ == old(conserves)@,
            is_merge_profile(old(conserves)@),
            forall|t: int| 0 <= t < i ==> conserves@[t].value != p.value,
        decreases conserves@.len() - i,
    {
        if conserves[i].value == p.value {
            proof {
                lemma_exp_of_first_match(conserves@, p.value, i as int);
                assert(has_base(conserves@, p.value));
            }
            if conserves[i].exponent < p.exponent {
                let q = Prime { value: p.value, exponent: p.exponent };
                let ghost prev = conserves@;
                conserves.set(i, q);
                proof {
                    assert(forall|a: int|
                        0 <= a < conserves@.len() ==> (#[trigger] conserves@[a]).value
                            == prev[a].value);
                    assert(distinct_bases(conserves@));
                    assert forall|v: u32|
                        exp_of(conserves@, v) == (if v == p.value {
                            nat_max(exp_of(prev, v), p.exponent as nat)
                        } else {
                            exp_of(prev, v)
                        }) by {
                        lemma_exp_of_update(prev, i as int, q, v);
                    }
                }
            }
            return;
        }
        i += 1;
    }
    let ghost prev = conserves@;
    conserves.push(p);
    proof {
        assert(!has_base(prev, p.value));
        lemma_exp_of_absent(prev, p.value);
        assert(forall|a: int| 0 <= a < prev.len() ==> (#[trigger] conserves@[a]) == prev[a]);
        assert(conserves@[prev.len() as int] == p);
        assert(distinct_bases(conserves@));
        assert forall|v: u32|
            exp_of(conserves@, v) == (if v == p.value {
                nat_max(exp_of(prev, v), p.exponent as nat)
            } else {
                exp_of(prev, v)
            }) by {
            lemma_exp_of_push(prev, p, v);
            if !has_base(prev, v) {
                lemma_exp_of_absent(prev, v);
            }
        }
    }
}

/// Merge a whole factorization into the accumulator, keeping for each base
/// the larger of the two exponents.
fn merge_max(conserves: &mut Vec<Prime>, group: &Vec<Prime>)
    requires
        is_merge_profile(old(conserves)@),
        is_merge_profile(group@),
    ensures
        is_merge_profile(final(conserves)@),
        forall|v: u32|
            exp_of(final(conserves)@, v) == nat_max(
                exp_of(old(conserves)@, v),
                exp_of(group@, v),
            ),
        old(conserves)@.len() == 0 ==> final(conserves)@ == group@,
{
    let mut j: usize = 0;
    while j < group.len()
        invariant
            j <= group@.len(),
            is_merge_profile(conserves@),
            is_merge_profile(group@),
            forall|v: u32|
                exp_of(conserves@, v) == nat_max(
                    exp_of(old(conserves)@, v),
                    exp_of(group@.take(j as int), v),
                ),
            old(conserves)@.len() == 0 ==> conserves@ == group@.take(j as int),
        decreases group@.len() - j,
    {
        let p = group[j];
        proof {
            assert forall|t: int| 0 <= t < group@.take(j as int).len()
                implies group@.take(j as int)[t].value != p.value by {
                assert(group@.take(j as int)[t] == group@[t]);
            }
            assert(!has_base(group@.take(j as int), p.value));
            lemma_exp_of_absent(group@.take(j as int), p.value);
        }
        let ghost prev = conserves@;
        upsert_max(conserves, p);
        proof {
            assert(group@.take(j + 1) =~= group@.take(j as int).push(p));
            assert forall|v: u32|
                exp_of(conserves@, v) == nat_max(
                    exp_of(old(conserves)@, v),
                    exp_of(group@.take(j + 1), v),
                ) by {
                lemma_exp_of_push(group@.take(j as int), p, v);
                if !has_base(group@.take(j as int), v) {
                    lemma_exp_of_absent(group@.take(j as int), v);
                }
            }
            if prev.len() == 0 && old(conserves)@.len() == 0 {
                assert(conserves@ == prev.push(p));
                assert(conserves@ =~= group@.take(j + 1));
            }
        }
        j += 1;
    }
    proof {
        assert(group@.take(group@.len() as int) =~= group@);
    }
}

/// Return the Least Common Multiple value with the prime factorization
/// method: factor every input, keep each prime at the largest exponent seen,
/// and multiply the kept powers, wrapping at the `u32` width. An empty input
/// gives the multiplicative identity 1; any input 0 forces the result 0.
pub fn lcm(numbers: &[u32]) -> (r: u32)
    ensures
        exists|fs: Seq<Seq<Prime>>, m: Seq<Prime>|
            are_factorizations(fs, numbers@) && is_lcm_merge(m, fs) && r as nat == wrap_u32(
                product_of(m),
            ),
        numbers@.len() == 0 ==> r == 1,
        numbers@.len() == 1 ==> r == numbers@[0],
        (exists|i: int| 0 <= i < numbers@.len() && numbers@[i] == 0) ==> r == 0,
        numbers@.len() == 2 && numbers@[0] == numbers@[1] ==> r == numbers@[0],
{
    let mut conserves: Vec<Prime> = Vec::new();
    let ghost mut fs: Seq<Seq<Prime>> = Seq::empty();
    let mut k: usize = 0;
    while k < numbers.len()
        invariant
            k <= numbers@.len(),
            fs.len() == k,
            forall|i: int| 0 <= i < k ==> is_factorization(#[trigger] fs[i], numbers@[i]),
            is_merge_profile(conserves@),
            forall|v: u32| exp_of(conserves@, v) == max_exp(fs, v),
            k == 0 ==> conserves@.len() == 0,
            k == 1 ==> conserves@ == fs[0],
            (exists|i: int| 0 <= i < k && numbers@[i] == 0) ==> has_base(conserves@, 0),
        decreases numbers@.len() - k,
    {
        let f = prime_factors(numbers[k]);
        proof {
            assert(is_merge_profile(f@)) by {
                if numbers@[k as int] < 2 {
                    assert(f@[0].exponent == 1);
                }
            }
        }
        let ghost prev = conserves@;
        merge_max(&mut conserves, &f);
        proof {
            let ghost fs0 = fs;
            fs = fs.push(f@);
            assert(fs.drop_last() =~= fs0);
            assert(fs.last() == f@);
            assert forall|v: u32| exp_of(conserves@, v) == max_exp(fs, v) by {
                assert(exp_of(prev, v) == max_exp(fs0, v));
                assert(exp_of(conserves@, v) == nat_max(exp_of(prev, v), exp_of(f@, v)));
                assert(max_exp(fs, v) == nat_max(max_exp(fs.drop_last(), v), exp_of(fs.last(), v)));
                assert(max_exp(fs.drop_last(), v) == max_exp(fs0, v));
            }
            if numbers@[k as int] == 0 {
                assert(f@[0].value == 0);
                assert(exp_of(f@, 0) == 1);
                lemma_exp_of_base(conserves@, 0);
            }
            if exists|i: int| 0 <= i < k && numbers@[i] == 0 {
                lemma_exp_of_base(prev, 0);
                lemma_exp_of_base(conserves@, 0);
            }
        }
        k += 1;
    }
    let r = multiply_value(conserves.as_slice());
    proof {
        assert(are_factorizations(fs, numbers@));
        assert(is_lcm_merge(conserves@, fs));
        if numbers@.len() == 0 {
            assert(conserves@ =~= Seq::<Prime>::empty());
            assert(product_of(Seq::<Prime>::empty()) == 1);
            lemma_small_mod(1nat, 0x1_0000_0000nat);
        }
        if numbers@.len() == 1 {
            lemma_factorization_product(fs[0], numbers@[0]);
            lemma_small_mod(numbers@[0] as nat, 0x1_0000_0000nat);
        }
        if exists|i: int| 0 <= i < numbers@.len() && numbers@[i] == 0 {
            lemma_product_zero(conserves@);
            lemma_small_mod(0nat, 0x1_0000_0000nat);
        }
        if numbers@.len() == 2 && numbers@[0] == numbers@[1] {
            assert(fs =~= seq![fs[0], fs[1]]);
            lemma_merge_idempotent(numbers@[0], fs[0], fs[1], conserves@);
            lemma_small_mod(numbers@[0] as nat, 0x1_0000_0000nat);
        }
    }
    r
}

/// Intersect the accumulator with one more factorization: keep only the
/// bases listed in both, each at the smaller of the two exponents.
fn intersect_min(conserves: &mut Vec<Prime>, group: &Vec<Prime>)
    requires
        is_merge_profile(old(conserves)@),
        is_merge_profile(group@),
    ensures
        is_merge_profile(final(conserves)@),
        forall|v: u32|
            exp_of(final(conserves)@, v) == nat_min(
                exp_of(old(conserves)@, v),
                exp_of(group@, v),
            ),
{
    let mut result: Vec<Prime> = Vec::new();
    let mut i: usize = 0;
    while i < conserves.len()
        invariant
            i <= conserves@.len(),
            conserves@ == old(conserves)@,
            is_merge_profile(old(conserves)@),
            is_merge_profile(group@),
            is_merge_profile(result@),
            forall|v: u32|
                exp_of(result@, v) == nat_min(
                    exp_of(old(conserves)@.take(i as int), v),
                    exp_of(group@, v),
                ),
        decreases conserves@.len() - i,
    {
        let p = conserves[i];
        proof {
            assert forall|t: int| 0 <= t < conserves@.take(i as int).len()
                implies conserves@.take(i as int)[t].value != p.value by {
                assert(conserves@.take(i as int)[t] == conserves@[t]);
            }
            assert(!has_base(conserves@.take(i as int), p.value));
            lemma_exp_of_absent(conserves@.take(i as int), p.value);
            assert(exp_of(result@, p.value) == 0);
            lemma_exp_of_base(result@, p.value);
        }
        let ghost prev = result@;
        match find_exp(group, p.value) {
            Some(e) => {
                let m = if e < p.exponent {
                    e
                } else {
                    p.exponent
                };
                let q = Prime { value: p.value, exponent: m };
                result.push(q);
                proof {
                    assert(forall|a: int|
                        0 <= a < prev.len() ==> (#[trigger] result@[a]) == prev[a]);
                    assert(result@[prev.len() as int] == q);
                    lemma_exp_of_base(group@, p.value);
                    assert(m >= 1);
                    assert(distinct_bases(result@)) by {
                        lemma_exp_of_base(prev, p.value);
                    }
                    assert(is_merge_profile(result@));
                    assert forall|v: u32|
                        exp_of(result@, v) == nat_min(
                            exp_of(conserves@.take(i + 1), v),
                            exp_of(group@, v),
                        ) by {
                        assert(conserves@.take(i + 1) =~= conserves@.take(i as int).push(
                            conserves@[i as int],
                        ));
                        lemma_exp_of_push(conserves@.take(i as int), p, v);
                        lemma_exp_of_push(prev, q, v);
                        if !has_base(conserves@.take(i as int), v) {
                            lemma_exp_of_absent(conserves@.take(i as int), v);
                        }
                        if !has_base(prev, v) {
                            lemma_exp_of_absent(prev, v);
                        }
                        lemma_exp_of_base(prev, v);
                    }
                }
            },
            None => {
                proof {
                    assert forall|v: u32|
                        exp_of(result@, v) == nat_min(
                            exp_of(conserves@.take(i + 1), v),
                            exp_of(group@, v),
                        ) by {
                        assert(conserves@.take(i + 1) =~= conserves@.take(i as int).push(
                            conserves@[i as int],
                        ));
                        lemma_exp_of_push(conserves@.take(i as int), p, v);
                        if !has_base(conserves@.take(i as int), v) {
                            lemma_exp_of_absent(conserves@.take(i as int), v);
                        }
                    }
                }
            },
        }
        i += 1;
    }
    proof {
        assert(conserves@.take(conserves@.len() as int) =~= conserves@);
    }
    *conserves = result;
}

/// Return the Greatest Common Factor value with the prime factorization
/// method: factor every input, keep each prime at the smallest exponent it
/// has in all of them (dropping primes missing anywhere), and multiply the
/// kept powers, wrapping at the `u32` width. An empty input, or any input 0,
/// is rejected with the error marker 0.
pub fn gcf(numbers: &Vec<u32>) -> (r: Result<u32, u32>)
    ensures
        (numbers@.len() == 0 || (exists|i: int| 0 <= i < numbers@.len() && numbers@[i] == 0))
            <==> (r is Err),
        r is Err ==> r == Result::<u32, u32>::Err(0u32),
        r is Ok ==> exists|fs: Seq<Seq<Prime>>, m: Seq<Prime>|
            are_factorizations(fs, numbers@) && is_gcf_merge(m, fs) && r->Ok_0 as nat == wrap_u32(
                product_of(m),
            ),
        numbers@.len() == 1 && numbers@[0] != 0 ==> r == Result::<u32, u32>::Ok(numbers@[0]),
        numbers@.len() == 2 && numbers@[0] == numbers@[1] && numbers@[0] != 0 ==> r
            == Result::<u32, u32>::Ok(numbers@[0]),
{
    if numbers.len() == 0 {
        return Err(0);
    }
    let mut k: usize = 0;
    while k < numbers.len()
        invariant
            k <= numbers@.len(),
            forall|i: int| 0 <= i < k ==> numbers@[i] != 0,
        decreases numbers@.len() - k,
    {
        if numbers[k] == 0 {
            return Err(0);
        }
        k += 1;
    }
    let mut conserves = prime_factors(numbers[0]);
    let ghost mut fs: Seq<Seq<Prime>> = seq![conserves@];
    proof {
        assert(is_merge_profile(conserves@)) by {
            if numbers@[0] < 2 {
                assert(conserves@[0].exponent == 1);
            }
        }
        assert(fs.last() == conserves@);
        assert forall|v: u32| exp_of(conserves@, v) == gcf_exp(fs, v) by {
            assert(gcf_exp(fs, v) == exp_of(fs[0], v));
        }
    }
    let mut k: usize = 1;
    while k < numbers.len()
        invariant
            1 <= k <= numbers@.len(),
            fs.len() == k,
            forall|i: int| 0 <= i < k ==> is_factorization(#[trigger] fs[i], numbers@[i]),
            is_merge_profile(conserves@),
            forall|v: u32| exp_of(conserves@, v) == gcf_exp(fs, v),
            k == 1 ==> conserves@ == fs[0],
        decreases numbers@.len() - k,
    {
        let f = prime_factors(numbers[k]);
        proof {
            assert(is_merge_profile(f@)) by {
                if numbers@[k as int] < 2 {
                    assert(f@[0].exponent == 1);
                }
            }
        }
        let ghost prev = conserves@;
        intersect_min(&mut conserves, &f);
        proof {
            let ghost fs0 = fs;
            fs = fs.push(f@);
            assert(fs.drop_last() =~= fs0);
            assert(fs.last() == f@);
            assert forall|v: u32| exp_of(conserves@, v) == gcf_exp(fs, v) by {
                assert(exp_of(prev, v) == gcf_exp(fs0, v));
                assert(exp_of(conserves@, v) == nat_min(exp_of(prev, v), exp_of(f@, v)));
                assert(gcf_exp(fs, v) == nat_min(gcf_exp(fs.drop_last(), v), exp_of(fs.last(), v)));
                assert(gcf_exp(fs.drop_last(), v) == gcf_exp(fs0, v));
            }
        }
        k += 1;
    }
    let r = multiply_value(conserves.as_slice());
    proof {
        assert(are_factorizations(fs, numbers@));
        assert(is_gcf_merge(conserves@, fs));
        if numbers@.len() == 1 {
            lemma_factorization_product(fs[0], numbers@[0]);
            lemma_small_mod(numbers@[0] as nat, 0x1_0000_0000nat);
        }
        if numbers@.len() == 2 && numbers@[0] == numbers@[1] {
            assert(fs =~= seq![fs[0], fs[1]]);
            lemma_merge_idempotent(numbers@[0], fs[0], fs[1], conserves@);
            lemma_small_mod(numbers@[0] as nat, 0x1_0000_0000nat);
        }
    }
    Ok(r)
}

/// Two pairs of merged sequences whose exponents sum alike, base by base,
/// have the same product of products.
proof fn lemma_product_pair_profile(g: Seq<Prime>, l: Seq<Prime>, fa: Seq<Prime>, fb: Seq<Prime>)
    requires
        is_merge_profile(g),
        is_merge_profile(l),
        is_merge_profile(fa),
        is_merge_profile(fb),
        forall|v: u32| exp_of(g, v) + exp_of(l, v) == exp_of(fa, v) + exp_of(fb, v),
    ensures
        product_of(g) * product_of(l) == product_of(fa) * product_of(fb),
    decreases fa.len() + fb.len(),
{
    if fa.len() == 0 && fb.len() == 0 {
        if g.len() > 0 {
            assert(exp_of(g, g[0].value) == g[0].exponent as nat);
            assert(exp_of(fa, g[0].value) == 0);
            assert(exp_of(fb, g[0].value) == 0);
            assert(false);
        }
        if l.len() > 0 {
            assert(exp_of(l, l[0].value) == l[0].exponent as nat);
            assert(exp_of(fa, l[0].value) == 0);
            assert(exp_of(fb, l[0].value) == 0);
            assert(false);
        }
        assert(product_of(g) == 1);
        assert(product_of(l) == 1);
    } else {
        let v = if fa.len() > 0 {
            fa[0].value
        } else {
            fb[0].value
        };
        let g2 = remove_base(g, v);
        let l2 = remove_base(l, v);
        let fa2 = remove_base(fa, v);
        let fb2 = remove_base(fb, v);
        lemma_remove_base_shape(g, v);
        lemma_remove_base_shape(l, v);
        lemma_remove_base_shape(fa, v);
        lemma_remove_base_shape(fb, v);
        lemma_remove_base_product(g, v);
        lemma_remove_base_product(l, v);
        lemma_remove_base_product(fa, v);
        lemma_remove_base_product(fb, v);
        assert forall|w: u32|
            exp_of(g2, w) + exp_of(l2, w) == exp_of(fa2, w) + exp_of(fb2, w) by {
            if w == v {
                lemma_remove_base_has(g, v, v);
                lemma_remove_base_has(l, v, v);
                lemma_remove_base_has(fa, v, v);
                lemma_remove_base_has(fb, v, v);
                lemma_exp_of_absent(g2, v);
                lemma_exp_of_absent(l2, v);
                lemma_exp_of_absent(fa2, v);
                lemma_exp_of_absent(fb2, v);
            } else {
                lemma_remove_base_exp(g, v, w);
                lemma_remove_base_exp(l, v, w);
                lemma_remove_base_exp(fa, v, w);
                lemma_remove_base_exp(fb, v, w);
            }
        }
        if fa.len() > 0 {
            assert(has_base(fa, v));
        } else {
            assert(has_base(fb, v));
        }
        lemma_product_pair_profile(g2, l2, fa2, fb2);
        let eg = exp_of(g, v);
        let el = exp_of(l, v);
        let ea = exp_of(fa, v);
        let eb = exp_of(fb, v);
        lemma_pow_add(v as nat, eg, el);
        lemma_pow_add(v as nat, ea, eb);
        assert(pow_nat(v as nat, eg) * pow_nat(v as nat, el) == pow_nat(v as nat, ea) * pow_nat(
            v as nat,
            eb,
        ));
        let pg2 = product_of(g2);
        let pl2 = product_of(l2);
        let pa2 = product_of(fa2);
        let pb2 = product_of(fb2);
        let ag = pow_nat(v as nat, eg);
        let al = pow_nat(v as nat, el);
        let aa = pow_nat(v as nat, ea);
        let ab = pow_nat(v as nat, eb);
        assert(product_of(g) * product_of(l) == (pg2 * pl2) * (ag * al)) by (nonlinear_arith)
            requires
                product_of(g) == pg2 * ag,
                product_of(l) == pl2 * al,
        ;
        assert(product_of(fa) * product_of(fb) == (pa2 * pb2) * (aa * ab)) by (nonlinear_arith)
            requires
                product_of(fa) == pa2 * aa,
                product_of(fb) == pb2 * ab,
        ;
    }
}

/// The cross law for a pair: over any factorizations of two positive
/// numbers, the intersection merge and the union merge multiply back to the
/// product of the numbers, without wrap-around. So wherever `a * b` fits in
/// the width, `gcf([a, b]) * lcm([a, b]) == a * b` exactly.
pub proof fn lemma_gcf_times_lcm(
    a: u32,
    b: u32,
    fa: Seq<Prime>,
    fb: Seq<Prime>,
    g: Seq<Prime>,
    l: Seq<Prime>,
)
    requires
        a >= 1,
        b >= 1,
        is_factorization(fa, a),
        is_factorization(fb, b),
        is_gcf_merge(g, seq![fa, fb]),
        is_lcm_merge(l, seq![fa, fb]),
    ensures
        product_of(g) * product_of(l) == a as nat * b as nat,
{
    let fs = seq![fa, fb];
    assert(fs.drop_last() =~= seq![fa]);
    assert(fs.last() == fb);
    assert(seq![fa].drop_last() =~= Seq::<Seq<Prime>>::empty());
    assert(seq![fa].last() == fa);
    assert(is_merge_profile(fa)) by {
        if a < 2 {
            assert(fa[0].exponent == 1);
        }
    }
    assert(is_merge_profile(fb)) by {
        if b < 2 {
            assert(fb[0].exponent == 1);
        }
    }
    assert forall|v: u32| exp_of(g, v) + exp_of(l, v) == exp_of(fa, v) + exp_of(fb, v) by {
        assert(gcf_exp(fs, v) == nat_min(gcf_exp(seq![fa], v), exp_of(fb, v)));
        assert(gcf_exp(seq![fa], v) == exp_of(fa, v));
        assert(max_exp(fs, v) == nat_max(max_exp(seq![fa], v), exp_of(fb, v)));
        assert(max_exp(seq![fa], v) == nat_max(max_exp(Seq::<Seq<Prime>>::empty(), v), exp_of(
            fa,
            v,
        )));
        assert(max_exp(Seq::<Seq<Prime>>::empty(), v) == 0);
    }
    lemma_product_pair_profile(g, l, fa, fb);
    lemma_factorization_product(fa, a);
    lemma_factorization_product(fb, b);
}

/// Idempotence of the merges: over any two factorizations of one number,
/// the union merge and the intersection merge both multiply back to that
/// number. So `lcm([n, n]) == n`, and `gcf([n, n]) == n` wherever it is
/// defined.
pub proof fn lemma_merge_idempotent(n: u32, f1: Seq<Prime>, f2: Seq<Prime>, m: Seq<Prime>)
    requires
        is_factorization(f1, n),
        is_factorization(f2, n),
        is_lcm_merge(m, seq![f1, f2]) || is_gcf_merge(m, seq![f1, f2]),
    ensures
        product_of(m) == n as nat,
{
    let fs = seq![f1, f2];
    lemma_factorization_unique(f1, f2, n);
    assert(fs.drop_last() =~= seq![f1]);
    assert(fs.last() == f2);
    assert(seq![f1].drop_last() =~= Seq::<Seq<Prime>>::empty());
    assert(seq![f1].last() == f1);
    assert(is_merge_profile(f1)) by {
        if n < 2 {
            assert(f1[0].exponent == 1);
        }
    }
    assert forall|v: u32| exp_of(m, v) == exp_of(f1, v) by {
        assert(max_exp(fs, v) == nat_max(max_exp(seq![f1], v), exp_of(f2, v)));
        assert(max_exp(seq![f1], v) == nat_max(max_exp(Seq::<Seq<Prime>>::empty(), v), exp_of(
            f1,
            v,
        )));
        assert(max_exp(Seq::<Seq<Prime>>::empty(), v) == 0);
        assert(gcf_exp(fs, v) == nat_min(gcf_exp(seq![f1], v), exp_of(f2, v)));
        assert(gcf_exp(seq![f1], v) == exp_of(f1, v));
        assert(exp_of(f1, v) == exp_of(f2, v));
    }
    assert(is_merge_profile(Seq::<Prime>::empty()));
    assert forall|v: u32|
        exp_of(m, v) + exp_of(Seq::<Prime>::empty(), v) == exp_of(f1, v) + exp_of(
            Seq::<Prime>::empty(),
            v,
        ) by {
        assert(exp_of(Seq::<Prime>::empty(), v) == 0);
    }
    lemma_product_pair_profile(m, Seq::<Prime>::empty(), f1, Seq::<Prime>::empty());
    assert(product_of(Seq::<Prime>::empty()) == 1);
    lemma_factorization_product(f1, n);
}

} // verus!
