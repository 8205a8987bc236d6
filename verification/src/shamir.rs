//! `(f+1, n)` Shamir secret sharing over the fixed prime field: polynomial
//! evaluation for splitting and Lagrange interpolation at zero for
//! reconstruction.
use vstd::prelude::*;
use vstd::arithmetic::div_mod::{lemma_add_mod_noop, lemma_small_mod};
use crate::field::{FIELD_PRIME, is_elem, add_mod, mul_mod, inv_mod, pow_mod_spec};

verus! {

/// Value at `x` of the polynomial whose coefficients are `coeffs`, constant
/// term first, reduced modulo the prime.
pub open spec fn poly_eval_spec(coeffs: Seq<u64>, x: u64) -> int
    decreases coeffs.len(),
{
    if coeffs.len() == 0 {
        0
    } else {
        (coeffs[0] + x * poly_eval_spec(coeffs.skip(1), x)) % (FIELD_PRIME as int)
    }
}

/// Horner evaluation of the polynomial at `x`.
pub fn poly_eval(coeffs: &Vec<u64>, x: u64) -> (r: u64)
    requires
        forall|j: int| 0 <= j < coeffs@.len() ==> is_elem(#[trigger] coeffs@[j]),
        is_elem(x),
    ensures
        r == poly_eval_spec(coeffs@, x),
        is_elem(r),
{
    let ghost p = FIELD_PRIME as int;
    let mut acc: u64 = 0;
    let mut i: usize = coeffs.len();
    proof {
        assert(coeffs@.skip(i as int) =~= Seq::<u64>::empty());
    }
    while i > 0
        invariant
            i <= coeffs@.len(),
            is_elem(acc),
            acc == poly_eval_spec(coeffs@.skip(i as int), x),
        decreases i,
    {
        i = i - 1;
        let c = coeffs[i];
        let ghost acc0 = acc as int;
        acc = add_mod(c, mul_mod(x, acc));
        proof {
            let tail = coeffs@.skip(i as int);
            assert(tail.len() >= 1);
            assert(tail[0] == coeffs@[i as int]);
            assert(tail.skip(1) =~= coeffs@.skip(i as int + 1));
            // fold the reduced product back under a single modulus
            lemma_small_mod(c as nat, FIELD_PRIME as nat);
            lemma_add_mod_noop(c as int, (x as int) * acc0, p);
            assert(acc == (c + x * acc0) % p);
        }
    }
    proof {
        assert(coeffs@.skip(0) =~= coeffs@);
    }
    acc
}

/// Split `secret` into `num_nodes` shares with the given blinding
/// coefficients; share `i` (one-based) is the polynomial's value at `i`.
pub fn split(secret: u64, coeffs: &Vec<u64>, num_nodes: usize) -> (shares: Vec<u64>)
    requires
        is_elem(secret),
        forall|j: int| 0 <= j < coeffs@.len() ==> is_elem(#[trigger] coeffs@[j]),
        num_nodes + 1 < FIELD_PRIME,
    ensures
        shares@.len() == num_nodes,
        forall|i: int| 0 <= i < num_nodes
            ==> #[trigger] shares@[i] == poly_eval_spec(seq![secret] + coeffs@, (i + 1) as u64),
        forall|i: int| 0 <= i < num_nodes ==> is_elem(#[trigger] shares@[i]),
{
    let mut full: Vec<u64> = Vec::new();
    full.push(secret);
    let mut j: usize = 0;
    while j < coeffs.len()
        invariant
            j <= coeffs@.len(),
            full@ == seq![secret] + coeffs@.take(j as int),
        decreases coeffs@.len() - j,
    {
        full.push(coeffs[j]);
        j = j + 1;
        proof {
            assert(full@ =~= seq![secret] + coeffs@.take(j as int));
        }
    }
    proof {
        assert(seq![secret] + coeffs@.take(coeffs@.len() as int) =~= seq![secret] + coeffs@);
    }
    let mut shares: Vec<u64> = Vec::new();
    let mut i: usize = 0;
    while i < num_nodes
        invariant
            i <= num_nodes,
            num_nodes + 1 < FIELD_PRIME,
            full@ == seq![secret] + coeffs@,
            shares@.len() == i,
            forall|q: int| 0 <= q < i
                ==> #[trigger] shares@[q] == poly_eval_spec(seq![secret] + coeffs@, (q + 1) as u64),
            forall|q: int| 0 <= q < i ==> is_elem(#[trigger] shares@[q]),
        decreases num_nodes - i,
    {
        let x: u64 = (i as u64) + 1;
        shares.push(poly_eval(&full, x));
        i = i + 1;
    }
    shares
}

/// Product modulo the prime of `xs[k']` over `k <= k' < len`, skipping `k' == i`.
pub open spec fn prod_num(xs: Seq<u64>, i: int, k: int) -> int
    decreases xs.len() - k,
{
    if k < 0 || k >= xs.len() {
        1
    } else if k == i {
        prod_num(xs, i, k + 1)
    } else {
        (xs[k] * prod_num(xs, i, k + 1)) % (FIELD_PRIME as int)
    }
}

/// Product modulo the prime of `xs[k'] - xs[i]` over `k <= k' < len`,
/// skipping `k' == i`.
pub open spec fn prod_den(xs: Seq<u64>, i: int, k: int) -> int
    decreases xs.len() - k,
{
    if k < 0 || k >= xs.len() {
        1
    } else if k == i {
        prod_den(xs, i, k + 1)
    } else {
        ((((xs[k] + FIELD_PRIME) - xs[i]) % (FIELD_PRIME as int)) * prod_den(xs, i, k + 1))
            % (FIELD_PRIME as int)
    }
}

/// The `i`-th Lagrange summand at zero: `y_i * prod(x_k) / prod(x_k - x_i)`.
pub open spec fn lagrange_term(xs: Seq<u64>, ys: Seq<u64>, i: int) -> int {
    (ys[i] * ((prod_num(xs, i, 0) * pow_mod_spec(prod_den(xs, i, 0) as u64, (FIELD_PRIME - 2) as u64))
        % (FIELD_PRIME as int))) % (FIELD_PRIME as int)
}

/// Sum modulo the prime of the Lagrange summands from `i` on.
pub open spec fn lagrange_sum(xs: Seq<u64>, ys: Seq<u64>, i: int) -> int
    decreases xs.len() - i,
{
    if i < 0 || i >= xs.len() {
        0
    } else {
        (lagrange_term(xs, ys, i) + lagrange_sum(xs, ys, i + 1)) % (FIELD_PRIME as int)
    }
}

/// Lagrange interpolation at zero of the given `(x, y)` points.
pub open spec fn reconstruct_spec(shares: Seq<(u64, u64)>) -> int {
    lagrange_sum(shares.map_values(|s: (u64, u64)| s.0), shares.map_values(|s: (u64, u64)| s.1), 0)
}

/// Recover the secret from at least `f+1` shares by Lagrange interpolation
/// at zero.
pub fn reconstruct(shares: &Vec<(u64, u64)>) -> (r: u64)
    requires
        forall|j: int| 0 <= j < shares@.len() ==> is_elem((#[trigger] shares@[j]).0),
        forall|j: int| 0 <= j < shares@.len() ==> is_elem((#[trigger] shares@[j]).1),
    ensures
        r == reconstruct_spec(shares@),
        is_elem(r),
{
    let ghost xs = shares@.map_values(|s: (u64, u64)| s.0);
    let ghost ys = shares@.map_values(|s: (u64, u64)| s.1);
    let n = shares.len();
    let mut sum: u64 = 0;
    let mut i: usize = n;
    while i > 0
        invariant
            i <= n,
            n == shares@.len(),
            xs == shares@.map_values(|s: (u64, u64)| s.0),
            ys == shares@.map_values(|s: (u64, u64)| s.1),
            is_elem(sum),
            sum == lagrange_sum(xs, ys, i as int),
        decreases i,
    {
        i = i - 1;
        // numerator product over all other shares
        let mut num: u64 = 1;
        let mut k: usize = n;
        while k > 0
            invariant
                k <= n,
                n == shares@.len(),
                xs == shares@.map_values(|s: (u64, u64)| s.0),
                i < n,
                is_elem(num),
                num == prod_num(xs, i as int, k as int),
            decreases k,
        {
            k = k - 1;
            if k != i {
                num = mul_mod(shares[k].0, num);
            }
        }
        // denominator product over all other shares
        let mut den: u64 = 1;
        let mut k2: usize = n;
        while k2 > 0
            invariant
                k2 <= n,
                n == shares@.len(),
                xs == shares@.map_values(|s: (u64, u64)| s.0),
                i < n,
                is_elem(den),
                den == prod_den(xs, i as int, k2 as int),
            decreases k2,
        {
            k2 = k2 - 1;
            if k2 != i {
                let diff = (shares[k2].0 + FIELD_PRIME - shares[i].0) % FIELD_PRIME;
                den = mul_mod(diff, den);
            }
        }
        let term = mul_mod(shares[i].1, mul_mod(num, inv_mod(den)));
        sum = add_mod(term, sum);
        proof {
            assert(xs[i as int] == shares@[i as int].0);
            assert(ys[i as int] == shares@[i as int].1);
            assert(term == lagrange_term(xs, ys, i as int));
        }
    }
    sum
}

/// Relies on `rand::random_range`: the sample lies below the field prime.
/// Nothing more is assumed of a random draw.
#[verifier::external_body]
pub(crate) fn sample_elem() -> (r: u64)
    ensures
        is_elem(r),
{
    rand::random_range(0u64..FIELD_PRIME)
}

} // verus!
