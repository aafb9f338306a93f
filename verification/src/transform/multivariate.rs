use vstd::arithmetic::div_mod::*;
use vstd::arithmetic::mul::*;
use vstd::prelude::*;

use crate::algebra::tensor::{
    checked_product, lemma_product_split, lemma_suffix_bounded, prefix_product, products_fit,
    suffix_product,
};
use crate::error::Error;

verus! {

/// How one feature of the tensor basis is computed from the inputs and earlier features.
#[derive(Clone, Copy, Debug, PartialEq, Eq, Structural)]
pub enum FeatureRecipe {
    /// Copies one coordinate of one input block.
    Input { variable: usize, coordinate: usize },
    /// Multiplies two earlier features.
    Product { lhs: usize, rhs: usize },
}

/// Stride of variable `i` in the row-major tensor basis: the product of the sizes after it.
pub open spec fn stride(sizes: Seq<usize>, i: int) -> int {
    suffix_product(sizes, i + 1)
}

/// Digit of variable `i` in the mixed-radix expansion of the basis index `flat`.
pub open spec fn digit(sizes: Seq<usize>, flat: int, i: int) -> int {
    (flat / stride(sizes, i)) % (sizes[i] as int)
}

/// What variable `i` contributes to `flat`: its digit times its stride.
pub open spec fn term(sizes: Seq<usize>, flat: int, i: int) -> int {
    digit(sizes, flat, i) * stride(sizes, i)
}

/// The variables below `v` whose digit in `flat` is not zero, in increasing order.
pub open spec fn support(sizes: Seq<usize>, flat: int, v: int) -> Seq<int>
    decreases v,
{
    if v <= 0 {
        Seq::empty()
    } else if digit(sizes, flat, v - 1) != 0 {
        support(sizes, flat, v - 1).push(v - 1)
    } else {
        support(sizes, flat, v - 1)
    }
}

/// Sum of the contributions of the variables in `vars`.
pub open spec fn term_sum(sizes: Seq<usize>, flat: int, vars: Seq<int>) -> int
    decreases vars.len(),
{
    if vars.len() == 0 {
        0
    } else {
        term_sum(sizes, flat, vars.drop_last()) + term(sizes, flat, vars.last())
    }
}

/// The recipe of basis feature `flat` (stored at index `flat - 1`): a single nonzero digit
/// copies that input coordinate; otherwise the variables with a nonzero digit are cut in two
/// halves, and the feature is the product of the features of the two halves.
pub open spec fn recipe_of(sizes: Seq<usize>, flat: int) -> FeatureRecipe {
    let z = support(sizes, flat, sizes.len() as int);
    if z.len() == 1 {
        FeatureRecipe::Input {
            variable: z[0] as usize,
            coordinate: (digit(sizes, flat, z[0]) - 1) as usize,
        }
    } else {
        let m = z.len() / 2;
        FeatureRecipe::Product {
            lhs: (term_sum(sizes, flat, z.subrange(0, m as int)) - 1) as usize,
            rhs: (term_sum(sizes, flat, z.subrange(m as int, z.len() as int)) - 1) as usize,
        }
    }
}

/// Every size is at least one.
pub open spec fn sizes_positive(sizes: Seq<usize>) -> bool {
    forall|i: int| 0 <= i < sizes.len() ==> #[trigger] sizes[i] >= 1
}

proof fn lemma_support_facts(sizes: Seq<usize>, flat: int, v: int)
    requires
        0 <= v <= sizes.len(),
        sizes_positive(sizes),
        flat >= 0,
    ensures
        forall|t: int|
            0 <= t < support(sizes, flat, v).len() ==> 0 <= #[trigger] support(sizes, flat, v)[t] < v
                && digit(sizes, flat, support(sizes, flat, v)[t]) != 0,
        forall|t: int, u: int|
            0 <= t < u < support(sizes, flat, v).len() ==> support(sizes, flat, v)[t] < support(
                sizes,
                flat,
                v,
            )[u],
    decreases v,
{
    if v > 0 {
        lemma_support_facts(sizes, flat, v - 1);
        let prev = support(sizes, flat, v - 1);
        let cur = support(sizes, flat, v);
        if digit(sizes, flat, v - 1) != 0 {
            assert forall|t: int| 0 <= t < prev.len() implies #[trigger] cur[t] == prev[t] by {}
            assert(cur[prev.len() as int] == v - 1);
        }
    }
}

/// The contributions of the variables below `v` add up to `flat` less its remainder modulo
/// the product of the remaining sizes: the mixed-radix expansion of `flat`.
pub proof fn lemma_mixed_radix(sizes: Seq<usize>, flat: int, v: int)
    requires
        0 <= v <= sizes.len(),
        sizes_positive(sizes),
        0 <= flat < suffix_product(sizes, 0),
    ensures
        term_sum(sizes, flat, support(sizes, flat, v)) == flat - flat % suffix_product(sizes, v),
    decreases v,
{
    lemma_suffix_bounded(sizes, v);
    if v == 0 {
        lemma_small_mod(flat as nat, suffix_product(sizes, 0) as nat);
    } else {
        let i = v - 1;
        lemma_mixed_radix(sizes, flat, i);
        lemma_suffix_bounded(sizes, v);
        let y = suffix_product(sizes, v);
        let z = sizes[i] as int;
        assert(suffix_product(sizes, i) == z * y);
        lemma_mod_breakdown(flat, y, z);
        lemma_mul_is_commutative(y, z);
        let d = digit(sizes, flat, i);
        lemma_mul_is_commutative(y, d);
        let prev = support(sizes, flat, i);
        let cur = support(sizes, flat, v);
        if d != 0 {
            assert(cur.drop_last() =~= prev);
            assert(cur.last() == i);
            assert(term_sum(sizes, flat, cur) == term_sum(sizes, flat, prev) + term(sizes, flat, i));
        } else {
            lemma_mul_basics(y);
            assert(cur == prev);
        }
    }
}

/// Every contribution is non-negative and below the product of the sizes from its variable on.
proof fn lemma_term_bounds(sizes: Seq<usize>, flat: int, i: int)
    requires
        0 <= i < sizes.len(),
        sizes_positive(sizes),
        flat >= 0,
    ensures
        0 <= term(sizes, flat, i) < suffix_product(sizes, i),
        digit(sizes, flat, i) != 0 ==> term(sizes, flat, i) >= 1,
        0 <= digit(sizes, flat, i) < sizes[i],
{
    lemma_suffix_bounded(sizes, i + 1);
    let y = stride(sizes, i);
    lemma_div_pos_is_pos(flat, y);
    lemma_mod_bound(flat / y, sizes[i] as int);
    let d = digit(sizes, flat, i);
    lemma_mul_nonnegative(d, y);
    lemma_mul_strict_inequality(d, sizes[i] as int, y);
    if d != 0 {
        lemma_mul_inequality(1, d, y);
        lemma_mul_basics(y);
    }
}

/// A sum over a list splits at any position.
proof fn lemma_term_sum_split(sizes: Seq<usize>, flat: int, l: Seq<int>, m: int)
    requires
        0 <= m <= l.len(),
    ensures
        term_sum(sizes, flat, l) == term_sum(sizes, flat, l.subrange(0, m)) + term_sum(
            sizes,
            flat,
            l.subrange(m, l.len() as int),
        ),
    decreases l.len(),
{
    if m == l.len() {
        assert(l.subrange(0, m) =~= l);
        assert(l.subrange(m, l.len() as int) =~= Seq::<int>::empty());
    } else {
        let d = l.drop_last();
        lemma_term_sum_split(sizes, flat, d, m);
        assert(d.subrange(0, m) =~= l.subrange(0, m));
        assert(l.subrange(m, l.len() as int).drop_last() =~= d.subrange(m, d.len() as int));
    }
}

/// A list of variables with nonzero digits sums to at least its length.
proof fn lemma_term_sum_lower(sizes: Seq<usize>, flat: int, l: Seq<int>)
    requires
        sizes_positive(sizes),
        flat >= 0,
        forall|t: int|
            0 <= t < l.len() ==> 0 <= #[trigger] l[t] < sizes.len() && digit(sizes, flat, l[t]) != 0,
    ensures
        term_sum(sizes, flat, l) >= l.len(),
    decreases l.len(),
{
    if l.len() > 0 {
        lemma_term_sum_lower(sizes, flat, l.drop_last());
        lemma_term_bounds(sizes, flat, l.last());
    }
}

/// A list of variables sums to a non-negative value.
proof fn lemma_term_sum_nonneg(sizes: Seq<usize>, flat: int, l: Seq<int>)
    requires
        sizes_positive(sizes),
        flat >= 0,
        forall|t: int| 0 <= t < l.len() ==> 0 <= #[trigger] l[t] < sizes.len(),
    ensures
        term_sum(sizes, flat, l) >= 0,
    decreases l.len(),
{
    if l.len() > 0 {
        lemma_term_sum_nonneg(sizes, flat, l.drop_last());
        lemma_term_bounds(sizes, flat, l.last());
    }
}

/// A product recipe combines two earlier features whose indices, counted from one, add up
/// to the index of the feature it makes.
pub proof fn lemma_product_recipe(sizes: Seq<usize>, flat: int)
    requires
        sizes_positive(sizes),
        1 <= flat < suffix_product(sizes, 0),
        suffix_product(sizes, 0) <= usize::MAX,
        recipe_of(sizes, flat) is Product,
    ensures
        recipe_of(sizes, flat)->lhs < flat - 1,
        recipe_of(sizes, flat)->rhs < flat - 1,
        (recipe_of(sizes, flat)->lhs + 1) + (recipe_of(sizes, flat)->rhs + 1) == flat,
{
    let n = sizes.len() as int;
    let z = support(sizes, flat, n);
    let m = z.len() / 2;
    lemma_mixed_radix(sizes, flat, n);
    lemma_support_facts(sizes, flat, n);
    lemma_term_sum_split(sizes, flat, z, m as int);
    let left = z.subrange(0, m as int);
    let right = z.subrange(m as int, z.len() as int);
    lemma_mod_bound(flat, 1);
    if z.len() == 0 {
        assert(false);
    }
    lemma_term_sum_lower(sizes, flat, left);
    lemma_term_sum_lower(sizes, flat, right);
}

/// The product of the sizes from `a` on is a positive multiple of the product from `b` on.
proof fn lemma_suffix_factor(sizes: Seq<usize>, a: int, b: int) -> (q: int)
    requires
        sizes_positive(sizes),
        0 <= a <= b <= sizes.len(),
    ensures
        q >= 1,
        suffix_product(sizes, a) == q * suffix_product(sizes, b),
    decreases b - a,
{
    if a == b {
        lemma_mul_basics(suffix_product(sizes, b));
        1
    } else {
        let q1 = lemma_suffix_factor(sizes, a + 1, b);
        let s = sizes[a] as int;
        lemma_mul_is_associative(s, q1, suffix_product(sizes, b));
        lemma_mul_strictly_positive(s, q1);
        s * q1
    }
}

/// A sum of contributions of variables all below `b` is a multiple of the product of the
/// sizes from `b` on.
proof fn lemma_prefix_multiple(sizes: Seq<usize>, flat: int, l: Seq<int>, b: int) -> (q: int)
    requires
        sizes_positive(sizes),
        flat >= 0,
        0 <= b <= sizes.len(),
        forall|t: int| 0 <= t < l.len() ==> 0 <= #[trigger] l[t] < b,
    ensures
        q >= 0,
        term_sum(sizes, flat, l) == q * suffix_product(sizes, b),
    decreases l.len(),
{
    let sb = suffix_product(sizes, b);
    if l.len() == 0 {
        lemma_mul_basics(sb);
        0
    } else {
        let d = l.drop_last();
        assert forall|t: int| 0 <= t < d.len() implies 0 <= #[trigger] d[t] < b by {
            assert(d[t] == l[t]);
        }
        let q1 = lemma_prefix_multiple(sizes, flat, d, b);
        let j = l.last();
        assert(0 <= j < b) by {
            assert(l[l.len() - 1] == j);
        }
        lemma_term_bounds(sizes, flat, j);
        let f = lemma_suffix_factor(sizes, j + 1, b);
        let dj = digit(sizes, flat, j);
        lemma_mul_is_associative(dj, f, sb);
        lemma_mul_is_distributive_add_other_way(sb, q1, dj * f);
        lemma_mul_is_commutative(q1, sb);
        lemma_mul_is_commutative(dj * f, sb);
        lemma_mul_nonnegative(dj, f);
        q1 + dj * f
    }
}

/// The contributions of an increasing list `l` of variables of `flat` make a number whose
/// digit is that of `flat` on the variables of `l`, and zero on every other variable.
proof fn lemma_masked_digit(sizes: Seq<usize>, flat: int, l: Seq<int>, i: int)
    requires
        sizes_positive(sizes),
        flat >= 0,
        0 <= i < sizes.len(),
        forall|t: int| 0 <= t < l.len() ==> 0 <= #[trigger] l[t] < sizes.len(),
        forall|t: int, u: int| 0 <= t < u < l.len() ==> l[t] < l[u],
    ensures
        digit(sizes, term_sum(sizes, flat, l), i) == (if l.contains(i) {
            digit(sizes, flat, i)
        } else {
            0
        }),
    decreases l.len(),
{
    let n = sizes.len() as int;
    let g = term_sum(sizes, flat, l);
    let si = stride(sizes, i);
    let zi = sizes[i] as int;
    lemma_suffix_bounded(sizes, i + 1);
    assert(suffix_product(sizes, i) == zi * si);
    if l.len() == 0 || l.last() < i {
        assert forall|t: int| 0 <= t < l.len() implies 0 <= #[trigger] l[t] < i by {
            if t < l.len() - 1 {
                assert(l[t] < l[l.len() - 1]);
            }
        }
        let q = lemma_prefix_multiple(sizes, flat, l, i);
        lemma_mul_is_associative(q, zi, si);
        lemma_mul_is_commutative(q * zi, si);
        lemma_div_multiples_vanish(q * zi, si);
        lemma_mod_multiples_basic(q, zi);
        assert(!l.contains(i));
    } else {
        let d = l.drop_last();
        let j = l.last();
        assert(j == l[l.len() - 1]);
        assert forall|t: int| 0 <= t < d.len() implies 0 <= #[trigger] d[t] < j by {
            assert(d[t] == l[t]);
        }
        assert forall|t: int| 0 <= t < d.len() implies 0 <= #[trigger] d[t] < n by {
            assert(d[t] == l[t]);
        }
        assert forall|t: int, u: int| 0 <= t < u < d.len() implies d[t] < d[u] by {
            assert(d[t] == l[t]);
            assert(d[u] == l[u]);
        }
        let q = lemma_prefix_multiple(sizes, flat, d, j);
        let gd = term_sum(sizes, flat, d);
        lemma_term_bounds(sizes, flat, j);
        let dj = digit(sizes, flat, j);
        let sj = stride(sizes, j);
        lemma_suffix_bounded(sizes, j + 1);
        let x = suffix_product(sizes, j);
        assert(x == (sizes[j] as int) * sj);
        assert(g == gd + dj * sj);
        if j == i {
            assert(l.contains(i));
            lemma_mul_is_associative(q, zi, si);
            lemma_mul_is_commutative(q * zi, si);
            lemma_mul_is_commutative(dj, si);
            lemma_mul_is_distributive_add_other_way(si, q * zi, dj);
            lemma_mul_is_commutative(si, q * zi + dj);
            lemma_mul_nonnegative(q, zi);
            lemma_fundamental_div_mod_converse(g, si, q * zi + dj, 0);
            lemma_mul_is_commutative(q, zi);
            lemma_mod_multiples_vanish(q, dj, zi);
            lemma_small_mod(dj as nat, zi as nat);
        } else {
            assert(i < j);
            lemma_masked_digit(sizes, flat, d, i);
            assert(l.contains(i) == d.contains(i)) by {
                if l.contains(i) {
                    let t = choose|t: int| 0 <= t < l.len() && l[t] == i;
                    assert(t != l.len() - 1);
                    assert(d[t] == i);
                }
                if d.contains(i) {
                    let t = choose|t: int| 0 <= t < d.len() && d[t] == i;
                    assert(l[t] == i);
                }
            }
            lemma_mul_nonnegative(dj, sj);
            lemma_mul_strict_inequality(dj, sizes[j] as int, sj);
            lemma_mul_is_commutative(dj, sj);
            lemma_mul_is_commutative(sizes[j] as int, sj);
            let pf = lemma_suffix_factor(sizes, i + 1, j);
            lemma_mul_is_commutative(pf, x);
            lemma_fundamental_div_mod_converse(g, x, q, dj * sj);
            lemma_fundamental_div_mod_converse(gd, x, q, 0);
            lemma_mul_is_commutative(q, x);
            lemma_div_denominator(g, x, pf);
            lemma_div_denominator(gd, x, pf);
        }
    }
}

/// Every variable with a nonzero digit in `flat` lies in its support.
proof fn lemma_support_complete(sizes: Seq<usize>, flat: int, v: int, i: int)
    requires
        0 <= i < v,
        digit(sizes, flat, i) != 0,
    ensures
        support(sizes, flat, v).contains(i),
    decreases v,
{
    let cur = support(sizes, flat, v);
    if i == v - 1 {
        assert(cur[cur.len() - 1] == i);
    } else {
        lemma_support_complete(sizes, flat, v - 1, i);
        let prev = support(sizes, flat, v - 1);
        let t = choose|t: int| 0 <= t < prev.len() && prev[t] == i;
        if digit(sizes, flat, v - 1) != 0 {
            assert(cur[t] == i);
        } else {
            assert(cur == prev);
        }
    }
}

/// A product recipe multiplies two nonzero features whose mixed-radix digits split those of
/// `flat` without carries: on every variable, the digits of features `lhs + 1` and `rhs + 1`
/// add up to the digit of `flat`, and at most one of them is nonzero, so that the product of
/// the two features is feature `flat`.
pub proof fn lemma_product_recipe_digits(sizes: Seq<usize>, flat: int, i: int)
    requires
        sizes_positive(sizes),
        1 <= flat < suffix_product(sizes, 0),
        suffix_product(sizes, 0) <= usize::MAX,
        recipe_of(sizes, flat) is Product,
        0 <= i < sizes.len(),
    ensures
        ({
            let l = recipe_of(sizes, flat)->lhs + 1;
            let r = recipe_of(sizes, flat)->rhs + 1;
            &&& 1 <= l < flat
            &&& 1 <= r < flat
            &&& digit(sizes, l, i) + digit(sizes, r, i) == digit(sizes, flat, i)
            &&& digit(sizes, l, i) == 0 || digit(sizes, r, i) == 0
        }),
{
    let n = sizes.len() as int;
    let z = support(sizes, flat, n);
    let m = z.len() / 2;
    lemma_product_recipe(sizes, flat);
    lemma_mixed_radix(sizes, flat, n);
    lemma_support_facts(sizes, flat, n);
    lemma_term_sum_split(sizes, flat, z, m as int);
    lemma_mod_bound(flat, 1);
    let left = z.subrange(0, m as int);
    let right = z.subrange(m as int, z.len() as int);
    if z.len() == 0 {
        assert(false);
    }
    lemma_term_sum_lower(sizes, flat, left);
    lemma_term_sum_lower(sizes, flat, right);
    assert(recipe_of(sizes, flat)->lhs + 1 == term_sum(sizes, flat, left));
    assert(recipe_of(sizes, flat)->rhs + 1 == term_sum(sizes, flat, right));
    assert forall|t: int, u: int| 0 <= t < u < left.len() implies left[t] < left[u] by {}
    assert forall|t: int, u: int| 0 <= t < u < right.len() implies right[t] < right[u] by {
        assert(right[t] == z[t + m]);
        assert(right[u] == z[u + m]);
    }
    assert forall|t: int| 0 <= t < right.len() implies 0 <= #[trigger] right[t] < n by {
        assert(right[t] == z[t + m]);
    }
    lemma_masked_digit(sizes, flat, left, i);
    lemma_masked_digit(sizes, flat, right, i);
    if left.contains(i) {
        let t = choose|t: int| 0 <= t < left.len() && left[t] == i;
        if right.contains(i) {
            let u = choose|u: int| 0 <= u < right.len() && right[u] == i;
            assert(z[t] == z[u + m]);
            assert(z[t] < z[u + m]);
        }
    } else if right.contains(i) {
    } else {
        if digit(sizes, flat, i) != 0 {
            lemma_support_complete(sizes, flat, n, i);
            let t = choose|t: int| 0 <= t < z.len() && z[t] == i;
            if t < m {
                assert(left[t] == i);
            } else {
                assert(right[t - m] == i);
            }
        }
    }
}

/// An input recipe copies coordinate `digit - 1` of the one variable on which `flat` has a
/// nonzero digit.
pub proof fn lemma_input_recipe_digits(sizes: Seq<usize>, flat: int, i: int)
    requires
        sizes_positive(sizes),
        1 <= flat < suffix_product(sizes, 0),
        sizes.len() <= usize::MAX,
        recipe_of(sizes, flat) is Input,
        0 <= i < sizes.len(),
    ensures
        ({
            let v = recipe_of(sizes, flat)->variable as int;
            &&& 0 <= v < sizes.len()
            &&& recipe_of(sizes, flat)->coordinate + 1 == digit(sizes, flat, v)
            &&& i != v ==> digit(sizes, flat, i) == 0
        }),
{
    let n = sizes.len() as int;
    let z = support(sizes, flat, n);
    lemma_support_facts(sizes, flat, n);
    assert(z.len() == 1);
    lemma_term_bounds(sizes, flat, z[0]);
    assert(0 <= z[0] < n && digit(sizes, flat, z[0]) != 0);
    assert(digit(sizes, flat, z[0]) - 1 <= usize::MAX);
    if i != z[0] && digit(sizes, flat, i) != 0 {
        lemma_support_complete(sizes, flat, n, i);
        let t = choose|t: int| 0 <= t < z.len() && z[t] == i;
        assert(t == 0);
    }
}

/// The recipes of the tensor basis features `1..total` of inputs with the given alphabet
/// sizes, feature `flat` at index `flat - 1`.
pub fn feature_recipes(input_sizes: &[usize]) -> (r: Result<Vec<FeatureRecipe>, Error>)
    requires
        products_fit(input_sizes@) ==> input_sizes@.len() >= 1 && sizes_positive(input_sizes@),
    ensures
        match r {
            Ok(recipes) => {
                &&& products_fit(input_sizes@)
                &&& recipes@.len() == suffix_product(input_sizes@, 0) - 1
                &&& forall|k: int|
                    0 <= k < recipes@.len() ==> #[trigger] recipes@[k] == recipe_of(input_sizes@, k + 1)
            },
            Err(e) => !products_fit(input_sizes@) && e == Error::TensorTooLarge,
        },
{
    let ghost sizes = input_sizes@;
    let total = match checked_product(input_sizes) {
        Ok(total) => total,
        Err(e) => return Err(e),
    };
    let n = input_sizes.len();
    proof {
        lemma_product_split(sizes, n as int);
        lemma_suffix_bounded(sizes, 0);
    }
    let mut strides: Vec<usize> = vec![1usize; n];
    let mut index: usize = n - 1;
    while index > 0
        invariant
            sizes == input_sizes@,
            n == sizes.len(),
            n >= 1,
            sizes_positive(sizes),
            total == suffix_product(sizes, 0),
            strides@.len() == n,
            index < n,
            forall|i: int| index <= i < n ==> #[trigger] strides@[i] == stride(sizes, i),
        decreases index,
    {
        proof {
            lemma_suffix_bounded(sizes, index as int);
            lemma_suffix_bounded(sizes, index + 1);
            lemma_mul_is_commutative(sizes[index as int] as int, suffix_product(sizes, index + 1));
        }
        let next = strides[index] * input_sizes[index];
        strides.set(index - 1, next);
        index = index - 1;
    }
    let mut recipes: Vec<FeatureRecipe> = Vec::new();
    let mut flat: usize = 1;
    while flat < total
        invariant
            sizes == input_sizes@,
            n == sizes.len(),
            n >= 1,
            sizes_positive(sizes),
            total == suffix_product(sizes, 0),
            products_fit(sizes),
            strides@.len() == n,
            forall|i: int| 0 <= i < n ==> #[trigger] strides@[i] == stride(sizes, i),
            1 <= flat <= total,
            recipes@.len() == flat - 1,
            forall|k: int| 0 <= k < recipes@.len() ==> #[trigger] recipes@[k] == recipe_of(sizes, k + 1),
        decreases total - flat,
    {
        let mut terms: Vec<(usize, usize, usize)> = Vec::new();
        let mut variable: usize = 0;
        while variable < n
            invariant
                sizes == input_sizes@,
                n == sizes.len(),
                sizes_positive(sizes),
                total == suffix_product(sizes, 0),
                strides@.len() == n,
                forall|i: int| 0 <= i < n ==> #[trigger] strides@[i] == stride(sizes, i),
                1 <= flat < total,
                variable <= n,
                terms@.len() == support(sizes, flat as int, variable as int).len(),
                forall|t: int|
                    0 <= t < terms@.len() ==> {
                        let x = support(sizes, flat as int, variable as int)[t];
                        &&& #[trigger] terms@[t].0 == x
                        &&& terms@[t].1 == digit(sizes, flat as int, x) - 1
                        &&& terms@[t].2 == term(sizes, flat as int, x)
                    },
            decreases n - variable,
        {
            let stride_v = strides[variable];
            let size = input_sizes[variable];
            proof {
                lemma_term_bounds(sizes, flat as int, variable as int);
                lemma_suffix_bounded(sizes, variable as int);
                lemma_suffix_bounded(sizes, variable + 1);
            }
            let d = (flat / stride_v) % size;
            if d != 0 {
                terms.push((variable, d - 1, d * stride_v));
            }
            proof {
                let v1 = (variable + 1) as int;
                assert forall|t: int| 0 <= t < terms@.len() implies {
                    let x = support(sizes, flat as int, v1)[t];
                    &&& #[trigger] terms@[t].0 == x
                    &&& terms@[t].1 == digit(sizes, flat as int, x) - 1
                    &&& terms@[t].2 == term(sizes, flat as int, x)
                } by {
                    if d != 0 && t < terms@.len() - 1 {
                        assert(support(sizes, flat as int, v1)[t] == support(
                            sizes,
                            flat as int,
                            variable as int,
                        )[t]);
                    }
                }
            }
            variable = variable + 1;
        }
        let ghost z = support(sizes, flat as int, n as int);
        proof {
            lemma_support_facts(sizes, flat as int, n as int);
            lemma_mixed_radix(sizes, flat as int, n as int);
            lemma_mod_bound(flat as int, 1);
            assert forall|u: int| 0 <= u < terms@.len() implies #[trigger] terms@[u].2 == term(
                sizes,
                flat as int,
                z[u],
            ) by {
                assert(terms@[u].0 == z[u]);
            }
        }
        if terms.len() == 1 {
            recipes.push(FeatureRecipe::Input { variable: terms[0].0, coordinate: terms[0].1 });
        } else {
            let middle = terms.len() / 2;
            proof {
                if z.len() == 0 {
                    assert(false);
                }
                lemma_term_sum_split(sizes, flat as int, z, middle as int);
                lemma_term_sum_lower(sizes, flat as int, z.subrange(0, middle as int));
                lemma_term_sum_lower(sizes, flat as int, z.subrange(middle as int, z.len() as int));
                lemma_term_sum_nonneg(sizes, flat as int, z.subrange(0, middle as int));
                lemma_term_sum_nonneg(sizes, flat as int, z.subrange(middle as int, z.len() as int));
            }
            let mut left: usize = 0;
            let mut t: usize = 0;
            while t < middle
                invariant
                    sizes == input_sizes@,
                    sizes_positive(sizes),
                    flat < total,
                    z == support(sizes, flat as int, n as int),
                    terms@.len() == z.len(),
                    forall|u: int| 0 <= u < terms@.len() ==> #[trigger] terms@[u].2 == term(sizes, flat as int, z[u]),
                    forall|u: int| 0 <= u < z.len() ==> 0 <= #[trigger] z[u] < n && digit(sizes, flat as int, z[u]) != 0,
                    n == sizes.len(),
                    middle <= z.len(),
                    term_sum(sizes, flat as int, z.subrange(0, middle as int)) <= flat,
                    t <= middle,
                    left == term_sum(sizes, flat as int, z.subrange(0, t as int)),
                decreases middle - t,
            {
                proof {
                    assert(z.subrange(0, t + 1).drop_last() =~= z.subrange(0, t as int));
                    lemma_term_sum_split(sizes, flat as int, z.subrange(0, middle as int), t + 1);
                    assert(z.subrange(0, middle as int).subrange(0, t + 1) =~= z.subrange(0, t + 1));
                    let rest = z.subrange(0, middle as int).subrange(t + 1, middle as int);
                    assert forall|u: int| 0 <= u < rest.len() implies 0 <= #[trigger] rest[u] < sizes.len() by {
                        assert(rest[u] == z[t + 1 + u]);
                    }
                    lemma_term_sum_nonneg(sizes, flat as int, rest);
                }
                left = left + terms[t].2;
                t = t + 1;
            }
            let mut right: usize = 0;
            let mut t: usize = middle;
            while t < terms.len()
                invariant
                    sizes == input_sizes@,
                    sizes_positive(sizes),
                    flat < total,
                    z == support(sizes, flat as int, n as int),
                    terms@.len() == z.len(),
                    forall|u: int| 0 <= u < terms@.len() ==> #[trigger] terms@[u].2 == term(sizes, flat as int, z[u]),
                    forall|u: int| 0 <= u < z.len() ==> 0 <= #[trigger] z[u] < n && digit(sizes, flat as int, z[u]) != 0,
                    n == sizes.len(),
                    middle <= z.len(),
                    term_sum(sizes, flat as int, z.subrange(middle as int, z.len() as int)) <= flat,
                    middle <= t <= terms@.len(),
                    right == term_sum(sizes, flat as int, z.subrange(middle as int, t as int)),
                decreases terms@.len() - t,
            {
                proof {
                    assert(z.subrange(middle as int, t + 1).drop_last() =~= z.subrange(middle as int, t as int));
                    let whole = z.subrange(middle as int, z.len() as int);
                    let k = t + 1 - middle;
                    lemma_term_sum_split(sizes, flat as int, whole, k);
                    assert(whole.subrange(0, k) =~= z.subrange(middle as int, t + 1));
                    let rest = whole.subrange(k, whole.len() as int);
                    assert forall|u: int| 0 <= u < rest.len() implies 0 <= #[trigger] rest[u] < sizes.len() by {
                        assert(rest[u] == z[t + 1 + u]);
                    }
                    lemma_term_sum_nonneg(sizes, flat as int, rest);
                }
                right = right + terms[t].2;
                t = t + 1;
            }
            proof {
                assert(z.subrange(middle as int, terms@.len() as int) =~= z.subrange(middle as int, z.len() as int));
            }
            let lhs = left - 1;
            let rhs = right - 1;
            if !(lhs < flat - 1 && rhs < flat - 1) {
                return Err(Error::InvalidSchedule);
            }
            recipes.push(FeatureRecipe::Product { lhs, rhs });
        }
        flat = flat + 1;
    }
    Ok(recipes)
}


/// The digit of `variable` in every basis feature `1..total` of the tensor basis: the input
/// coordinate (counted from one) that the alignment map copies into that feature, or zero
/// where the feature takes the constant one.
pub fn alignment_digits(input_sizes: &[usize], variable: usize) -> (r: Vec<usize>)
    requires
        products_fit(input_sizes@),
        sizes_positive(input_sizes@),
        variable < input_sizes@.len(),
    ensures
        r@.len() == suffix_product(input_sizes@, 0) - 1,
        forall|k: int| 0 <= k < r@.len() ==> #[trigger] r@[k] == digit(input_sizes@, k + 1, variable as int),
{
    let ghost sizes = input_sizes@;
    let n = input_sizes.len();
    proof {
        lemma_product_split(sizes, n as int);
        lemma_suffix_bounded(sizes, 0);
        lemma_suffix_bounded(sizes, variable + 1);
    }
    let total = match checked_product(input_sizes) {
        Ok(total) => total,
        Err(_) => {
            proof {
                assert(false);
            }
            0
        },
    };
    let mut step: usize = 1;
    let mut index: usize = n;
    while index > variable + 1
        invariant
            sizes == input_sizes@,
            n == sizes.len(),
            sizes_positive(sizes),
            total == suffix_product(sizes, 0),
            variable + 1 <= index <= n,
            step == suffix_product(sizes, index as int),
        decreases index,
    {
        proof {
            lemma_suffix_bounded(sizes, index - 1);
            lemma_mul_is_commutative(sizes[index - 1] as int, suffix_product(sizes, index as int));
        }
        step = step * input_sizes[index - 1];
        index = index - 1;
    }
    let size = input_sizes[variable];
    let mut digits: Vec<usize> = Vec::new();
    let mut flat: usize = 1;
    while flat < total
        invariant
            sizes == input_sizes@,
            sizes_positive(sizes),
            variable < sizes.len(),
            total == suffix_product(sizes, 0),
            step == stride(sizes, variable as int),
            step >= 1,
            size == sizes[variable as int],
            1 <= flat <= total,
            digits@.len() == flat - 1,
            forall|k: int| 0 <= k < digits@.len() ==> #[trigger] digits@[k] == digit(sizes, k + 1, variable as int),
        decreases total - flat,
    {
        digits.push((flat / step) % size);
        flat = flat + 1;
    }
    digits
}


/// The widths of the layers of a pairwise product tree over `count` factors: `count`, then
/// each layer half the one before rounded up, down to a single product; none for no factor.
pub fn product_layer_widths(count: usize) -> (r: Vec<usize>)
    ensures
        count == 0 ==> r@.len() == 0,
        count > 0 ==> {
            &&& r@.len() >= 1
            &&& r@[0] == count
            &&& r@[r@.len() - 1] == 1
            &&& forall|i: int| 0 <= i < r@.len() - 1 ==> #[trigger] r@[i + 1] == (r@[i] + 1) / 2 && r@[i] > 1
        },
{
    let mut widths: Vec<usize> = Vec::new();
    let mut width = count;
    while width > 1
        invariant
            count > 0 ==> width >= 1,
            count == 0 ==> width == 0,
            widths@.len() == 0 ==> width == count,
            widths@.len() > 0 ==> widths@[0] == count && width == (widths@[widths@.len() - 1] + 1) / 2
                && widths@[widths@.len() - 1] > 1,
            forall|i: int| 0 <= i < widths@.len() - 1 ==> #[trigger] widths@[i + 1] == (widths@[i] + 1) / 2 && widths@[i] > 1,
        decreases width,
    {
        let ghost before = widths@;
        widths.push(width);
        proof {
            assert forall|i: int| 0 <= i < widths@.len() - 1 implies #[trigger] widths@[i + 1] == (widths@[i] + 1) / 2 && widths@[i] > 1 by {
                if i < widths@.len() - 2 {
                    assert(widths@[i] == before[i]);
                    assert(widths@[i + 1] == before[i + 1]);
                }
            }
        }
        width = width / 2 + width % 2;
    }
    if count > 0 {
        let ghost before = widths@;
        widths.push(1);
        proof {
            assert forall|i: int| 0 <= i < widths@.len() - 1 implies #[trigger] widths@[i + 1] == (widths@[i] + 1) / 2 && widths@[i] > 1 by {
                if i < widths@.len() - 2 {
                    assert(widths@[i] == before[i]);
                    assert(widths@[i + 1] == before[i + 1]);
                }
            }
        }
    }
    widths
}

} // verus!
