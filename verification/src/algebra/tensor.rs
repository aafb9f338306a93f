use vstd::arithmetic::mul::*;
use vstd::prelude::*;

use crate::error::Error;

verus! {

/// Product of the first `k` entries of `s`.
pub open spec fn prefix_product(s: Seq<usize>, k: int) -> int
    decreases k,
{
    if k <= 0 {
        1
    } else {
        prefix_product(s, k - 1) * s[k - 1]
    }
}

/// Product of the entries of `s` from index `j` on.
pub open spec fn suffix_product(s: Seq<usize>, j: int) -> int
    decreases s.len() - j,
{
    if j >= s.len() || j < 0 {
        1
    } else {
        s[j] * suffix_product(s, j + 1)
    }
}

/// No running product of `s` exceeds `usize::MAX`.
pub open spec fn products_fit(s: Seq<usize>) -> bool {
    forall|k: int| 0 <= k <= s.len() ==> #[trigger] prefix_product(s, k) <= usize::MAX
}

/// Splitting the product of `s` at `k` gives the product of its head and of its tail.
pub proof fn lemma_product_split(s: Seq<usize>, k: int)
    requires
        0 <= k <= s.len(),
    ensures
        prefix_product(s, k) * suffix_product(s, k) == suffix_product(s, 0),
    decreases k,
{
    if k > 0 {
        lemma_product_split(s, k - 1);
        lemma_mul_is_associative(prefix_product(s, k - 1), s[k - 1] as int, suffix_product(s, k));
    } else {
        lemma_mul_basics(suffix_product(s, 0));
    }
}

/// With no zero entry, every tail product is positive and at most the whole product.
pub proof fn lemma_suffix_bounded(s: Seq<usize>, j: int)
    requires
        0 <= j <= s.len(),
        forall|i: int| 0 <= i < s.len() ==> #[trigger] s[i] >= 1,
    ensures
        1 <= suffix_product(s, j) <= suffix_product(s, 0),
    decreases j,
{
    lemma_suffix_positive(s, j);
    if j > 0 {
        lemma_suffix_bounded(s, j - 1);
        lemma_mul_inequality(1, s[j - 1] as int, suffix_product(s, j));
        lemma_mul_basics(suffix_product(s, j));
    }
}

proof fn lemma_suffix_positive(s: Seq<usize>, j: int)
    requires
        0 <= j <= s.len(),
        forall|i: int| 0 <= i < s.len() ==> #[trigger] s[i] >= 1,
    ensures
        suffix_product(s, j) >= 1,
    decreases s.len() - j,
{
    if j < s.len() {
        lemma_suffix_positive(s, j + 1);
        lemma_mul_inequality(1, s[j] as int, suffix_product(s, j + 1));
        lemma_mul_basics(suffix_product(s, j + 1));
    }
}

/// The product of `values`, or an error once a running product overflows.
pub fn checked_product(values: &[usize]) -> (r: Result<usize, Error>)
    ensures
        r == (if products_fit(values@) {
            Ok(prefix_product(values@, values@.len() as int) as usize)
        } else {
            Err(Error::TensorTooLarge)
        }),
{
    let mut product: usize = 1;
    let mut index: usize = 0;
    while index < values.len()
        invariant
            index <= values@.len(),
            product == prefix_product(values@, index as int),
            forall|k: int| 0 <= k <= index ==> #[trigger] prefix_product(values@, k) <= usize::MAX,
        decreases values@.len() - index,
    {
        match product.checked_mul(values[index]) {
            Some(next) => {
                product = next;
            },
            None => {
                proof {
                    assert(prefix_product(values@, index + 1) > usize::MAX);
                }
                return Err(Error::TensorTooLarge);
            },
        }
        index = index + 1;
    }
    Ok(product)
}


/// What checking the shape of a tensor map gives: its feature width when the inputs, the
/// output count and the storage lengths agree, and otherwise the first error.
pub open spec fn tensor_shape_spec(
    input_sizes: Seq<usize>,
    rows: int,
    matrix_len: int,
    bias_len: int,
) -> Result<usize, Error> {
    if input_sizes.len() < 2 {
        Err(Error::TooFewInputs)
    } else if exists|i: int| 0 <= i < input_sizes.len() && #[trigger] input_sizes[i] < 2 {
        Err(Error::AlphabetTooSmall)
    } else if rows == 0 {
        Err(Error::ZeroDimensionMap)
    } else if !products_fit(input_sizes) {
        Err(Error::TensorTooLarge)
    } else {
        let width = prefix_product(input_sizes, input_sizes.len() as int) - 1;
        if rows * width > usize::MAX {
            Err(Error::MapTooLarge)
        } else if matrix_len != rows * width {
            Err(Error::MatrixLength)
        } else if bias_len != rows {
            Err(Error::BiasLength)
        } else {
            Ok(width as usize)
        }
    }
}

/// Checks the shape of a tensor map over inputs of the given alphabet sizes with `rows`
/// outputs, `matrix_len` matrix entries and `bias_len` bias entries, and gives its feature
/// width.
pub fn tensor_shape(input_sizes: &[usize], rows: usize, matrix_len: usize, bias_len: usize) -> (r:
    Result<usize, Error>)
    ensures
        r == tensor_shape_spec(input_sizes@, rows as int, matrix_len as int, bias_len as int),
{
    if input_sizes.len() < 2 {
        return Err(Error::TooFewInputs);
    }
    let mut index: usize = 0;
    while index < input_sizes.len()
        invariant
            input_sizes@.len() >= 2,
            index <= input_sizes@.len(),
            forall|i: int| 0 <= i < index ==> #[trigger] input_sizes@[i] >= 2,
        decreases input_sizes@.len() - index,
    {
        if input_sizes[index] < 2 {
            proof {
                assert(input_sizes@[index as int] < 2);
            }
            return Err(Error::AlphabetTooSmall);
        }
        index = index + 1;
    }
    if rows == 0 {
        return Err(Error::ZeroDimensionMap);
    }
    let total = match checked_product(input_sizes) {
        Ok(total) => total,
        Err(e) => return Err(e),
    };
    proof {
        let s = input_sizes@;
        lemma_product_split(s, s.len() as int);
        lemma_suffix_positive(s, 0);
        lemma_mul_basics(suffix_product(s, 0));
    }
    let width = total - 1;
    let matrix_expected = match rows.checked_mul(width) {
        Some(m) => m,
        None => return Err(Error::MapTooLarge),
    };
    if matrix_len != matrix_expected {
        return Err(Error::MatrixLength);
    }
    if bias_len != rows {
        return Err(Error::BiasLength);
    }
    Ok(width)
}

} // verus!
