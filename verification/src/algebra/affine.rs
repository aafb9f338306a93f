use vstd::prelude::*;

use crate::error::Error;

verus! {

/// What checking the shape of an affine map gives.
pub open spec fn affine_shape_spec(rows: int, cols: int, matrix_len: int, bias_len: int) -> Result<
    (),
    Error,
> {
    if rows == 0 || cols == 0 {
        Err(Error::ZeroDimensionMap)
    } else if rows * cols > usize::MAX {
        Err(Error::MapTooLarge)
    } else if matrix_len != rows * cols {
        Err(Error::MatrixLength)
    } else if bias_len != rows {
        Err(Error::BiasLength)
    } else {
        Ok(())
    }
}

/// Checks the shape of a `rows` by `cols` affine map with `matrix_len` matrix entries and
/// `bias_len` bias entries.
pub fn affine_shape(rows: usize, cols: usize, matrix_len: usize, bias_len: usize) -> (r: Result<
    (),
    Error,
>)
    ensures
        r == affine_shape_spec(rows as int, cols as int, matrix_len as int, bias_len as int),
{
    if rows == 0 || cols == 0 {
        return Err(Error::ZeroDimensionMap);
    }
    let expected = match rows.checked_mul(cols) {
        Some(m) => m,
        None => return Err(Error::MapTooLarge),
    };
    if matrix_len != expected {
        return Err(Error::MatrixLength);
    }
    if bias_len != rows {
        return Err(Error::BiasLength);
    }
    Ok(())
}

} // verus!
