//! Character block encodings for finite alphabets: the discrete structure behind
//! lookup-table compilation, native block products, and CKKS slot layouts.

pub mod algebra;
pub mod error;
pub mod layout;
pub mod transform;
