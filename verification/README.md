# poulpy_blck_ecd

Character block encodings for finite alphabets in discrete CKKS: the discrete structure
behind lookup-table compilation, native block products and ciphertext slot layouts,
verified with Verus.

## Layout

- `src/` is the verified library.
  - `algebra/`: the encodings (`Bru`, `Lbru`, `WalshHadamard`, `Indicator`, `Thermometer`,
    `MeetZeta`, `JoinZeta`), finite posets with their meet, join and Möbius tables, the number
    theory behind primitive roots, exact dyadic Gaussian coefficients, and shape checks of
    affine and tensor maps. Every encoding states its codewords, proves that distinct symbols
    get distinct codewords, and proves that its native product is what coordinatewise
    multiplication of codewords computes. For the encodings with integer codewords
    (`Indicator`, `Thermometer`, `MeetZeta`, `JoinZeta`, `WalshHadamard`) the library also
    proves that the interpolating affine function over integer values takes each symbol's
    value at its codeword (Möbius inversion for the zeta encodings; for Walsh-Hadamard the
    statement is scaled by the alphabet size).
  - `layout/`: packed and split placement of encoded blocks in slot vectors, with the proof
    that reading a block back gives what was placed.
  - `transform/`: scheduling rules for maps on encoded blocks (baby-step giant-step choice,
    multivariate feature recipes and alignment digits, product trees, precision bookkeeping).
- `app/` is ordinary Rust around the library: floating-point coefficients, interpolation of
  lookup tables into affine and tensor maps, and slot encoding with nearest-codeword decoding.
- `tests/` exercises the library on concrete values.
