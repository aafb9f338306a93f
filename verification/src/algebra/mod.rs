//! Finite alphabets, their block encodings, and the posets behind the zeta encodings.

pub mod affine;
pub mod character;
pub mod number_theory;
pub mod encoding;
pub mod exact;
pub mod indicator;
pub mod poset;
pub mod tensor;
pub mod zeta;

pub use character::{Bru, Character, Lbru, WalshHadamard};
pub use encoding::{CleaningMode, NativeOperation};
pub use indicator::{Indicator, Thermometer};
pub use poset::FinitePoset;
pub use zeta::{JoinZeta, MeetZeta};
