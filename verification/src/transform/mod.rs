//! Scheduling and precision rules for evaluating maps on encoded blocks.

pub mod multivariate;
pub mod precision;
pub mod strategy;

pub use multivariate::{feature_recipes, FeatureRecipe};
pub use precision::{multiplication_output_k, plaintext_output_k};
pub use strategy::TransformStrategy;
