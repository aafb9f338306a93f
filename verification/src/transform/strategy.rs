use vstd::prelude::*;

use crate::error::Error;

verus! {

/// Scheduling strategy for packed linear transformations.
#[derive(Clone, Copy, Debug, PartialEq, Eq, Structural)]
pub enum TransformStrategy {
    /// Selects a strategy and baby-step/giant-step split automatically.
    Auto,
    /// Evaluates each nonzero diagonal directly.
    Direct,
    /// Uses an explicit baby-step/giant-step decomposition.
    Bsgs {
        /// Number of diagonals grouped into each giant step.
        giant_step: usize,
    },
}

impl Default for TransformStrategy {
    fn default() -> (r: Self)
        ensures
            r == TransformStrategy::Auto,
    {
        TransformStrategy::Auto
    }
}

impl TransformStrategy {
    /// Resolves the strategy for a transform with the given nonzero diagonals: `Auto` becomes
    /// the baby-step/giant-step schedule whose giant step is `auto_giant_step`, the step that
    /// the backend finds best for these diagonals.
    pub fn resolve(self, indexes: &[i64], auto_giant_step: usize) -> (r: Result<Self, Error>)
        ensures
            r == (if indexes@.len() == 0 {
                Err(Error::EmptyTransform)
            } else {
                match self {
                    TransformStrategy::Auto => Ok(TransformStrategy::Bsgs { giant_step: auto_giant_step }),
                    TransformStrategy::Direct => Ok(TransformStrategy::Direct),
                    TransformStrategy::Bsgs { giant_step } => if giant_step == 0 {
                        Err(Error::ZeroGiantStep)
                    } else {
                        Ok(TransformStrategy::Bsgs { giant_step })
                    },
                }
            }),
    {
        if indexes.len() == 0 {
            return Err(Error::EmptyTransform);
        }
        match self {
            TransformStrategy::Auto => Ok(TransformStrategy::Bsgs { giant_step: auto_giant_step }),
            TransformStrategy::Direct => Ok(TransformStrategy::Direct),
            TransformStrategy::Bsgs { giant_step } => {
                if giant_step == 0 {
                    return Err(Error::ZeroGiantStep);
                }
                Ok(TransformStrategy::Bsgs { giant_step })
            },
        }
    }
}

} // verus!
