use poulpy_blck_ecd::algebra::affine::affine_shape;
use poulpy_blck_ecd::algebra::tensor::{checked_product, tensor_shape};
use poulpy_blck_ecd::error::Error;
use poulpy_blck_ecd::transform::multivariate::{alignment_digits, product_layer_widths};
use poulpy_blck_ecd::transform::{feature_recipes, FeatureRecipe, TransformStrategy};

#[test]
fn strategies_resolve() {
    assert_eq!(TransformStrategy::default(), TransformStrategy::Auto);
    assert_eq!(TransformStrategy::Auto.resolve(&[], 3), Err(Error::EmptyTransform));
    assert_eq!(TransformStrategy::Direct.resolve(&[], 3), Err(Error::EmptyTransform));
    assert_eq!(
        TransformStrategy::Auto.resolve(&[0, 1], 7),
        Ok(TransformStrategy::Bsgs { giant_step: 7 })
    );
    assert_eq!(TransformStrategy::Direct.resolve(&[-1], 7), Ok(TransformStrategy::Direct));
    assert_eq!(
        TransformStrategy::Bsgs { giant_step: 0 }.resolve(&[2], 7),
        Err(Error::ZeroGiantStep)
    );
    assert_eq!(
        TransformStrategy::Bsgs { giant_step: 4 }.resolve(&[2], 7),
        Ok(TransformStrategy::Bsgs { giant_step: 4 })
    );
}

#[test]
fn products_are_checked() {
    assert_eq!(checked_product(&[2, 3, 4]), Ok(24));
    assert_eq!(checked_product(&[]), Ok(1));
    assert_eq!(checked_product(&[usize::MAX, 2]), Err(Error::TensorTooLarge));
    assert_eq!(checked_product(&[usize::MAX, 2, 0]), Err(Error::TensorTooLarge));
    assert_eq!(checked_product(&[0, usize::MAX, 2]), Ok(0));
}

#[test]
fn feature_recipes_follow_the_mixed_radix_digits() {
    assert_eq!(
        feature_recipes(&[2, 3]).unwrap(),
        vec![
            FeatureRecipe::Input { variable: 1, coordinate: 0 },
            FeatureRecipe::Input { variable: 1, coordinate: 1 },
            FeatureRecipe::Input { variable: 0, coordinate: 0 },
            FeatureRecipe::Product { lhs: 2, rhs: 0 },
            FeatureRecipe::Product { lhs: 2, rhs: 1 },
        ]
    );
    assert_eq!(feature_recipes(&[usize::MAX, 2]), Err(Error::TensorTooLarge));
}

#[test]
fn product_recipes_use_earlier_features() {
    let sizes = [3, 2, 4];
    let recipes = feature_recipes(&sizes).unwrap();
    assert_eq!(recipes.len(), 23);
    for (index, recipe) in recipes.iter().enumerate() {
        let flat = index + 1;
        if let FeatureRecipe::Product { lhs, rhs } = *recipe {
            assert!(lhs < index && rhs < index);
            assert_eq!(lhs + 1 + rhs + 1, flat);
        }
    }
    assert_eq!(
        recipes[22],
        FeatureRecipe::Product { lhs: 15, rhs: 6 }
    );
}

#[test]
fn affine_shapes_are_checked() {
    assert_eq!(affine_shape(0, 1, 0, 0), Err(Error::ZeroDimensionMap));
    assert_eq!(affine_shape(1, 0, 0, 1), Err(Error::ZeroDimensionMap));
    assert_eq!(affine_shape(2, 3, 5, 2), Err(Error::MatrixLength));
    assert_eq!(affine_shape(2, 3, 6, 1), Err(Error::BiasLength));
    assert_eq!(affine_shape(usize::MAX, 2, 0, 0), Err(Error::MapTooLarge));
    assert_eq!(affine_shape(2, 3, 6, 2), Ok(()));
}

#[test]
fn tensor_shapes_are_checked() {
    assert_eq!(tensor_shape(&[], 1, 0, 1), Err(Error::TooFewInputs));
    assert_eq!(tensor_shape(&[2], 1, 1, 1), Err(Error::TooFewInputs));
    assert_eq!(tensor_shape(&[2, 1], 1, 1, 1), Err(Error::AlphabetTooSmall));
    assert_eq!(tensor_shape(&[2, 2], 0, 0, 0), Err(Error::ZeroDimensionMap));
    assert_eq!(tensor_shape(&[2, 3], 2, 9, 2), Err(Error::MatrixLength));
    assert_eq!(tensor_shape(&[2, 3], 2, 10, 1), Err(Error::BiasLength));
    assert_eq!(tensor_shape(&[usize::MAX, 2], 1, 0, 1), Err(Error::TensorTooLarge));
    assert_eq!(tensor_shape(&[2, 3], 2, 10, 2), Ok(5));
}

#[test]
fn alignment_digits_follow_the_mixed_radix_expansion() {
    assert_eq!(alignment_digits(&[2, 3], 0), vec![0, 0, 1, 1, 1]);
    assert_eq!(alignment_digits(&[2, 3], 1), vec![1, 2, 0, 1, 2]);
    assert_eq!(alignment_digits(&[2, 2, 2], 1), vec![0, 1, 1, 0, 0, 1, 1]);
}

#[test]
fn product_layers_halve_rounding_up() {
    assert_eq!(product_layer_widths(0), Vec::<usize>::new());
    assert_eq!(product_layer_widths(1), vec![1]);
    assert_eq!(product_layer_widths(3), vec![3, 2, 1]);
    assert_eq!(product_layer_widths(5), vec![5, 3, 2, 1]);
    assert_eq!(product_layer_widths(8), vec![8, 4, 2, 1]);
}
