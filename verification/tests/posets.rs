use poulpy_blck_ecd::algebra::{CleaningMode, FinitePoset, JoinZeta, MeetZeta, NativeOperation};
use poulpy_blck_ecd::error::Error;

fn table(size: usize, pairs: &[(usize, usize)]) -> Vec<bool> {
    let mut leq = vec![false; size * size];
    for value in 0..size {
        leq[value * size + value] = true;
    }
    for &(lhs, rhs) in pairs {
        leq[lhs * size + rhs] = true;
    }
    leq
}

#[test]
fn chain_orders_integers() {
    let chain = FinitePoset::chain(3).unwrap();
    assert_eq!(chain.size(), 3);
    assert!(chain.leq(0, 2));
    assert!(!chain.leq(2, 0));
    assert!(!chain.leq(0, 3));
    assert_eq!(chain.bottom(), Some(0));
    assert_eq!(chain.top(), Some(2));
    assert_eq!(chain.mobius().unwrap(), vec![1, -1, 0, 0, 1, -1, 0, 0, 1]);
    assert_eq!(chain.meet_table().unwrap(), vec![0, 0, 0, 0, 1, 1, 0, 1, 2]);
    assert_eq!(chain.join_table().unwrap(), vec![0, 1, 2, 1, 1, 2, 2, 2, 2]);
    assert_eq!(FinitePoset::chain(1), Err(Error::PosetTooSmall));
}

#[test]
fn boolean_lattice_orders_subsets() {
    let lattice = FinitePoset::boolean_lattice(2).unwrap();
    assert_eq!(lattice.size(), 4);
    assert!(lattice.leq(1, 3));
    assert!(!lattice.leq(1, 2));
    assert_eq!(
        lattice.mobius().unwrap(),
        vec![1, -1, -1, 1, 0, 1, 0, -1, 0, 0, 1, -1, 0, 0, 0, 1]
    );
    assert_eq!(
        lattice.meet_table().unwrap(),
        vec![0, 0, 0, 0, 0, 1, 0, 1, 0, 0, 2, 2, 0, 1, 2, 3]
    );
    assert_eq!(FinitePoset::boolean_lattice(0), Err(Error::ZeroDimension));
    assert_eq!(
        FinitePoset::boolean_lattice(usize::BITS as usize),
        Err(Error::AlphabetTooLarge)
    );
}

#[test]
fn divisor_lattice_orders_by_divisibility() {
    let (lattice, divisors) = FinitePoset::divisor_lattice(12).unwrap();
    assert_eq!(divisors, vec![1, 2, 3, 4, 6, 12]);
    assert!(lattice.leq(1, 3));
    assert!(!lattice.leq(2, 3));
    assert!(lattice.leq(0, 5));
    assert_eq!(lattice.bottom(), Some(0));
    assert_eq!(lattice.top(), Some(5));
    assert_eq!(lattice.mobius().unwrap()[0 * 6 + 5], 0);
    assert_eq!(lattice.mobius().unwrap()[0 * 6 + 4], 1);
    assert_eq!(lattice.meet_table().unwrap()[3 * 6 + 4], 1);
    assert_eq!(lattice.join_table().unwrap()[3 * 6 + 4], 5);
    assert_eq!(
        FinitePoset::divisor_lattice(1).err(),
        Some(Error::DivisorModulusTooSmall)
    );
}

#[test]
fn rooted_tree_orders_ancestors() {
    let tree = FinitePoset::rooted_tree(&[None, Some(0), Some(0), Some(1)]).unwrap();
    assert!(tree.leq(0, 3));
    assert!(tree.leq(1, 3));
    assert!(!tree.leq(2, 3));
    assert!(!tree.leq(3, 1));
    assert_eq!(tree.bottom(), Some(0));
    assert_eq!(tree.top(), None);
    assert_eq!(FinitePoset::rooted_tree(&[None]), Err(Error::TreeTooSmall));
    assert_eq!(FinitePoset::rooted_tree(&[None, None]), Err(Error::RootCount));
    assert_eq!(FinitePoset::rooted_tree(&[Some(1), Some(0)]), Err(Error::RootCount));
    assert_eq!(FinitePoset::rooted_tree(&[None, Some(5)]), Err(Error::ParentOutOfRange));
    assert_eq!(FinitePoset::rooted_tree(&[None, Some(1)]), Err(Error::SelfParent));
    assert_eq!(
        FinitePoset::rooted_tree(&[None, Some(2), Some(1)]),
        Err(Error::ParentCycle)
    );
}

#[test]
fn relation_tables_are_validated() {
    assert_eq!(FinitePoset::new(1, vec![true]), Err(Error::PosetTooSmall));
    assert_eq!(FinitePoset::new(2, vec![true; 3]), Err(Error::RelationLength));
    assert_eq!(
        FinitePoset::new(2, vec![true, false, false, false]),
        Err(Error::NotReflexive)
    );
    assert_eq!(
        FinitePoset::new(2, vec![true, true, true, true]),
        Err(Error::NotAntisymmetric)
    );
    assert_eq!(
        FinitePoset::new(3, table(3, &[(0, 1), (1, 2)])),
        Err(Error::NotTransitive)
    );
    let poset = FinitePoset::new(3, table(3, &[(0, 1), (1, 2), (0, 2)])).unwrap();
    assert_eq!(poset, FinitePoset::chain(3).unwrap());
    let relation = FinitePoset::from_relation(3, |lhs, rhs| lhs >= rhs).unwrap();
    assert!(relation.leq(2, 0));
    assert_eq!(relation.bottom(), Some(2));
}

#[test]
fn meet_zeta_encodes_lower_sets() {
    let zeta = MeetZeta::boolean(2).unwrap();
    assert_eq!(zeta.bottom(), 0);
    assert_eq!(zeta.alphabet_size(), 4);
    assert_eq!(zeta.block_size(), 3);
    assert_eq!(zeta.poset().size(), 4);
    let mut word = vec![0i128; 3];
    zeta.encode_into(3, &mut word).unwrap();
    assert_eq!(word, vec![1, 1, 1]);
    zeta.encode_into(1, &mut word).unwrap();
    assert_eq!(word, vec![1, 0, 0]);
    zeta.encode_into(0, &mut word).unwrap();
    assert_eq!(word, vec![0, 0, 0]);
    assert_eq!(zeta.native_operation(), Some(NativeOperation::Meet));
    assert_eq!(zeta.cleaning_mode(), Some(CleaningMode::Binary));
    assert_eq!(zeta.native_product(1, 2), Some(0));
    assert_eq!(zeta.native_product(3, 2), Some(2));
    assert_eq!(zeta.native_product(4, 2), None);
    assert_eq!(zeta.mobius().len(), 16);
}

#[test]
fn meet_zeta_products_are_meets() {
    let (zeta, divisors) = MeetZeta::divisors(12).unwrap();
    let width = zeta.block_size();
    let mut a = vec![0i128; width];
    let mut b = vec![0i128; width];
    let mut m = vec![0i128; width];
    for lhs in 0..divisors.len() {
        for rhs in 0..divisors.len() {
            zeta.encode_into(lhs, &mut a).unwrap();
            zeta.encode_into(rhs, &mut b).unwrap();
            let meet = zeta.native_product(lhs, rhs).unwrap();
            zeta.encode_into(meet, &mut m).unwrap();
            let product: Vec<i128> = a.iter().zip(&b).map(|(x, y)| x * y).collect();
            assert_eq!(m, product);
            let gcd = (1..=12).rev().find(|d| divisors[lhs] % d == 0 && divisors[rhs] % d == 0).unwrap();
            assert_eq!(divisors[meet], gcd);
        }
    }
}

#[test]
fn meet_zeta_of_a_tree_meets_at_common_ancestors() {
    let zeta = MeetZeta::ancestor(&[None, Some(0), Some(0), Some(1), Some(1)]).unwrap();
    assert_eq!(zeta.bottom(), 0);
    assert_eq!(zeta.native_product(3, 4), Some(1));
    assert_eq!(zeta.native_product(3, 2), Some(0));
    assert_eq!(zeta.native_product(3, 1), Some(1));
    assert_eq!(
        MeetZeta::ancestor(&[None, None]).err(),
        Some(Error::RootCount)
    );
}

#[test]
fn meet_zeta_needs_a_bottom_and_meets() {
    let antichain = FinitePoset::new(2, table(2, &[])).unwrap();
    assert_eq!(MeetZeta::new(antichain.clone()).err(), Some(Error::NoBottom));
    assert_eq!(JoinZeta::new(antichain).err(), Some(Error::NoTop));
    let no_meet = FinitePoset::new(
        5,
        table(5, &[(0, 1), (0, 2), (0, 3), (0, 4), (1, 3), (1, 4), (2, 3), (2, 4)]),
    )
    .unwrap();
    assert_eq!(MeetZeta::new(no_meet).err(), Some(Error::NoMeet));
    assert_eq!(MeetZeta::boolean(0).err(), Some(Error::ZeroDimension));
}

#[test]
fn join_zeta_encodes_upper_sets() {
    let zeta = JoinZeta::boolean(2).unwrap();
    assert_eq!(zeta.top(), 3);
    let mut word = vec![0i128; 3];
    zeta.encode_into(1, &mut word).unwrap();
    assert_eq!(word, vec![0, 1, 0]);
    zeta.encode_into(0, &mut word).unwrap();
    assert_eq!(word, vec![1, 1, 1]);
    zeta.encode_into(3, &mut word).unwrap();
    assert_eq!(word, vec![0, 0, 0]);
    assert_eq!(zeta.native_operation(), Some(NativeOperation::Join));
    assert_eq!(zeta.native_product(1, 2), Some(3));
    assert_eq!(zeta.native_product(0, 2), Some(2));
    let (divisor_zeta, divisors) = JoinZeta::divisors(6).unwrap();
    assert_eq!(divisors, vec![1, 2, 3, 6]);
    assert_eq!(divisor_zeta.top(), 3);
    assert_eq!(divisor_zeta.native_product(1, 2), Some(3));
    assert_eq!(divisor_zeta.poset().size(), 4);
}

#[test]
fn zeta_encoders_reject_bad_inputs() {
    let zeta = MeetZeta::boolean(1).unwrap();
    let mut word = vec![3i128; 1];
    assert_eq!(zeta.encode_into(2, &mut word), Err(Error::ValueOutOfRange));
    assert_eq!(word, vec![3]);
    let mut wide = vec![3i128; 2];
    assert_eq!(zeta.encode_into(1, &mut wide), Err(Error::WidthMismatch));
    let join = JoinZeta::boolean(1).unwrap();
    assert_eq!(join.encode_into(2, &mut word), Err(Error::ValueOutOfRange));
}

#[test]
fn mobius_tables_are_computed_without_a_size_limit() {
    let chain = FinitePoset::chain(160).unwrap();
    let mobius = chain.mobius().unwrap();
    for lhs in 0..160 {
        for rhs in 0..160 {
            let expected = if lhs == rhs {
                1
            } else if rhs == lhs + 1 {
                -1
            } else {
                0
            };
            assert_eq!(mobius[lhs * 160 + rhs], expected);
        }
    }
    let zeta = MeetZeta::boolean(8).unwrap();
    assert_eq!(zeta.alphabet_size(), 256);
    assert_eq!(zeta.mobius()[255], 1);
    assert_eq!(zeta.mobius()[127], -1);
    let join = JoinZeta::boolean(8).unwrap();
    assert_eq!(join.alphabet_size(), 256);
}

#[test]
fn deep_trees_have_ancestor_encodings() {
    let mut parents = vec![None];
    for vertex in 1..150 {
        parents.push(Some(vertex - 1));
    }
    let zeta = MeetZeta::ancestor(&parents).unwrap();
    assert_eq!(zeta.alphabet_size(), 150);
    assert_eq!(zeta.mobius()[1], -1);
    assert_eq!(zeta.mobius()[2], 0);
    assert_eq!(zeta.native_product(40, 90), Some(40));
}

#[test]
fn divisor_encodings_with_many_divisors() {
    let (meet, divisors) = MeetZeta::divisors(720720).unwrap();
    assert_eq!(divisors.len(), 240);
    assert_eq!(meet.alphabet_size(), 240);
    let six = divisors.iter().position(|&d| d == 6).unwrap();
    let four = divisors.iter().position(|&d| d == 4).unwrap();
    assert_eq!(meet.mobius()[six], 1);
    assert_eq!(meet.mobius()[four], 0);
    let (join, _) = JoinZeta::divisors(720720).unwrap();
    assert_eq!(join.alphabet_size(), 240);
}

#[test]
fn relations_may_keep_state_between_calls() {
    let mut calls = 0;
    let poset = FinitePoset::from_relation(3, |lhs, rhs| {
        calls += 1;
        lhs <= rhs
    })
    .unwrap();
    assert_eq!(calls, 9);
    assert!(poset.leq(0, 2));
    assert!(!poset.leq(2, 0));
}

#[test]
fn meet_zeta_interpolates_by_mobius_inversion() {
    let zeta = MeetZeta::divisors(12).unwrap().0;
    let size = zeta.alphabet_size();
    let poset = zeta.poset();
    let mobius = zeta.mobius();
    let values: Vec<i128> = vec![7, -3, 11, 0, 5, 2];
    let coefficient = |c: usize| -> i128 {
        (0..size)
            .filter(|&v| poset.leq(v, c))
            .map(|v| values[v] * mobius[v * size + c])
            .sum()
    };
    let bias = coefficient(zeta.bottom());
    let weights: Vec<i128> = (0..size).filter(|&c| c != zeta.bottom()).map(coefficient).collect();
    for s in 0..size {
        let mut word = vec![0i128; zeta.block_size()];
        zeta.encode_into(s, &mut word).unwrap();
        let value: i128 = bias + weights.iter().zip(&word).map(|(w, x)| w * x).sum::<i128>();
        assert_eq!(value, values[s]);
    }
}

#[test]
fn join_zeta_interpolates_by_mobius_inversion() {
    let zeta = JoinZeta::boolean(2).unwrap();
    let size = zeta.alphabet_size();
    let poset = zeta.poset();
    let mobius = zeta.mobius();
    let values: Vec<i128> = vec![4, -1, 9, 6];
    let coefficient = |c: usize| -> i128 {
        (0..size)
            .filter(|&v| poset.leq(c, v))
            .map(|v| mobius[c * size + v] * values[v])
            .sum()
    };
    let bias = coefficient(zeta.top());
    let weights: Vec<i128> = (0..size).filter(|&c| c != zeta.top()).map(coefficient).collect();
    for s in 0..size {
        let mut word = vec![0i128; zeta.block_size()];
        zeta.encode_into(s, &mut word).unwrap();
        let value: i128 = bias + weights.iter().zip(&word).map(|(w, x)| w * x).sum::<i128>();
        assert_eq!(value, values[s]);
    }
}
