use rs_merkle::algorithms::Sha256;
use rs_merkle::Hasher;
use stark_101::error::StarkError;
use stark_101::fields::FieldElement;
use stark_101::merkle::MerkleTree;

type F = FieldElement<1000003>;

fn elements(values: &[u64]) -> Vec<F> {
    values.iter().map(|&v| F::new(v)).collect()
}

fn reference_root(values: &[u64]) -> String {
    let leaves: Vec<[u8; 32]> = values.iter().map(|v| Sha256::hash(&v.to_be_bytes())).collect();
    rs_merkle::MerkleTree::<Sha256>::from_leaves(&leaves).root_hex().unwrap()
}

#[test]
fn root_is_the_hash_tree_root_of_the_encoded_values() {
    let values = [5u64, 17, 99, 1000002];
    let tree = MerkleTree::new(elements(&values)).unwrap();
    assert_eq!(tree.root(), reference_root(&values));
    assert_eq!(tree.root().len(), 64);
    assert_eq!(tree.len(), 4);
}

#[test]
fn root_of_two_known_leaves() {
    // the parent of two leaves is the hash of their digests, one after the other
    let tree = MerkleTree::new(elements(&[1, 2])).unwrap();
    let mut both = Sha256::hash(&1u64.to_be_bytes()).to_vec();
    both.extend_from_slice(&Sha256::hash(&2u64.to_be_bytes()));
    let expected: String = Sha256::hash(&both).iter().map(|b| format!("{:02x}", b)).collect();
    assert_eq!(tree.root(), expected);
}

#[test]
fn root_depends_on_the_values_and_their_order() {
    let a = MerkleTree::new(elements(&[1, 2, 3, 4])).unwrap().root();
    let b = MerkleTree::new(elements(&[1, 2, 4, 3])).unwrap().root();
    let c = MerkleTree::new(elements(&[1, 2, 3, 5])).unwrap().root();
    assert_ne!(a, b);
    assert_ne!(a, c);
}

#[test]
fn no_tree_over_nothing() {
    assert_eq!(MerkleTree::<1000003>::new(vec![]).err(), Some(StarkError::ShapeError));
}

#[test]
fn every_path_validates_against_the_root() {
    for size in 1..=9usize {
        let values: Vec<u64> = (0..size as u64).map(|v| v * v + 3).collect();
        let data = elements(&values);
        let tree = MerkleTree::new(data.clone()).unwrap();
        let root = tree.root();
        for index in 0..size {
            let path = tree.get_authentication_path(index).unwrap();
            assert_eq!(path.len() % 32, 0);
            assert!(MerkleTree::<1000003>::validate(
                &root,
                &path,
                index,
                &data[index].to_bytes(),
                size
            ));
        }
    }
}

#[test]
fn path_of_a_four_leaf_tree_holds_the_sibling_and_the_other_pair() {
    let values = [10u64, 20, 30, 40];
    let tree = MerkleTree::new(elements(&values)).unwrap();
    let path = tree.get_authentication_path(0).unwrap();
    let sibling = Sha256::hash(&20u64.to_be_bytes());
    let mut pair = Sha256::hash(&30u64.to_be_bytes()).to_vec();
    pair.extend_from_slice(&Sha256::hash(&40u64.to_be_bytes()));
    let uncle = Sha256::hash(&pair);
    let mut expected = sibling.to_vec();
    expected.extend_from_slice(&uncle);
    assert_eq!(path, expected);
}

#[test]
fn a_flipped_byte_in_the_path_or_the_value_fails_validation() {
    let values = [7u64, 8, 9, 10, 11, 12, 13, 14];
    let data = elements(&values);
    let tree = MerkleTree::new(data.clone()).unwrap();
    let root = tree.root();
    let path = tree.get_authentication_path(3).unwrap();
    let value = data[3].to_bytes();
    assert!(MerkleTree::<1000003>::validate(&root, &path, 3, &value, 8));
    for i in 0..path.len() {
        let mut bad = path.clone();
        bad[i] ^= 1;
        assert!(!MerkleTree::<1000003>::validate(&root, &bad, 3, &value, 8));
    }
    for i in 0..value.len() {
        let mut bad = value;
        bad[i] ^= 1;
        assert!(!MerkleTree::<1000003>::validate(&root, &path, 3, &bad, 8));
    }
}

#[test]
fn validation_fails_for_the_wrong_index_root_or_shape() {
    let values = [7u64, 8, 9, 10];
    let data = elements(&values);
    let tree = MerkleTree::new(data.clone()).unwrap();
    let root = tree.root();
    let path = tree.get_authentication_path(1).unwrap();
    let value = data[1].to_bytes();
    assert!(!MerkleTree::<1000003>::validate(&root, &path, 2, &value, 4));
    assert!(!MerkleTree::<1000003>::validate(&root, &path, 4, &value, 4));
    assert!(!MerkleTree::<1000003>::validate(&root, &path[1..], 1, &value, 4));
    assert!(!MerkleTree::<1000003>::validate(&root, &path[..32], 1, &value, 4));
    let other = MerkleTree::new(elements(&[1, 2, 3, 4])).unwrap().root();
    assert!(!MerkleTree::<1000003>::validate(&other, &path, 1, &value, 4));
    assert!(!MerkleTree::<1000003>::validate(&String::new(), &path, 1, &value, 4));
}

#[test]
fn path_index_out_of_range_is_a_shape_error() {
    let tree = MerkleTree::new(elements(&[1, 2, 3])).unwrap();
    assert_eq!(tree.get_authentication_path(3).err(), Some(StarkError::ShapeError));
    assert_eq!(tree.get_authentication_path(usize::MAX).err(), Some(StarkError::ShapeError));
    assert!(tree.get_authentication_path(2).is_ok());
}
