use rand::random;
use stark_primitives::field::{FieldElement, FiniteField};
use stark_primitives::hash::{Hasher, RescueHash};
use stark_primitives::merkle::MerkleTree;
use std::rc::Rc;

fn small_hasher(f: &Rc<FiniteField>) -> RescueHash {
    let mds = vec![vec![f.element(1), f.element(2)], vec![f.element(3), f.element(4)]];
    let constants = vec![f.element(1); 6];
    RescueHash::new(Rc::clone(f), 1, 1, f.element(5), mds, constants)
}

fn tree_over(f: &Rc<FiniteField>, values: &[i128]) -> MerkleTree<RescueHash> {
    let leafs: Vec<FieldElement> = values.iter().map(|v| f.element(*v)).collect();
    MerkleTree::new(Rc::clone(f), small_hasher(f), leafs)
}

#[test]
fn test_create_merkle_tree() {
    let finite_field = Rc::new(FiniteField::new(97, 1));
    let hasher = RescueHash::default();

    let element = finite_field.random_element();
    let mut leafs = vec![
        finite_field.random_element(),
        finite_field.random_element(),
        finite_field.random_element(),
        finite_field.random_element(),
        finite_field.random_element(),
        finite_field.random_element(),
        finite_field.random_element(),
        finite_field.random_element(),
    ];
    let random_index = random::<usize>() % leafs.len();
    leafs[random_index] = element.clone();
    let mut tree = MerkleTree::new(Rc::clone(&finite_field), hasher, leafs);
    let root = tree.commit();
    assert_eq!(tree.levels.len(), tree.leafs.len().ilog2() as usize + 1);
    println!("Root: {}", root.value());

    let element_hash = tree.hasher.hash(element);
    let proof = tree.prove(element_hash.clone());
    println!("Proof: {:?}", proof);
    assert!(proof.is_some());

    assert!(tree.verify(&root, random_index, &proof.unwrap(), &element_hash));
}

#[test]
fn leaves_are_hashed_on_construction() {
    let f = Rc::new(FiniteField::new(97, 1));
    let tree = tree_over(&f, &[3, 14, 15, 92, 65, 35, 89, 79]);
    let hashed: Vec<i128> = tree.leafs.iter().map(|e| e.value()).collect();
    assert_eq!(hashed, vec![71, 43, 2, 72, 50, 40, 18, 60]);
    assert_eq!(tree.levels.len(), 1);
    assert!(tree.root.is_none());
}

#[test]
fn commit_builds_every_level_and_the_root() {
    let f = Rc::new(FiniteField::new(97, 1));
    let mut tree = tree_over(&f, &[3, 14, 15, 92, 65, 35, 89, 79]);
    let root = tree.commit();
    assert_eq!(root.value(), 13);
    assert_eq!(tree.root, Some(root.clone()));
    let widths: Vec<usize> = tree.levels.iter().map(|l| l.len()).collect();
    assert_eq!(widths, vec![8, 4, 2, 1]);
    assert_eq!(tree.levels[3][0], root);
    // Parent = hash(left + right).
    let h = small_hasher(&f);
    assert_eq!(tree.levels[1][0], h.hash(&tree.levels[0][0] + &tree.levels[0][1]));
    // Committing again gives the same tree.
    let again = tree.commit();
    assert_eq!(again, root);
    assert_eq!(tree.levels.len(), 4);
}

#[test]
fn single_leaf_tree_has_the_hashed_leaf_as_root() {
    let f = Rc::new(FiniteField::new(97, 1));
    let mut tree = tree_over(&f, &[15]);
    let root = tree.commit();
    assert_eq!(root.value(), 2);
    let path = tree.prove(root.clone()).unwrap();
    assert!(path.is_empty());
    assert!(tree.verify(&root, 0, &path, &root));
}

#[test]
fn every_leaf_round_trips() {
    let f = Rc::new(FiniteField::new(97, 1));
    let mut tree = tree_over(&f, &[3, 14, 15, 92, 65, 35, 89, 79]);
    let root = tree.commit();
    for index in 0..8 {
        let leaf = tree.leafs[index].clone();
        let path = tree.prove(leaf.clone()).unwrap();
        assert_eq!(path.len(), 3);
        assert!(tree.verify(&root, index, &path, &leaf));
    }
}

#[test]
fn prove_returns_siblings_bottom_up() {
    let f = Rc::new(FiniteField::new(97, 1));
    let mut tree = tree_over(&f, &[3, 14, 15, 92]);
    tree.commit();
    let path = tree.prove(tree.leafs[2].clone()).unwrap();
    assert_eq!(path, vec![tree.levels[0][3].clone(), tree.levels[1][0].clone()]);
}

#[test]
fn prove_of_a_raw_value_is_not_found() {
    let f = Rc::new(FiniteField::new(97, 1));
    let mut tree = tree_over(&f, &[3, 14, 15, 92]);
    tree.commit();
    // 3 is a raw leaf value; only its hash (71) is in the tree.
    assert!(tree.prove(f.element(3)).is_none());
    assert!(tree.prove(f.element(71)).is_some());
}

#[test]
fn verify_rejects_a_wrong_root_or_leaf() {
    let f = Rc::new(FiniteField::new(97, 1));
    let mut tree = tree_over(&f, &[3, 14, 15, 92, 65, 35, 89, 79]);
    let root = tree.commit();
    let leaf = tree.leafs[5].clone();
    let path = tree.prove(leaf.clone()).unwrap();
    assert!(!tree.verify(&f.element(root.value() + 1), 5, &path, &leaf));
    assert!(!tree.verify(&root, 5, &path, &f.element(leaf.value() + 1)));
}

#[test]
fn changing_one_leaf_changes_the_root() {
    let f = Rc::new(FiniteField::new(97, 1));
    let values = [3, 14, 15, 92, 65, 35, 89, 79];
    let root = tree_over(&f, &values).commit();
    for i in 0..values.len() {
        for new_value in [0, 1, 2, 96] {
            let mut changed = values;
            changed[i] = new_value;
            let other = tree_over(&f, &changed).commit();
            assert_ne!(other, root, "leaf {} set to {}", i, new_value);
        }
    }
}
