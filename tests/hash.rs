use stark_primitives::field::FiniteField;
use stark_primitives::hash::{Hasher, RescueHash};
use std::rc::Rc;

fn small_hasher(f: &Rc<FiniteField>) -> RescueHash {
    let mds = vec![vec![f.element(1), f.element(2)], vec![f.element(3), f.element(4)]];
    let constants = vec![f.element(1); 6];
    RescueHash::new(Rc::clone(f), 1, 1, f.element(5), mds, constants)
}

#[test]
fn test_new() {
    let finite_field = Rc::new(FiniteField::new(97, 1));
    let alpha = finite_field.element(5);
    let mds_matrix = vec![
        vec![finite_field.random_element(), finite_field.random_element()],
        vec![finite_field.random_element(), finite_field.random_element()],
    ];
    let constants = vec![finite_field.random_element(); 108];
    let hash_func = RescueHash::new(Rc::clone(&finite_field), 1, 1, alpha, mds_matrix, constants);
    let hash = hash_func.hash(finite_field.element(15));

    println!("Hash: {}", hash.value());
    assert!((0..97).contains(&hash.value()));
}

#[test]
fn inverse_exponent_is_the_field_inverse() {
    let f = Rc::new(FiniteField::new(97, 1));
    let h = small_hasher(&f);
    assert_eq!(h.alpha_inv.value(), 39);
}

#[test]
fn hash_matches_the_two_round_permutation() {
    let f = Rc::new(FiniteField::new(97, 1));
    let h = small_hasher(&f);
    assert_eq!(h.hash(f.element(15)).value(), 2);
    assert_eq!(h.hash(f.element(0)).value(), 4);
    assert_eq!(h.hash(f.element(3)).value(), 71);
    assert_eq!(h.hash(f.element(14)).value(), 43);
}

#[test]
fn hash_is_deterministic() {
    let f = Rc::new(FiniteField::new(97, 1));
    let h = small_hasher(&f);
    for v in 0..97 {
        assert_eq!(h.hash(f.element(v)), h.hash(f.element(v)));
    }
}

#[test]
fn wider_state_uses_every_matrix_entry() {
    let f = Rc::new(FiniteField::new(97, 1));
    let mds = vec![
        vec![f.element(2), f.element(0), f.element(1)],
        vec![f.element(1), f.element(1), f.element(0)],
        vec![f.element(0), f.element(3), f.element(1)],
    ];
    let constants: Vec<_> = (0..12).map(|v| f.element(v)).collect();
    let h = RescueHash::new(Rc::clone(&f), 1, 2, f.element(5), mds, constants);
    assert_eq!(h.hash(f.element(15)).value(), 79);
}

#[test]
fn default_hasher_uses_the_reference_configuration() {
    let h = RescueHash::default();
    assert_eq!(h.finite_field.prime, 97);
    assert_eq!(h.rate, 1);
    assert_eq!(h.capacity, 1);
    assert_eq!(h.alpha.value(), 5);
    assert_eq!(h.alpha_inv.value(), 39);
    let f = Rc::clone(&h.finite_field);
    assert!((0..97).contains(&h.hash(f.element(15)).value()));
}
