use lexical_permutations::masked_vec::MaskedVec;

#[test]
fn masked_vec_test_from_vec() {
    let mvec = MaskedVec::from_vec(vec![1, 2, 3, 4]);
    assert_eq!(vec![1, 2, 3, 4], mvec.vec);
    assert_eq!(vec![false, false, false, false], mvec.mask);
    assert_eq!(4, mvec.length);
}

#[test]
fn test_get_actual_index() {
    let mut mvec = MaskedVec::from_vec(vec![1, 2, 3, 4]);
    mvec.mask_at_actual(1);
    assert_eq!(2, mvec.get_actual_index(1).unwrap());
    assert_eq!(3, mvec.get_actual_index(2).unwrap());

    mvec.mask_at_actual(2);
    assert_eq!(3, mvec.get_actual_index(1).unwrap());

    assert_eq!(None, mvec.get_actual_index(2));
    assert_eq!(None, mvec.get_actual_index(3));
}

#[test]
fn test_mask_at() {
    let mut mvec = MaskedVec::from_vec(vec![1, 2, 3, 4]);
    assert_eq!(vec![1, 2, 3, 4], mvec.vec);
    assert_eq!(vec![false, false, false, false], mvec.mask);
    assert_eq!(4, mvec.length);

    mvec.mask_at(0);
    assert_eq!(vec![1, 2, 3, 4], mvec.vec);
    assert_eq!(vec![true, false, false, false], mvec.mask);
    assert_eq!(3, mvec.length);

    mvec.mask_at(0);
    assert_eq!(vec![1, 2, 3, 4], mvec.vec);
    assert_eq!(vec![true, true, false, false], mvec.mask);
    assert_eq!(2, mvec.length);

    mvec.mask_at(0);
    assert_eq!(vec![1, 2, 3, 4], mvec.vec);
    assert_eq!(vec![true, true, true, false], mvec.mask);
    assert_eq!(1, mvec.length);

    mvec.mask_at(0);
    assert_eq!(vec![1, 2, 3, 4], mvec.vec);
    assert_eq!(vec![true, true, true, true], mvec.mask);
    assert_eq!(0, mvec.length);
}

#[test]
fn integration_test() {
    let mut mvec = MaskedVec::from_vec(vec![1, 2, 3, 4]);
    assert_eq!(vec![1, 2, 3, 4], mvec.vec);
    assert_eq!(vec![false, false, false, false], mvec.mask);
    assert_eq!(4, mvec.length);

    // masking by position
    mvec.mask_at_actual(2);
    assert_eq!(vec![1, 2, 3, 4], mvec.vec);
    assert_eq!(vec![false, false, true, false], mvec.mask);
    assert_eq!(3, mvec.length);

    // masking twice changes nothing more
    mvec.mask_at_actual(2);
    assert_eq!(vec![1, 2, 3, 4], mvec.vec);
    assert_eq!(vec![false, false, true, false], mvec.mask);
    assert_eq!(3, mvec.length);

    assert_eq!(false, mvec.is_masked_at(0));
    assert_eq!(false, mvec.is_masked_at(1));
    assert_eq!(true, mvec.is_masked_at(2));
    assert_eq!(false, mvec.is_masked_at(3));

    assert_eq!(1, mvec.get_at(0));
    assert_eq!(2, mvec.get_at(1));
    assert_eq!(4, mvec.get_at(2));

    mvec.set_at(2, 40);
    assert_eq!(vec![1, 2, 3, 40], mvec.vec);
    assert_eq!(vec![false, false, true, false], mvec.mask);
    assert_eq!(3, mvec.length);

    // unmasking by position
    mvec.unmask_at_actual(2);
    assert_eq!(vec![1, 2, 3, 40], mvec.vec);
    assert_eq!(vec![false, false, false, false], mvec.mask);
    assert_eq!(4, mvec.length);

    // unmasking twice changes nothing more
    mvec.unmask_at_actual(2);
    assert_eq!(vec![1, 2, 3, 40], mvec.vec);
    assert_eq!(vec![false, false, false, false], mvec.mask);
    assert_eq!(4, mvec.length);
}

#[test]
fn mask_then_unmask_restores_state() {
    let mut mvec = MaskedVec::from_vec(vec![7, 8, 9]);
    mvec.mask_at_actual(1);
    let length = mvec.length;
    let masked = mvec.is_masked_at(0);
    mvec.mask_at_actual(0);
    assert_eq!(length - 1, mvec.length);
    assert!(mvec.is_masked_at(0));
    mvec.unmask_at_actual(0);
    assert_eq!(length, mvec.length);
    assert_eq!(masked, mvec.is_masked_at(0));
    assert_eq!(vec![false, true, false], mvec.mask);
}

#[test]
fn rank_addressing_skips_masked_entries() {
    let mut mvec = MaskedVec::from_vec(vec![10, 20, 30, 40, 50]);
    mvec.mask_at(1);
    mvec.mask_at(2);
    assert_eq!(vec![false, true, false, true, false], mvec.mask);
    assert_eq!(10, mvec.get_at(0));
    assert_eq!(30, mvec.get_at(1));
    assert_eq!(50, mvec.get_at(2));
    mvec.set_at(1, 33);
    assert_eq!(vec![10, 20, 33, 40, 50], mvec.vec);
    assert_eq!(Some(4), mvec.get_actual_index(2));
    assert_eq!(None, mvec.get_actual_index(3));
}

#[test]
fn empty_masked_vec_has_no_ranks() {
    let mvec: MaskedVec<u8> = MaskedVec::from_vec(vec![]);
    assert_eq!(0, mvec.length);
    assert_eq!(None, mvec.get_actual_index(0));
}
