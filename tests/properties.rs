use eprmutate::fix_length;
use eprmutate::permutation;
use eprmutate::permutation_number;
use eprmutate::permutation_number_unsafe;
use eprmutate::Permutation;
use eprmutate::PermutationRemainder;

fn perm(v: Vec<u8>) -> Permutation {
    Permutation { v }
}

#[test]
fn round_trip_on_samples() {
    let samples: [u128; 8] = [0, 1, 5, 719, 720, 123456789, u128::MAX / 3, u128::MAX];
    for n in samples {
        assert_eq!(permutation_number(&permutation(n)), Some(n));
        assert_eq!(permutation_number_unsafe(&permutation(n)), n);
    }
}

#[test]
fn stepping_agrees_with_construction() {
    for n in [0u128, 1, 2, 5, 6, 23, 24, 119, 120, 5039, u128::MAX - 2] {
        assert_eq!(PermutationRemainder::new(n).next_unsafe(), PermutationRemainder::new(n + 1));
        assert_eq!(PermutationRemainder::new(n).next(), Some(PermutationRemainder::new(n + 1)));
        assert_eq!(PermutationRemainder::new(n + 1).prev(), Some(PermutationRemainder::new(n)));
    }
}

#[test]
fn zero_has_no_predecessor() {
    assert_eq!(PermutationRemainder::new(0).prev(), None);
    assert_eq!(PermutationRemainder::new(0).permutation_number(), Some(0));
    assert_eq!(PermutationRemainder::new(0).permutation().v, vec![0]);
}

#[test]
fn max_boundary() {
    let top = PermutationRemainder::new(u128::MAX);
    assert_eq!(top.next(), None);
    let beyond = top.next_unsafe();
    assert_eq!(beyond.permutation_number(), None);
    assert_eq!(beyond.permutation_number_unsafe(), 0);
    assert_eq!(beyond.prev(), Some(PermutationRemainder::new(u128::MAX)));
    assert_eq!(PermutationRemainder::new(u128::MAX - 1).next(), Some(top));
}

#[test]
fn concrete_vectors() {
    assert_eq!(permutation(0).v, vec![0]);
    assert_eq!(permutation(1).v, vec![1, 0]);
    assert_eq!(permutation(2).v, vec![0, 2, 1]);
    assert_eq!(permutation(6).v, vec![0, 1, 3, 2]);
    assert_eq!(permutation(10).v, vec![2, 0, 3, 1]);
}

#[test]
fn chained_stepping() {
    let pr = PermutationRemainder::new(7);
    assert_eq!(pr.permutation().v, vec![1, 0, 3, 2]);
    let pr = pr.next().unwrap();
    assert_eq!(pr.permutation(), permutation(8));
    assert_eq!(pr.permutation().v, vec![0, 2, 3, 1]);
    let pr = pr.next().unwrap();
    assert_eq!(pr.permutation(), permutation(9));
    assert_eq!(pr.permutation().v, vec![1, 2, 3, 0]);
    let pr = pr.next().unwrap();
    assert_eq!(pr.permutation(), permutation(10));
    assert_eq!(pr.permutation().v, vec![2, 0, 3, 1]);
    assert_eq!(pr.permutation_number(), Some(10));
}

#[test]
fn length_extension() {
    assert_eq!(permutation(0).fix_length(3), Some(vec![0, 1, 2]));
    assert_eq!(permutation(1).fix_length(3), Some(vec![1, 0, 2]));
    assert_eq!(permutation(5).fix_length(3), Some(vec![2, 1, 0]));
    assert_eq!(permutation(6).fix_length(3), None);
    assert_eq!(permutation(6).fix_length(4), Some(vec![0, 1, 3, 2]));
    assert_eq!(perm(vec![]).fix_length(2), Some(vec![0, 1]));
    let mut v: Vec<u8> = vec![2, 0, 1];
    assert!(!fix_length(2, &mut v));
    assert_eq!(v, vec![2, 0, 1]);
    assert!(fix_length(5, &mut v));
    assert_eq!(v, vec![2, 0, 1, 3, 4]);
}

#[test]
fn decoding_ignores_trailing_fixed_points() {
    let p = perm(vec![1, 0, 2, 3, 4]);
    assert_eq!(permutation_number(&p), Some(1));
    assert_eq!(PermutationRemainder::from_permutation(&p), Some(PermutationRemainder::new(1)));
    assert_eq!(permutation_number(&perm(vec![0, 1, 2])), Some(0));
    assert_eq!(PermutationRemainder::from_permutation_unsafe(&perm(vec![0, 1, 2])), PermutationRemainder::new(0));
}

#[test]
fn malformed_permutations_are_rejected() {
    assert_eq!(PermutationRemainder::from_permutation(&perm(vec![])), None);
    assert_eq!(PermutationRemainder::from_permutation(&perm(vec![1])), None);
    assert_eq!(PermutationRemainder::from_permutation(&perm(vec![0, 0])), None);
    assert_eq!(PermutationRemainder::from_permutation(&perm(vec![1, 2, 0, 5])), None);
    assert_eq!(PermutationRemainder::from_permutation(&perm(vec![2, 2, 1])), None);
    assert_eq!(permutation_number(&perm(vec![3, 0, 1])), None);
}

#[test]
fn checked_number_overflows() {
    let reversed: Vec<u8> = (0..40u8).rev().collect();
    let p = perm(reversed);
    assert!(PermutationRemainder::from_permutation(&p).is_some());
    assert_eq!(permutation_number(&p), None);
}

#[test]
fn unchecked_number_wraps() {
    let beyond = PermutationRemainder::new(u128::MAX).next_unsafe();
    let p = beyond.permutation();
    assert_eq!(permutation_number(&p), None);
    assert_eq!(permutation_number_unsafe(&p), 0);
    let two_past = beyond.next_unsafe();
    assert_eq!(two_past.permutation_number_unsafe(), 1);
}

#[test]
fn exact_values_of_digits() {
    assert_eq!(PermutationRemainder::new(23).permutation().v, vec![3, 2, 1, 0]);
    assert_eq!(PermutationRemainder::new(23).next_unsafe().permutation().v, vec![0, 1, 2, 4, 3]);
    assert_eq!(PermutationRemainder::new(24).permutation_number_unsafe(), 24);
    assert_eq!(PermutationRemainder::new(24).prev(), Some(PermutationRemainder::new(23)));
}
