use bolt::data::shuffle_in_place;

#[test]
fn shuffle_gives_known_orders() {
    let mut v: Vec<usize> = (0..5).collect();
    shuffle_in_place(&mut v, 42);
    assert_eq!(v, vec![1, 4, 3, 0, 2]);
    let mut w: Vec<usize> = (0..8).collect();
    shuffle_in_place(&mut w, 0);
    assert_eq!(w, vec![0, 3, 2, 4, 7, 5, 6, 1]);
}

#[test]
fn shuffle_is_a_deterministic_permutation() {
    let mut a: Vec<usize> = (0..100).collect();
    let mut b: Vec<usize> = (0..100).collect();
    shuffle_in_place(&mut a, 0x9E3779B97F4A7C15);
    shuffle_in_place(&mut b, 0x9E3779B97F4A7C15);
    assert_eq!(a, b);
    let mut sorted = a.clone();
    sorted.sort();
    assert_eq!(sorted, (0..100).collect::<Vec<usize>>());
}

#[test]
fn shuffle_of_short_slices_is_identity() {
    let mut empty: Vec<usize> = vec![];
    shuffle_in_place(&mut empty, 7);
    assert!(empty.is_empty());
    let mut one = vec![9usize];
    shuffle_in_place(&mut one, 7);
    assert_eq!(one, vec![9]);
}
