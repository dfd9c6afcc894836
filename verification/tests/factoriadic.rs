use eight_puzzle::factoriadic::{get_ith, Factoriadic};

#[test]
fn factoriadic_digits_of_small_numbers() {
    // digits least significant first; place k has radix k + 1
    assert_eq!(Factoriadic::new(0).0, vec![0]);
    assert_eq!(Factoriadic::new(1).0, vec![0, 1]);
    assert_eq!(Factoriadic::new(2).0, vec![0, 0, 1]);
    assert_eq!(Factoriadic::new(3).0, vec![0, 1, 1]);
    assert_eq!(Factoriadic::new(4).0, vec![0, 0, 2]);
    assert_eq!(Factoriadic::new(5).0, vec![0, 1, 2]);
    assert_eq!(Factoriadic::new(6).0, vec![0, 0, 0, 1]);
    assert_eq!(Factoriadic::new(23).0, vec![0, 1, 2, 3]);
    assert_eq!(Factoriadic::new(24).0, vec![0, 0, 0, 0, 1]);
}

#[test]
fn factoriadic_digits_are_bounded_by_their_place() {
    for n in 0..720u64 {
        let digits = Factoriadic::new(n).0;
        for (k, &d) in digits.iter().enumerate() {
            assert!(d <= k as u64);
        }
    }
}

#[test]
fn rev_vec_is_most_significant_first() {
    assert_eq!(Factoriadic::new(5).to_rev_vec(), vec![2, 1, 0]);
    assert_eq!(Factoriadic::new(0).to_rev_vec(), vec![0]);
}

#[test]
fn add_doubles_a_number() {
    // both operands come from the same number, so their sizes agree
    let sum = Factoriadic::new(7).add(Factoriadic::new(7));
    // 14 = 2 * 3! + 1 * 2!
    assert_eq!(sum.0, vec![0, 0, 1, 2]);
}

#[test]
fn add_carries_into_a_new_place() {
    // 5 + 5 = 10 = 1 * 3! + 2 * 2!: the carry grows the digit vector
    let sum = Factoriadic::new(5).add(Factoriadic::new(5));
    assert_eq!(sum.0, vec![0, 0, 2, 1]);
}

#[test]
fn get_ith_enumerates_permutations_in_order() {
    let items: Vec<u64> = vec![1, 2, 3];
    assert_eq!(get_ith(&items, 0), vec![1, 2, 3]);
    assert_eq!(get_ith(&items, 1), vec![1, 3, 2]);
    assert_eq!(get_ith(&items, 2), vec![2, 1, 3]);
    assert_eq!(get_ith(&items, 3), vec![2, 3, 1]);
    assert_eq!(get_ith(&items, 4), vec![3, 1, 2]);
    assert_eq!(get_ith(&items, 5), vec![3, 2, 1]);
}

#[test]
fn get_ith_of_ten_items() {
    let items: Vec<u64> = vec![1, 2, 3, 4, 5, 6, 7, 8, 9, 10];
    assert_eq!(get_ith(&items, 0), vec![1, 2, 3, 4, 5, 6, 7, 8, 9, 10]);
    assert_eq!(get_ith(&items, 1), vec![1, 2, 3, 4, 5, 6, 7, 8, 10, 9]);
    assert_eq!(get_ith(&items, 2), vec![1, 2, 3, 4, 5, 6, 7, 9, 8, 10]);
    assert_eq!(get_ith(&items, 3093889), vec![9, 5, 7, 10, 1, 4, 2, 3, 8, 6]);
}

#[test]
fn get_ith_results_are_permutations() {
    let items: Vec<u64> = vec![1, 2, 3, 4];
    for i in 0..24u64 {
        let mut perm = get_ith(&items, i);
        perm.sort();
        assert_eq!(perm, items);
    }
}

#[test]
fn get_ith_of_many_items() {
    // with more than 21 elements the leading factorial weights exceed any
    // u64 index, so the head elements stay in place
    let items: Vec<u64> = (1..=25).collect();
    let mut expected: Vec<u64> = (1..=22).collect();
    expected.extend_from_slice(&[24, 25, 23]);
    assert_eq!(get_ith(&items, 3), expected);
}
