use wfc_engine::sampling::{lowest_entropy_cells, nth_lowest, pick_weighted, total_weight};

#[test]
fn total_weight_adds_the_tiles_of_the_domain() {
    let weights: Vec<u64> = vec![8, 4, 3];
    assert_eq!(total_weight(&weights, 0b000), 0);
    assert_eq!(total_weight(&weights, 0b001), 8);
    assert_eq!(total_weight(&weights, 0b110), 7);
    assert_eq!(total_weight(&weights, 0b111), 15);
    // tiles beyond the weights do not count
    assert_eq!(total_weight(&weights, 0b1111), 15);
}

#[test]
fn pick_weighted_gives_each_tile_its_share_of_the_draws() {
    let weights: Vec<u64> = vec![8, 4];
    for draw in 0..8u64 {
        assert_eq!(pick_weighted(&weights, 0b11, draw), 0);
    }
    for draw in 8..12u64 {
        assert_eq!(pick_weighted(&weights, 0b11, draw), 1);
    }
    for draw in 0..4u64 {
        assert_eq!(pick_weighted(&weights, 0b10, draw), 1);
    }
    for draw in 0..8u64 {
        assert_eq!(pick_weighted(&weights, 0b01, draw), 0);
    }
}

#[test]
fn pick_weighted_counts_match_the_weights() {
    let weights: Vec<u64> = vec![3, 5, 1, 7];
    let mask: u128 = 0b1011;
    let total = total_weight(&weights, mask);
    assert_eq!(total, 15);
    let mut counts = [0u64; 4];
    for draw in 0..total {
        counts[pick_weighted(&weights, mask, draw)] += 1;
    }
    assert_eq!(counts, [3, 5, 0, 7]);
}

#[test]
fn pick_weighted_falls_back_to_the_last_tile() {
    let weights: Vec<u64> = vec![8, 4, 2];
    assert_eq!(pick_weighted(&weights, 0b011, 12), 1);
    assert_eq!(pick_weighted(&weights, 0b011, 1000), 1);
    assert_eq!(pick_weighted(&weights, 0b111, 14), 2);
    assert_eq!(pick_weighted(&weights, 0b101, u64::MAX), 2);
}

#[test]
fn pick_weighted_on_an_empty_domain_gives_tile_zero() {
    let weights: Vec<u64> = vec![8, 4];
    assert_eq!(pick_weighted(&weights, 0, 0), 0);
    assert_eq!(pick_weighted(&weights, 0, 5), 0);
    assert_eq!(pick_weighted(&weights, 0b100, 0), 0);
}

#[test]
fn lowest_entropy_cells_lists_the_minimum() {
    assert_eq!(lowest_entropy_cells(&vec![3, 2, 5, 2, 1, 0, 2]), vec![1, 3, 6]);
    assert_eq!(lowest_entropy_cells(&vec![4, 4, 4]), vec![0, 1, 2]);
    assert_eq!(lowest_entropy_cells(&vec![1, 1, 7, 1]), vec![2]);
    assert_eq!(lowest_entropy_cells(&vec![5, 4, 3, 2]), vec![3]);
}

#[test]
fn lowest_entropy_cells_is_empty_when_all_are_settled() {
    assert_eq!(lowest_entropy_cells(&vec![]), Vec::<usize>::new());
    assert_eq!(lowest_entropy_cells(&vec![1, 1, 0, 1]), Vec::<usize>::new());
}

#[test]
fn lowest_entropy_cells_takes_the_largest_entropy_too() {
    assert_eq!(lowest_entropy_cells(&vec![1, usize::MAX, 1, usize::MAX]), vec![1, 3]);
}

#[test]
fn nth_lowest_takes_the_cells_in_ascending_order() {
    let entropy: Vec<usize> = vec![3, 2, 5, 2, 1, 0, 2];
    assert_eq!(nth_lowest(&entropy, 0), 1);
    assert_eq!(nth_lowest(&entropy, 1), 3);
    assert_eq!(nth_lowest(&entropy, 2), 6);
    let single: Vec<usize> = vec![1, 1, 7, 1];
    assert_eq!(nth_lowest(&single, 0), 2);
    let even: Vec<usize> = vec![4, 4, 4];
    for draw in 0..3 {
        assert_eq!(nth_lowest(&even, draw), draw);
    }
}
