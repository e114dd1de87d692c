use parmap::calculate_block_size;
use parmap::apply_to_all;
use parmap::compute;
use parmap::concat_blocks;
use parmap::split_into_blocks;

fn double(x: u64) -> u64 {
    2 * x
}

fn increment(x: u64) -> u64 {
    x + 1
}

fn square(x: u64) -> u64 {
    x * x
}

#[test]
fn empty_input_returns_empty() {
    let v: Vec<u64> = vec![];
    let r = compute(v, double, 1, 4);
    assert_eq!(r, Vec::<u64>::new());
}

#[test]
fn small_input_maps_in_order() {
    let r = compute(vec![1, 2], double, 10, 4);
    assert_eq!(r, vec![2, 4]);
}

#[test]
fn large_input_maps_in_order() {
    let v: Vec<u64> = (1..=100).collect();
    let r = compute(v, increment, 10, 4);
    let expected: Vec<u64> = (2..=101).collect();
    assert_eq!(r, expected);
}

#[test]
fn output_length_equals_input_length() {
    for threshold in [1, 2, 5, 50] {
        for max_blocks in [1, 3, 8] {
            let v: Vec<u64> = (0..37).collect();
            let r = compute(v, square, threshold, max_blocks);
            assert_eq!(r.len(), 37);
        }
    }
}

#[test]
fn every_position_is_transformed() {
    for threshold in [1, 4, 100] {
        for max_blocks in [1, 2, 7] {
            let v: Vec<u64> = (0..25).collect();
            let r = compute(v.clone(), square, threshold, max_blocks);
            for i in 0..v.len() {
                assert_eq!(r[i], square(v[i]));
            }
        }
    }
}

#[test]
fn result_does_not_depend_on_max_blocks() {
    let a = compute(vec![1, 2, 3, 4, 5], square, 2, 1);
    let b = compute(vec![1, 2, 3, 4, 5], square, 2, 10);
    assert_eq!(a, b);
    assert_eq!(a, vec![1, 4, 9, 16, 25]);
}

#[test]
fn block_size_rounds_up_on_remainder() {
    assert_eq!(calculate_block_size(10, 3, 3), 4);
}

#[test]
fn block_size_stays_exact_without_remainder() {
    assert_eq!(calculate_block_size(9, 3, 3), 3);
}

#[test]
fn block_size_clamps_to_minimum() {
    assert_eq!(calculate_block_size(5, 4, 10), 4);
}

#[test]
fn block_count_never_exceeds_max_blocks() {
    for len in [0usize, 1, 5, 10, 37, 100] {
        for min_size in [1usize, 3, 10] {
            for max_blocks in [1usize, 2, 4, 9] {
                let bsize = calculate_block_size(len, min_size, max_blocks);
                let v: Vec<u64> = (0..len as u64).collect();
                let blocks = split_into_blocks(v, bsize);
                assert!(blocks.len() <= max_blocks);
            }
        }
    }
}

#[test]
fn split_partitions_contiguously() {
    let v: Vec<u64> = (1..=10).collect();
    let blocks = split_into_blocks(v, 4);
    assert_eq!(blocks, vec![vec![1, 2, 3, 4], vec![5, 6, 7, 8], vec![9, 10]]);
}

#[test]
fn split_of_empty_input_gives_no_blocks() {
    let v: Vec<u64> = vec![];
    let blocks = split_into_blocks(v, 3);
    assert!(blocks.is_empty());
}

#[test]
fn split_then_concat_restores_input() {
    for bsize in [1usize, 2, 3, 7, 50] {
        let v: Vec<u64> = (0..23).collect();
        let blocks = split_into_blocks(v.clone(), bsize);
        assert_eq!(concat_blocks(blocks), v);
    }
}

#[test]
fn concat_joins_blocks_in_order() {
    let blocks = vec![vec![1, 2], vec![], vec![3], vec![4, 5, 6]];
    assert_eq!(concat_blocks(blocks), vec![1, 2, 3, 4, 5, 6]);
}

#[test]
fn apply_to_all_maps_every_element_in_order() {
    let r = apply_to_all(vec![3, 1, 4, 1, 5], double);
    assert_eq!(r, vec![6, 2, 8, 2, 10]);
}

#[test]
fn apply_to_all_of_empty_is_empty() {
    let r = apply_to_all(Vec::<u64>::new(), double);
    assert!(r.is_empty());
}
