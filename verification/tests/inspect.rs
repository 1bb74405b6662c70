use gguf_core::inspect::{
    approx_bytes, largest_tensors, per_element_bytes, total_approx_bytes, type_counts,
};
use gguf_core::types::GGUFTensor;

fn tensor(type_id: u32, dims: Vec<u64>) -> GGUFTensor {
    GGUFTensor { name: "t".into(), type_id, dims, offset: 0, values: Vec::new() }
}

#[test]
fn elements_have_their_rough_sizes() {
    assert_eq!(per_element_bytes(0), 4);
    assert_eq!(per_element_bytes(100), 1);
    assert_eq!(per_element_bytes(101), 2);
    assert_eq!(per_element_bytes(5), 4);
}

#[test]
fn a_tensor_takes_its_elements_times_their_size() {
    assert_eq!(approx_bytes(&tensor(0, vec![3, 5])), 60);
    assert_eq!(approx_bytes(&tensor(100, vec![3, 5])), 15);
    assert_eq!(approx_bytes(&tensor(101, vec![3, 5])), 30);
    assert_eq!(approx_bytes(&tensor(0, vec![])), 4);
    assert_eq!(approx_bytes(&tensor(0, vec![9, 0])), 0);
}

#[test]
fn sizes_stop_at_the_largest_number() {
    assert_eq!(approx_bytes(&tensor(0, vec![u64::MAX])), u64::MAX);
    assert_eq!(approx_bytes(&tensor(100, vec![u64::MAX])), u64::MAX);
    assert_eq!(approx_bytes(&tensor(100, vec![u64::MAX, 2])), u64::MAX);
    assert_eq!(
        total_approx_bytes(&[tensor(100, vec![u64::MAX]), tensor(100, vec![1])]),
        u64::MAX
    );
}

#[test]
fn sizes_add_up() {
    assert_eq!(total_approx_bytes(&[]), 0);
    assert_eq!(
        total_approx_bytes(&[tensor(0, vec![2]), tensor(100, vec![32]), tensor(101, vec![4, 4])]),
        8 + 32 + 32
    );
}

#[test]
fn type_codes_are_counted_in_the_order_of_their_first_tensor() {
    let tensors: Vec<GGUFTensor> =
        [100u32, 0, 100, 7, 0, 100].iter().map(|code| tensor(*code, vec![1])).collect();
    assert_eq!(type_counts(&tensors), vec![(100, 3), (0, 2), (7, 1)]);
    assert!(type_counts(&[]).is_empty());
}

#[test]
fn the_largest_tensors_come_first() {
    let tensors = vec![
        tensor(0, vec![2]),    // 8
        tensor(100, vec![20]), // 20
        tensor(0, vec![5]),    // 20
        tensor(101, vec![1]),  // 2
        tensor(0, vec![100]),  // 400
    ];
    assert_eq!(largest_tensors(&tensors, 6), vec![4, 1, 2, 0, 3]);
    assert_eq!(largest_tensors(&tensors, 3), vec![4, 1, 2]);
    assert_eq!(largest_tensors(&tensors, 1), vec![4]);
    assert!(largest_tensors(&tensors, 0).is_empty());
    assert!(largest_tensors(&[], 6).is_empty());
}

#[test]
fn tensors_of_one_size_keep_their_order() {
    let tensors: Vec<GGUFTensor> = (0..8).map(|_| tensor(0, vec![3])).collect();
    assert_eq!(largest_tensors(&tensors, 6), vec![0, 1, 2, 3, 4, 5]);
}
