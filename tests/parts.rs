use knot_hash::{
    as_hex_string, dense_hash, hash, knot_hash, parse_lengths, sparse_hash, swap_slice,
};

#[test]
fn swap_twice_restores() {
    let original = [9u8, 8, 7, 6, 5, 4, 3];
    let mut data = original;
    swap_slice(&mut data, 5, 9);
    assert_ne!(original, data);
    swap_slice(&mut data, 5, 9);
    assert_eq!(original, data);
}

#[test]
fn swap_whole_ring_from_the_end() {
    let mut data = [1u8, 2, 3, 4, 5];
    swap_slice(&mut data, 4, 3);
    assert_eq!([3, 2, 1, 5, 4], data);
}

#[test]
fn swap_single_element_is_no_change() {
    let mut data = [1u8, 2, 3, 4, 5];
    swap_slice(&mut data, 2, 2);
    assert_eq!([1, 2, 3, 4, 5], data);
}

#[test]
fn swap_indices_beyond_the_length_wrap() {
    let mut data = [1u8, 2, 3, 4, 5];
    swap_slice(&mut data, 7, 9);
    assert_eq!([1, 2, 5, 4, 3], data);
}

#[test]
fn zero_length_in_the_middle_only_advances() {
    let mut ring = [0u8, 1, 2, 3, 4];
    hash(&mut ring, &[3, 0, 4, 1, 5]);
    assert_eq!([4, 2, 1, 0, 3], ring);
}

#[test]
fn length_longer_than_ring_wraps_to_one_element() {
    let mut ring = [0u8, 1, 2, 3, 4, 5, 6, 7];
    hash(&mut ring, &[9]);
    assert_eq!([0, 1, 2, 3, 4, 5, 6, 7], ring);
}

#[test]
fn sparse_hash_single_cycle() {
    let r = sparse_hash(5, vec![3, 4, 1, 5], vec![], 1);
    assert_eq!(vec![3, 4, 2, 1, 0], r);
    assert_eq!(12, r[0] as u32 * r[1] as u32);
}

#[test]
fn sparse_hash_keeps_counters_across_cycles() {
    assert_eq!(vec![2, 1, 4, 3, 0], sparse_hash(5, vec![3, 4], vec![1, 5], 2));
}

#[test]
fn sparse_hash_without_cycles_is_identity() {
    let r = sparse_hash(300, vec![3, 4], vec![1], 0);
    assert_eq!(300, r.len());
    assert_eq!(255, r[255]);
    assert_eq!(0, r[256]);
    assert_eq!(43, r[299]);
}

#[test]
fn parse_plain_lengths() {
    assert_eq!(Some(vec![3, 4, 1, 5]), parse_lengths("3,4,1,5"));
    assert_eq!(Some(vec![255, 0]), parse_lengths("255,0"));
    assert_eq!(Some(vec![7]), parse_lengths("+007"));
}

#[test]
fn parse_rejects_bad_lengths() {
    assert_eq!(None, parse_lengths("256"));
    assert_eq!(None, parse_lengths("3,x"));
    assert_eq!(None, parse_lengths(""));
    assert_eq!(None, parse_lengths("1,,2"));
    assert_eq!(None, parse_lengths("1, 2"));
    assert_eq!(None, parse_lengths("+"));
    assert_eq!(None, parse_lengths("-1"));
}

#[test]
fn dense_hash_lengths() {
    assert_eq!(Vec::<u8>::new(), dense_hash(&[]));
    assert_eq!(3, dense_hash(&[0u8; 48]).len());
    assert_eq!(vec![0, 252], dense_hash(&[
        0u8, 0, 0, 0, 0, 0, 0, 0, 0, 0, 0, 0, 0, 0, 0, 0, 1, 2, 4, 8, 16, 32, 64, 128, 3
    ]));
}

#[test]
fn hex_pads_with_zero() {
    assert_eq!("0a", as_hex_string(&[10]));
    assert_eq!("00ff", as_hex_string(&[0, 255]));
    assert_eq!("", as_hex_string(&[]));
}

#[test]
fn knot_hash_is_sixteen_bytes() {
    assert_eq!(16, knot_hash("some longer input text").len());
}
