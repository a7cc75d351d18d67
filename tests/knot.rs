use knot_hash::{as_hex_string, convert_lengths, dense_hash, hash, knot_hash, swap_slice};

#[test]
fn swap_slice_simple_odd() {
    let mut data = [1u8, 2, 3, 4, 5];
    swap_slice(&mut data, 0, 2);
    assert_eq!([3, 2, 1, 4, 5], data);
}

#[test]
fn swap_slice_simple_even() {
    let mut data = [1u8, 2, 3, 4, 5];
    swap_slice(&mut data, 0, 3);
    assert_eq!([4, 3, 2, 1, 5], data);
}

#[test]
fn swap_circular_odd() {
    let mut data = [1u8, 2, 3, 4, 5];
    swap_slice(&mut data, 3, 0);
    assert_eq!([4, 2, 3, 1, 5], data);
}

#[test]
fn swap_circular_even() {
    let mut data = [1u8, 2, 3, 4, 5];
    swap_slice(&mut data, 3, 1);
    assert_eq!([5, 4, 3, 2, 1], data);
}

#[test]
fn process_hash() {
    let mut ring = [0u8, 1, 2, 3, 4];
    let lengths = [3u8, 4, 1, 5];
    hash(&mut ring, &lengths);
    assert_eq!([3, 4, 2, 1, 0], ring);
}

#[test]
fn process_hash_zero_length_should_do_nothing() {
    let mut orig = [0u8, 1, 2, 3, 4];
    let mut ring = orig.clone();
    let mut lengths = vec![3u8, 4, 1, 5];

    hash(&mut orig, &lengths);
    let expected = orig;

    lengths.push(0);
    hash(&mut ring, &lengths);

    assert_eq!(expected, ring);
}

#[test]
fn test_convert_lengths() {
    assert_eq!(vec![49, 44, 50, 44, 51], convert_lengths("1,2,3"))
}

#[test]
fn dense_hash_simple() {
    assert_eq!(
        vec![64],
        dense_hash(&vec![65, 27, 9, 1, 4, 3, 40, 50, 91, 7, 6, 0, 2, 5, 68, 22])
    )
}

#[test]
fn dense_hash_two() {
    assert_eq!(
        vec![64, 41],
        dense_hash(&vec![
            65, 27, 9, 1, 4, 3, 40, 50, 91, 7, 6, 0, 2, 5, 68, 22, 65, 27, 9, 1, 4, 3, 40, 0, 0,
            7, 6, 0, 2, 5, 68, 22
        ])
    )
}

#[test]
fn test_as_hex_str() {
    assert_eq!("ae021f12".to_string(), as_hex_string(&vec![0xae, 0x02, 0x1f, 0x12]))
}

#[test]
fn integration_0() {
    assert_eq!("a2582a3a0e66e6e86e3812dcb672a272", as_hex_string(&knot_hash("")))
}

#[test]
fn integration_1() {
    assert_eq!("33efeb34ea91902bb2f59c9920caa6cd", as_hex_string(&knot_hash("AoC 2017")))
}

#[test]
fn integration_2() {
    assert_eq!("3efbe78a8d82f29979031a4aa0b16a9d", as_hex_string(&knot_hash("1,2,3")))
}

#[test]
fn integration_3() {
    assert_eq!("63960835bcdc130f0b66d7ff4f6a5a8e", as_hex_string(&knot_hash("1,2,4")))
}
