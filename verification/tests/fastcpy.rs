use lz4_flex::fastcpy::slice_copy;
use lz4_flex::simd::count_same_bytes_scalar;

#[test]
fn fastcpy_test_fast_short_slice_copy_edge_cases() {
    for len in 0..(512 * 2) {
        let left = (0..len).map(|i| i as u8).collect::<Vec<_>>();
        let mut right = vec![0u8; len];
        slice_copy(&left, &mut right);
        assert_eq!(left, right);
    }
}

#[test]
fn fastcpy_test_fail2() {
    let left = vec![
        0, 1, 2, 3, 4, 5, 6, 7, 8, 9, 10, 11, 12, 13, 14, 15, 16, 17, 18, 19, 20, 21, 22, 23,
        24, 25, 26, 27, 28, 29, 30, 31, 32,
    ];
    let mut right = vec![0u8; left.len()];
    slice_copy(&left, &mut right);
    assert_eq!(left, right);
}

#[test]
fn fastcpy_test_fail() {
    let left = vec![
        0, 0, 0, 0, 0, 0, 0, 0, 0, 0, 0, 0, 0, 0, 0, 0, 0, 0, 0, 0, 0, 0, 0, 0, 0, 0, 0, 0, 0,
        0, 0, 0, 0, 0, 0, 0, 0, 0, 0, 0, 0, 0, 0, 0, 0, 0, 0, 0, 0, 0, 0, 0, 0, 0, 0, 0, 0, 0,
        0, 0, 0, 0, 0, 0, 1, 0, 0, 0, 0, 0, 0, 0, 0, 0, 0, 0, 0, 0, 0, 0, 0,
    ];
    let mut right = vec![0u8; left.len()];
    slice_copy(&left, &mut right);
    assert_eq!(left, right);
}

#[test]
fn slice_copy_overwrites_every_byte() {
    for len in [1usize, 2, 3, 4, 7, 8, 9, 16, 17, 32, 33, 100] {
        let left = vec![0xABu8; len];
        let mut right = vec![0x11u8; len];
        slice_copy(&left, &mut right);
        assert!(right.iter().all(|&b| b == 0xAB));
    }
}

#[test]
fn test_count_same_bytes_scalar() {
    let a = [1, 2, 3, 4, 5, 6, 7, 8, 9, 10];
    let b = [1, 2, 3, 4, 5, 0, 7, 8, 9, 10];
    assert_eq!(count_same_bytes_scalar(&a, &b), 5);

    let a = [1, 2, 3, 4, 5, 6, 7, 8];
    let b = [1, 2, 3, 4, 5, 6, 7, 8];
    assert_eq!(count_same_bytes_scalar(&a, &b), 8);

    let a = [0; 32];
    let b = [0; 32];
    assert_eq!(count_same_bytes_scalar(&a, &b), 32);

    let a = [1, 2, 3];
    let b = [9, 2, 3];
    assert_eq!(count_same_bytes_scalar(&a, &b), 0);
}

#[test]
fn count_same_bytes_scalar_stops_at_shorter_slice() {
    assert_eq!(count_same_bytes_scalar(&[7, 7, 7], &[7, 7, 7, 7, 7]), 3);
    assert_eq!(count_same_bytes_scalar(&[], &[1]), 0);
}
