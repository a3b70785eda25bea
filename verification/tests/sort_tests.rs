use bitonic_sort::keys::{decode_f32_bits, encode_f32_bits};
use bitonic_sort::runner::CpuRunner;
use bitonic_sort::sorting::verify_sorted;
use bitonic_sort::types::SortOrder;

#[test]
fn test_bitonic_u32() {
    let runner = CpuRunner;
    let mut data = vec![42u32, 7, 999, 0, 13, 256, 128, 511];

    runner.sort(&mut data, SortOrder::Ascending).unwrap();
    assert!(verify_sorted(&data, SortOrder::Ascending));
    assert_eq!(data, vec![0, 7, 13, 42, 128, 256, 511, 999]);
}

#[test]
fn test_bitonic_i32() {
    let runner = CpuRunner;
    let mut data = vec![-42i32, 7, -999, 0, 13, -256, 128, -1];

    runner.sort(&mut data, SortOrder::Ascending).unwrap();
    assert!(verify_sorted(&data, SortOrder::Ascending));
    assert_eq!(data, vec![-999, -256, -42, -1, 0, 7, 13, 128]);
}

#[test]
fn test_bitonic_f32() {
    let runner = CpuRunner;
    let data = vec![3.14f32, -2.71, 0.0, -0.0, 1.41, -99.9, 42.0];

    let mut keys: Vec<u32> = data.iter().map(|x| encode_f32_bits(x.to_bits())).collect();
    runner.sort(&mut keys, SortOrder::Ascending).unwrap();
    let sorted: Vec<f32> = keys.iter().map(|k| f32::from_bits(decode_f32_bits(*k))).collect();
    assert!(sorted.windows(2).all(|w| w[0] <= w[1]));
}

#[test]
fn test_bitonic_u32_descending() {
    let runner = CpuRunner;
    let mut data = vec![42u32, 7, 999, 0, 13, 256, 128, 511];

    runner.sort(&mut data, SortOrder::Descending).unwrap();
    assert!(verify_sorted(&data, SortOrder::Descending));
    assert_eq!(data, vec![999, 511, 256, 128, 42, 13, 7, 0]);
}

#[test]
fn test_bitonic_i32_descending() {
    let runner = CpuRunner;
    let mut data = vec![-42i32, 7, -999, 0, 13, -256, 128, -1];

    runner.sort(&mut data, SortOrder::Descending).unwrap();
    assert!(verify_sorted(&data, SortOrder::Descending));
    assert_eq!(data, vec![128, 13, 7, 0, -1, -42, -256, -999]);
}

#[test]
fn test_bitonic_f32_descending() {
    let runner = CpuRunner;
    let data = vec![3.14f32, -2.71, 0.0, -0.0, 1.41, -99.9, 42.0];

    let mut keys: Vec<u32> = data.iter().map(|x| encode_f32_bits(x.to_bits())).collect();
    runner.sort(&mut keys, SortOrder::Descending).unwrap();
    let sorted: Vec<f32> = keys.iter().map(|k| f32::from_bits(decode_f32_bits(*k))).collect();
    assert!(sorted.windows(2).all(|w| w[0] >= w[1]));
}

#[test]
fn empty_and_single_are_untouched() {
    let runner = CpuRunner;

    let mut empty: Vec<u32> = vec![];
    runner.sort(&mut empty, SortOrder::Ascending).unwrap();
    assert_eq!(empty, vec![]);
    runner.sort(&mut empty, SortOrder::Descending).unwrap();
    assert_eq!(empty, vec![]);

    let mut single = vec![-7i32];
    runner.sort(&mut single, SortOrder::Ascending).unwrap();
    assert_eq!(single, vec![-7]);
    runner.sort(&mut single, SortOrder::Descending).unwrap();
    assert_eq!(single, vec![-7]);
}

#[test]
fn sorting_twice_gives_the_identical_sequence() {
    let runner = CpuRunner;
    let mut data = vec![42u32, 7, 999, 0, 13, 256, 128, 511, 1, 64];
    runner.sort(&mut data, SortOrder::Ascending).unwrap();
    let once = data.clone();
    runner.sort(&mut data, SortOrder::Ascending).unwrap();
    assert_eq!(data, once);

    let mut desc = vec![-42i32, 7, -999, 0, 13, -256, 128, -1, 100, -100];
    runner.sort(&mut desc, SortOrder::Descending).unwrap();
    let once_desc = desc.clone();
    runner.sort(&mut desc, SortOrder::Descending).unwrap();
    assert_eq!(desc, once_desc);
}

#[test]
fn thousand_elements_sorted_with_same_length_and_values() {
    let runner = CpuRunner;
    let mut data = vec![0u32; 1000];
    for (i, v) in data.iter_mut().enumerate() {
        *v = ((i * 31337 + 42) % 1000) as u32;
    }
    let mut expected = data.clone();
    expected.sort();

    runner.sort(&mut data, SortOrder::Ascending).unwrap();
    assert_eq!(data.len(), 1000);
    assert!(verify_sorted(&data, SortOrder::Ascending));
    assert_eq!(data, expected);
}

#[test]
fn i32_special_values_ascending() {
    let runner = CpuRunner;
    let mut data = vec![
        -42i32,
        7,
        -999,
        0,
        13,
        -256,
        128,
        -1,
        i32::MAX,
        i32::MIN,
        i32::MAX / 2,
        i32::MIN / 2,
        -1000000,
        999999,
        -100,
        50,
    ];
    let mut expected = data.clone();
    expected.sort();

    runner.sort(&mut data, SortOrder::Ascending).unwrap();
    assert_eq!(data, expected);
}

#[test]
fn u32_special_values_descending() {
    let runner = CpuRunner;
    let mut data = vec![
        42u32,
        7,
        999,
        0,
        13,
        256,
        128,
        1,
        u32::MAX,
        u32::MIN,
        u32::MAX / 2,
        u32::MAX - 1,
        1000000,
        999999,
        100,
        50,
    ];
    let mut expected = data.clone();
    expected.sort();
    expected.reverse();

    runner.sort(&mut data, SortOrder::Descending).unwrap();
    assert_eq!(data, expected);
}

#[test]
fn f32_special_values_keep_infinities_at_the_ends() {
    let runner = CpuRunner;
    let data = vec![
        std::f32::consts::PI,
        -2.71,
        0.0,
        -0.0,
        1.41,
        -99.9,
        42.0,
        f32::INFINITY,
        f32::NEG_INFINITY,
    ];

    let mut keys: Vec<u32> = data.iter().map(|x| encode_f32_bits(x.to_bits())).collect();
    runner.sort(&mut keys, SortOrder::Ascending).unwrap();
    let sorted: Vec<f32> = keys.iter().map(|k| f32::from_bits(decode_f32_bits(*k))).collect();

    assert_eq!(sorted.len(), data.len());
    assert_eq!(sorted[0], f32::NEG_INFINITY);
    assert_eq!(sorted[sorted.len() - 1], f32::INFINITY);
    assert!(sorted.windows(2).all(|w| w[0] <= w[1]));
    // The two zeros end up adjacent, in either relative order.
    assert_eq!(sorted[3], 0.0);
    assert_eq!(sorted[4], 0.0);
    let signs = (sorted[3].is_sign_negative(), sorted[4].is_sign_negative());
    assert!(signs == (true, false) || signs == (false, true));
}

#[test]
fn non_power_of_two_lengths_never_leak_padding() {
    let runner = CpuRunner;
    for len in [2usize, 3, 5, 7, 9, 31, 33, 100] {
        let mut data: Vec<i32> = (0..len).map(|i| (i as i32 * 7919 % 101) - 50).collect();
        let mut expected = data.clone();
        expected.sort();
        runner.sort(&mut data, SortOrder::Ascending).unwrap();
        assert_eq!(data.len(), len);
        assert_eq!(data, expected);
    }
}
