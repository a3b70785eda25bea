use bitonic_sort::keys::{decode_f32_bits, encode_f32_bits, SortableKey};
use bitonic_sort::network::{next_power_of_two_u32, num_stages_u32, pow2_u32, schedule};
use bitonic_sort::runner::{cpu_compare_exchange_pass, CpuRunner, SortRunner};
use bitonic_sort::sorting::{finalize_data, pad_data, prepare_data, run_bitonic_stages, verify_sorted};
use bitonic_sort::types::{
    BitonicParams, CompareDirection, Pass, PushConstants, SortOrder, Stage, ThreadId,
    WORKGROUP_SIZE,
};

#[test]
fn u32_encoding_is_the_identity() {
    for v in [0u32, 1, 42, u32::MAX / 2, u32::MAX] {
        assert_eq!(v.to_sortable_u32(), v);
        assert_eq!(u32::from_sortable_u32(v), v);
    }
    assert_eq!(<u32 as SortableKey>::max_value(), u32::MAX);
    assert_eq!(<u32 as SortableKey>::min_value(), u32::MIN);
}

#[test]
fn i32_encoding_round_trips_and_flips_the_sign_bit() {
    for v in [i32::MIN, -1000000, -1, 0, 1, 7, i32::MAX] {
        let encoded = v.to_sortable_u32();
        assert_eq!(encoded, (v as u32) ^ 0x8000_0000);
        assert_eq!(i32::from_sortable_u32(encoded), v);
    }
    assert_eq!(0i32.to_sortable_u32(), 0x8000_0000);
    assert_eq!(i32::MIN.to_sortable_u32(), 0);
    assert_eq!(i32::MAX.to_sortable_u32(), u32::MAX);
    assert_eq!(<i32 as SortableKey>::max_value(), i32::MAX);
    assert_eq!(<i32 as SortableKey>::min_value(), i32::MIN);
}

#[test]
fn f32_bit_encoding_round_trips() {
    for v in [
        0.0f32,
        -0.0,
        1.5,
        -1.5,
        std::f32::consts::PI,
        f32::MIN_POSITIVE,
        -f32::MIN_POSITIVE,
        f32::MAX,
        f32::MIN,
        f32::INFINITY,
        f32::NEG_INFINITY,
    ] {
        let bits = v.to_bits();
        assert_eq!(decode_f32_bits(encode_f32_bits(bits)), bits);
    }
}

#[test]
fn encodings_preserve_order() {
    let u32_pairs = [(0u32, 1u32), (7, 999), (u32::MAX - 1, u32::MAX)];
    for (a, b) in u32_pairs {
        assert!(a.to_sortable_u32() < b.to_sortable_u32());
    }
    let i32_pairs = [(i32::MIN, -1i32), (-1, 0), (0, 1), (-256, 128), (1, i32::MAX)];
    for (a, b) in i32_pairs {
        assert!(a.to_sortable_u32() < b.to_sortable_u32());
    }
    let f32_pairs = [
        (f32::NEG_INFINITY, -99.9f32),
        (-99.9, -2.71),
        (-2.71, -0.0),
        (0.0, 1.41),
        (1.41, 42.0),
        (42.0, f32::INFINITY),
    ];
    for (a, b) in f32_pairs {
        assert!(encode_f32_bits(a.to_bits()) < encode_f32_bits(b.to_bits()));
    }
}

#[test]
fn should_swap_follows_the_requested_order() {
    assert!(3u32.should_swap(&2, SortOrder::Ascending));
    assert!(!2u32.should_swap(&3, SortOrder::Ascending));
    assert!(!2u32.should_swap(&2, SortOrder::Ascending));
    assert!(2i32.should_swap(&3, SortOrder::Descending));
    assert!(!3i32.should_swap(&2, SortOrder::Descending));
}

#[test]
fn sort_order_names_itself() {
    assert_eq!(SortOrder::Ascending.name(), "ascending");
    assert_eq!(SortOrder::Descending.name(), "descending");
}

#[test]
fn sort_order_round_trips_through_its_code() {
    assert_eq!(SortOrder::Ascending.as_u32(), 0);
    assert_eq!(SortOrder::Descending.as_u32(), 1);
    assert_eq!(SortOrder::try_from_u32(0), Ok(SortOrder::Ascending));
    assert_eq!(SortOrder::try_from_u32(1), Ok(SortOrder::Descending));
    assert!(SortOrder::try_from_u32(2).is_err());
    assert!(SortOrder::try_from_u32(u32::MAX).is_err());
}

#[test]
fn coordinate_newtypes_expose_their_values() {
    let t = ThreadId::new(17);
    assert_eq!(t.as_u32(), 17);
    assert_eq!(t.as_usize(), 17usize);
    assert_eq!(Stage::new(3).as_u32(), 3);
    assert_eq!(Pass::new(2).as_u32(), 2);
    let pc = PushConstants { num_elements: 8 };
    assert_eq!(pc.num_elements, 8);
    assert_eq!(WORKGROUP_SIZE, 256);
}

#[test]
fn compare_direction_from_bool() {
    assert_eq!(CompareDirection::from_bool(true), CompareDirection::Up);
    assert_eq!(CompareDirection::from_bool(false), CompareDirection::Down);
    assert!(CompareDirection::Up.is_ascending());
    assert!(!CompareDirection::Down.is_ascending());
}

#[test]
fn power_helpers_compute_exact_values() {
    assert_eq!(pow2_u32(0), 1);
    assert_eq!(pow2_u32(5), 32);
    assert_eq!(pow2_u32(31), 0x8000_0000);
    assert_eq!(next_power_of_two_u32(0), 1);
    assert_eq!(next_power_of_two_u32(1), 1);
    assert_eq!(next_power_of_two_u32(2), 2);
    assert_eq!(next_power_of_two_u32(3), 4);
    assert_eq!(next_power_of_two_u32(1000), 1024);
    assert_eq!(next_power_of_two_u32(0x8000_0000), 0x8000_0000);
    assert_eq!(num_stages_u32(1), 0);
    assert_eq!(num_stages_u32(8), 3);
    assert_eq!(num_stages_u32(1024), 10);
}

#[test]
fn schedule_lists_stages_and_passes_in_order() {
    let sched = schedule(8);
    let codes: Vec<(u32, u32)> = sched.iter().map(|sp| (sp.0.as_u32(), sp.1.as_u32())).collect();
    assert_eq!(codes, vec![(0, 0), (1, 0), (1, 1), (2, 0), (2, 1), (2, 2)]);
    assert_eq!(schedule(1).len(), 0);
    assert_eq!(schedule(1024).len(), 55);
}

#[test]
fn pad_data_appends_order_sentinels() {
    let mut asc = vec![3u32, 1, 2];
    pad_data(&mut asc, 3, SortOrder::Ascending);
    assert_eq!(asc, vec![3, 1, 2, u32::MAX]);

    let mut desc = vec![5u32, 9, 8, 7, 6];
    pad_data(&mut desc, 5, SortOrder::Descending);
    assert_eq!(desc, vec![5, 9, 8, 7, 6, 0, 0, 0]);

    let mut exact = vec![4u32, 2];
    pad_data(&mut exact, 2, SortOrder::Ascending);
    assert_eq!(exact, vec![4, 2]);
}

#[test]
fn prepare_and_finalize_convert_through_keys() {
    let data = vec![-2i32, 0, 5];
    let (keys, len) = prepare_data(&data);
    assert_eq!(len, 3);
    assert_eq!(keys, vec![0x8000_0000 - 2, 0x8000_0000, 0x8000_0005]);

    let mut out = vec![0i32; 3];
    finalize_data(&keys, &mut out);
    assert_eq!(out, data);
}

#[test]
fn one_pass_compare_exchanges_each_pair() {
    let mut data = vec![5u32, 1];
    let params = BitonicParams {
        num_elements: 2,
        stage: Stage::new(0),
        pass_of_stage: Pass::new(0),
        sort_order: 0,
    };
    cpu_compare_exchange_pass(&mut data, params);
    assert_eq!(data, vec![1, 5]);

    let mut down = vec![1u32, 5];
    let desc = BitonicParams {
        num_elements: 2,
        stage: Stage::new(0),
        pass_of_stage: Pass::new(0),
        sort_order: 1,
    };
    cpu_compare_exchange_pass(&mut down, desc);
    assert_eq!(down, vec![5, 1]);
}

#[test]
fn run_bitonic_stages_sorts_a_power_of_two_buffer() {
    let runner = CpuRunner;
    let mut data = vec![8u32, 3, 5, 1, 7, 2, 6, 4];
    run_bitonic_stages(&runner, &mut data, SortOrder::Ascending).unwrap();
    assert_eq!(data, vec![1, 2, 3, 4, 5, 6, 7, 8]);
}

#[test]
fn verify_sorted_detects_disorder() {
    assert!(verify_sorted(&vec![1u32, 2, 2, 3], SortOrder::Ascending));
    assert!(!verify_sorted(&vec![1u32, 3, 2], SortOrder::Ascending));
    assert!(verify_sorted(&vec![3i32, 2, -2], SortOrder::Descending));
    assert!(!verify_sorted(&vec![3i32, 2, 4], SortOrder::Descending));
    assert!(verify_sorted(&Vec::<u32>::new(), SortOrder::Ascending));
    assert!(verify_sorted(&vec![9u32], SortOrder::Descending));
}

#[test]
fn backend_info_names_the_host() {
    let runner = CpuRunner;
    let (host, backend, adapter, driver) = runner.backend_info();
    assert_eq!(host, "native");
    assert_eq!(backend, Some("CPU"));
    assert!(adapter.is_none());
    assert!(driver.is_none());
}
