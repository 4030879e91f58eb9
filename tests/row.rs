use orby::row::PulseCellPack;
use orby::types::PulseCell;
use std::mem::{align_of, size_of};
use orby::types::LogicMode;
use orby::utils::match_u128_x2;
use orby::utils::{calculate_min_len, min_len_for};

#[test]
fn test_row_size_and_alignment() {
    // Dimension 1: 16bytes -> aligned to 64 bytes
    assert_eq!(size_of::<PulseCellPack<1>>(), 64);
    assert_eq!(align_of::<PulseCellPack<1>>(), 64);

    // Dimension 2: 32bytes -> aligned to 64 bytes
    assert_eq!(size_of::<PulseCellPack<2>>(), 64);
    assert_eq!(align_of::<PulseCellPack<2>>(), 64);

    // Dimension 4: 64bytes -> aligned to 64 bytes
    assert_eq!(size_of::<PulseCellPack<4>>(), 64);

    // Dimension 5: 80bytes -> aligned to 128 bytes
    assert_eq!(size_of::<PulseCellPack<5>>(), 128);
}

#[test]
fn pack_keeps_values_in_order() {
    let p = PulseCellPack::new([7u128, 8, 9]);
    assert_eq!(p.values[0].as_u128(), 7);
    assert_eq!(p.values[2].as_u128(), 9);
    assert_eq!(p.to_vec(), vec![7u128, 8, 9]);
    let q = PulseCellPack::from_fields([PulseCell::new(1), PulseCell::new(2)]);
    assert_eq!(q.to_vec(), vec![1u128, 2]);
}

#[test]
fn cell_bit_fields() {
    let c = PulseCell::pack(0xABCD_EF00_1234, 0x1F, 0x2E);
    assert_eq!(c.data(), 0xABCD_EF00_1200);
    assert_eq!(c.lane_id(), 0x0F);
    assert_eq!(c.commit_cycle(), 0x0E);
    assert_eq!(c.as_u128(), 0xABCD_EF00_12FE);
    let d = c.with_commit_cycle(3);
    assert_eq!(d.commit_cycle(), 3);
    assert_eq!(d.lane_id(), 0x0F);
    assert_eq!(d.data(), c.data());
    assert_eq!(u128::from(PulseCell::from(42u128)), 42);
}

#[test]
fn logic_mode_tags() {
    assert_eq!(LogicMode::RingBuffer.as_u8(), 0);
    assert_eq!(LogicMode::from_u8(0), Some(LogicMode::RingBuffer));
    assert_eq!(LogicMode::from_u8(1), None);
}

#[test]
fn simd_pair_compare() {
    let hi = 5u128 << 64;
    assert_eq!(match_u128_x2([hi | 7, 7], hi | 7), [true, false]);
    assert_eq!(match_u128_x2([1, 2], 2), [false, true]);
    assert_eq!(match_u128_x2([0, 0], 0), [true, true]);
}

#[test]
fn chunk_length_formula() {
    // 16 MiB / (16 * 2) = 524288 rows, over 8 threads = 65536 -> 8192
    assert_eq!(min_len_for(16 * 1024 * 1024, 8, 2), 8192);
    // 1 MiB / 16 = 65536 rows, over 64 threads = 1024
    assert_eq!(min_len_for(1024 * 1024, 64, 1), 1024);
    // tiny cache -> 512
    assert_eq!(min_len_for(1024, 4, 4), 512);
    let m = calculate_min_len(2);
    assert!((512..=8192).contains(&m));
}
