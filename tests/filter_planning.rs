use rtty_receiver::fir::{carry_layout, leftover_count, output_count};
use rtty_receiver::multistage::{cache_position, odd_tap_count, plan_stages};
use rtty_receiver::window::WindowKind;

#[test]
fn plan_for_a_thousand() {
    let (stages, total) = plan_stages(1000);
    assert_eq!(stages, vec![256, 2]);
    assert_eq!(total, 512);
}

#[test]
fn plan_small_factors() {
    assert_eq!(plan_stages(0), (vec![], 1));
    assert_eq!(plan_stages(2), (vec![], 1));
    assert_eq!(plan_stages(3), (vec![2], 2));
    assert_eq!(plan_stages(16), (vec![8], 8));
    assert_eq!(plan_stages(17), (vec![16], 16));
    assert_eq!(plan_stages(257), (vec![256], 256));
}

#[test]
fn plan_total_is_product_of_stages() {
    for target in [5u32, 100, 300, 4097, 65537, 1_000_000, u32::MAX] {
        let (stages, total) = plan_stages(target);
        let product: u64 = stages.iter().map(|&s| s as u64).product();
        assert_eq!(product, total as u64);
        assert!(total < target && (target as u64) <= 2 * total as u64);
    }
    assert_eq!(plan_stages(u32::MAX), (vec![256, 256, 256, 128], 1 << 31));
}

#[test]
fn tap_count_is_odd() {
    assert_eq!(odd_tap_count(83), 83);
    assert_eq!(odd_tap_count(84), 85);
    assert_eq!(odd_tap_count(0), 1);
    assert_eq!(odd_tap_count(usize::MAX), usize::MAX);
    for n in 0..200 {
        assert_eq!(odd_tap_count(n) % 2, 1);
    }
}

#[test]
fn window_counts() {
    assert_eq!(output_count(10, 5, 2), 3);
    assert_eq!(leftover_count(10, 5, 2), 4);
    assert_eq!(output_count(3, 5, 2), 0);
    assert_eq!(leftover_count(3, 5, 2), 3);
    assert_eq!(output_count(12, 5, 10), 1);
    assert_eq!(leftover_count(12, 5, 10), 2);
    assert_eq!(output_count(5, 5, 1), 1);
    assert_eq!(leftover_count(5, 5, 1), 4);
    assert_eq!(leftover_count(40, 5, 50), 0);
}

#[test]
fn carry_layout_partitions() {
    let l = carry_layout(&vec![5, 9, 3]);
    assert_eq!(l.offsets, vec![0, 4, 12]);
    assert_eq!(l.total, 14);
    assert_eq!(l.min_buffer_reserve, 8);
    let empty = carry_layout(&vec![]);
    assert!(empty.offsets.is_empty());
    assert_eq!(empty.total, 0);
    assert_eq!(empty.min_buffer_reserve, 0);
}

#[test]
fn cache_lookup() {
    let cache = vec![(256u32, "a"), (512, "b"), (256, "c")];
    assert_eq!(cache_position(&cache, 256), Some(0));
    assert_eq!(cache_position(&cache, 512), Some(1));
    assert_eq!(cache_position(&cache, 2), None);
}

#[test]
fn blackman_harris_attenuation() {
    assert_eq!(WindowKind::BlackmanHaris.max_attenuation(), 92);
}
