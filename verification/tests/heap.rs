use os_kernel::mm::heap_allocator::{mixed_size, mixed_slot, next_seed, FIRST_SEED, LIVE_SLOTS};

#[test]
fn seeds_follow_the_linear_congruence() {
    assert_eq!(next_seed(0), 1_013_904_223);
    assert_eq!(next_seed(1), 1_015_568_748);
    assert_eq!(next_seed(usize::MAX), 1_012_239_698);
}

#[test]
fn mixed_round_slot_and_size() {
    assert_eq!(LIVE_SLOTS, 128);
    assert_eq!(mixed_slot(300), 44);
    assert_eq!(mixed_size(FIRST_SEED), 24);
    assert_eq!(mixed_size(5 << 8), 2048);
    assert_eq!(mixed_size((4 << 8) | 0xf), 527);
}
