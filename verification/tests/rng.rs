use adam_core::rng::{RandomStream, WorldSeed};

#[test]
fn same_key_repeats_exactly() {
    let seed = WorldSeed::new(47);
    assert_eq!(seed.stream_for(1, 2, 2025), seed.stream_for(1, 2, 2025));
}

#[test]
fn subsystem_entity_and_tick_are_isolated() {
    let seed = WorldSeed::new(47);
    let first = seed.stream_for(1, 2, 2025).next_u64();
    assert_ne!(first, seed.stream_for(2, 2, 2025).next_u64());
    assert_ne!(first, seed.stream_for(1, 3, 2025).next_u64());
    assert_ne!(first, seed.stream_for(1, 2, 2026).next_u64());
}

#[test]
fn bounded_values_stay_in_range() {
    let mut stream = RandomStream::new(1);
    for _ in 0..1_000 {
        assert!(stream.next_bounded(7).expect("bound") < 7);
    }
    assert_eq!(stream.next_bounded(0), None);
}

#[test]
fn the_first_draw_mixes_the_advanced_state() {
    let mut stream = RandomStream::new(0);
    assert_eq!(stream.next_u64(), 0xe220_a839_7b1d_cdaf);
    assert_eq!(WorldSeed::new(9).get(), 9);
}
