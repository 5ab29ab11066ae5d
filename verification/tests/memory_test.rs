use sabm_simulation::memory::MemoryUpdate;

#[test]
fn memory_update_bounds_to_window() {
    let mu = MemoryUpdate { window: 3 };
    let mut mem0: Vec<(f64, f64)> = Vec::new();
    let mut mem1: Vec<(f64, f64)> = Vec::new();
    for r in 0..5 {
        mu.remember(&mut mem0, (6.0, r as f64));
        mu.remember(&mut mem1, (6.0, r as f64));
    }
    assert_eq!(mem0.len(), 3, "bounded to window");
    assert_eq!(mem1.len(), 3);
}

#[test]
fn memory_keeps_the_most_recent_rounds_in_order() {
    let mu = MemoryUpdate { window: 20 };
    let mut mem: Vec<u32> = Vec::new();
    for r in 0..25u32 {
        mu.remember(&mut mem, r);
        assert!(mem.len() <= 20);
        assert_eq!(*mem.last().unwrap(), r);
    }
    assert_eq!(mem, (5..25).collect::<Vec<u32>>());
}

#[test]
fn window_zero_keeps_everything() {
    let mu = MemoryUpdate { window: 0 };
    let mut mem: Vec<u8> = Vec::new();
    for r in 0..30u8 {
        mu.remember(&mut mem, r);
    }
    assert_eq!(mem.len(), 30);
}

#[test]
fn memory_cut_back_from_a_longer_list() {
    let mu = MemoryUpdate { window: 2 };
    let mut mem = vec![1, 2, 3, 4];
    mu.remember(&mut mem, 5);
    assert_eq!(mem, vec![4, 5]);
}
