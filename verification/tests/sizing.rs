use chum_world::dgc::{calculate_chunk_size, CHUNK_ALIGN, MAX_CHUNK_SIZE};

#[test]
fn chunk_size_of_zero_is_one_alignment() {
    assert_eq!(calculate_chunk_size(0), 2048);
}

#[test]
fn chunk_size_rounds_up_to_alignment() {
    assert_eq!(calculate_chunk_size(1), 2048);
    assert_eq!(calculate_chunk_size(2047), 2048);
    assert_eq!(calculate_chunk_size(2048), 2048);
    assert_eq!(calculate_chunk_size(2049), 4096);
    assert_eq!(calculate_chunk_size(5016), 6144);
    assert_eq!(calculate_chunk_size(MAX_CHUNK_SIZE), MAX_CHUNK_SIZE);
}

#[test]
fn chunk_size_is_always_aligned_and_positive() {
    for req in [0usize, 1, 100, 2048, 4096, 4097, 10_000, 1_000_000] {
        let s = calculate_chunk_size(req);
        assert_eq!(s % CHUNK_ALIGN, 0);
        assert!(s >= CHUNK_ALIGN);
        assert!(s >= req);
    }
}

#[test]
fn chunk_size_is_idempotent() {
    for req in [0usize, 1, 2047, 2048, 2049, 5016, 123_456] {
        let once = calculate_chunk_size(req);
        assert_eq!(calculate_chunk_size(once), once);
    }
}
