use life_roguelite::engine::rng::{create_rng, generate_seed};

#[test]
fn test_deterministic_rng() {
    let mut rng1 = create_rng("CLASSROOM2026");
    let mut rng2 = create_rng("CLASSROOM2026");

    let seq1: Vec<u64> = (0..10).map(|_| rng1.next_u64()).collect();
    let seq2: Vec<u64> = (0..10).map(|_| rng2.next_u64()).collect();

    assert_eq!(seq1, seq2, "Same seed must produce same sequence");
}

#[test]
fn test_different_seeds_differ() {
    let mut rng1 = create_rng("SEED_A");
    let mut rng2 = create_rng("SEED_B");

    let val1 = rng1.next_u64();
    let val2 = rng2.next_u64();

    assert_ne!(val1, val2, "Different seeds should produce different values");
}

#[test]
fn test_generate_seed_length() {
    let seed = generate_seed();
    assert_eq!(seed.len(), 8);
    assert!(seed.chars().all(|c| c.is_ascii_alphanumeric()));
}
