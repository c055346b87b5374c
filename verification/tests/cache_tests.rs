use kuiperdb::cache::{eviction_cutoff, hash_content, CacheLookup, CacheStats, EmbeddingCache};
use kuiperdb::codec::{deserialize_vector, serialize_vector};

fn bits(v: &[f32]) -> Vec<u32> {
    v.iter().map(|x| x.to_bits()).collect()
}

fn floats(v: &[u32]) -> Vec<f32> {
    v.iter().map(|x| f32::from_bits(*x)).collect()
}

#[test]
fn test_hash_content() {
    let content = "Hello, world!";
    let hash = hash_content(content);
    assert_eq!(hash.len(), 64); // SHA256 = 32 bytes = 64 hex chars

    // Same content should produce same hash
    assert_eq!(hash, hash_content(content));

    // Different content should produce different hash
    assert_ne!(hash, hash_content("Hello, Rust!"));
}

#[test]
fn test_vector_serialization() {
    let vector: Vec<f32> = vec![1.0, -2.5, 3.2, 0.0, -0.001];
    let bytes = serialize_vector(&bits(&vector));
    let recovered = floats(&deserialize_vector(&bytes));

    assert_eq!(vector.len(), recovered.len());
    for (a, b) in vector.iter().zip(recovered.iter()) {
        assert!((a - b).abs() < 1e-6);
    }
}

#[test]
fn hash_content_is_the_known_digest() {
    assert_eq!(
        hash_content(""),
        "e3b0c44298fc1c149afbf4c8996fb92427ae41e4649b934ca495991b7852b855"
    );
    assert_eq!(
        hash_content("abc"),
        "ba7816bf8f01cfea414140de5dae2223b00361a396177a9cb410ff61f20015ad"
    );
    let h = hash_content("Hello, world!");
    assert!(h.chars().all(|c| c.is_ascii_digit() || ('a'..='f').contains(&c)));
}

#[test]
fn codec_is_little_endian_and_bitwise() {
    assert_eq!(serialize_vector(&vec![0x0403_0201]), vec![1u8, 2, 3, 4]);
    assert_eq!(serialize_vector(&bits(&[1.0])), vec![0u8, 0, 0x80, 0x3f]);
    assert_eq!(serialize_vector(&Vec::new()), Vec::<u8>::new());
    assert_eq!(deserialize_vector(&vec![1u8, 2, 3, 4, 9]), vec![0x0403_0201u32]);
    assert_eq!(deserialize_vector(&vec![1u8, 2, 3]), Vec::<u32>::new());
    // patterns that are no ordinary numbers come back bit by bit
    let odd: Vec<u32> = vec![0x7fc0_0001, 0xffff_ffff, 0x8000_0000, 0x0000_0001, 0x7f80_0000];
    assert_eq!(deserialize_vector(&serialize_vector(&odd)), odd);
    let nan = f32::from_bits(0x7fc0_1234);
    let back = floats(&deserialize_vector(&serialize_vector(&bits(&[nan]))));
    assert_eq!(back[0].to_bits(), 0x7fc0_1234);
}

#[test]
fn hit_rate_is_hits_over_lookups() {
    let none = CacheStats::default();
    assert_eq!(none.hit_rate(), (0, 1));
    let some = CacheStats { memory_hits: 3, disk_hits: 1, misses: 4 };
    assert_eq!(some.hit_rate(), (4, 8));
    let (n, d) = some.hit_rate();
    assert_eq!(n as f64 / d as f64, 0.5);
    let misses = CacheStats { memory_hits: 0, disk_hits: 0, misses: 2 };
    assert_eq!(misses.hit_rate(), (0, 2));
    let big = CacheStats { memory_hits: u64::MAX, disk_hits: u64::MAX, misses: u64::MAX };
    assert_eq!(big.hit_rate(), (2 * (u64::MAX as u128), 3 * (u64::MAX as u128)));
}

#[test]
fn cached_vector_is_found_after_put() {
    let mut cache = EmbeddingCache::new("default".to_string(), 4);
    let v = bits(&[0.25, -1.0]);
    cache.put("some text", v.clone());
    match cache.get("some text") {
        CacheLookup::Hit(found) => assert_eq!(found, v),
        CacheLookup::AskDisk { .. } => panic!("expected a hit"),
    }
    match cache.get("other text") {
        CacheLookup::Hit(_) => panic!("expected a miss"),
        CacheLookup::AskDisk { hash } => assert_eq!(hash, hash_content("other text")),
    }
}

#[test]
fn embedding_the_same_text_twice_calls_the_embedder_once() {
    // a stub embedder that counts its calls
    let mut calls = 0;
    let mut embed = |_text: &str| -> Vec<u32> {
        calls += 1;
        bits(&[1.0, 2.0, 3.0])
    };
    let mut cache = EmbeddingCache::new("default".to_string(), 16);
    let mut results = Vec::new();
    for _ in 0..2 {
        let vector = match cache.get("the same text") {
            CacheLookup::Hit(v) => v,
            CacheLookup::AskDisk { hash } => match cache.complete_get(hash, None) {
                Some(v) => v,
                None => {
                    let v = embed("the same text");
                    let entry = cache.disk_entry("the same text", &v, 1_700_000_000_000);
                    assert_eq!(entry.hash, hash_content("the same text"));
                    assert_eq!(entry.model, "default");
                    assert_eq!(entry.vector, v);
                    cache.put("the same text", v.clone());
                    v
                }
            },
        };
        results.push(vector);
    }
    assert_eq!(calls, 1);
    assert_eq!(results[0], results[1]);
    let stats = cache.stats();
    assert_eq!(stats.memory_hits, 1);
    assert_eq!(stats.misses, 1);
    assert_eq!(stats.disk_hits, 0);
    assert_eq!(stats.hit_rate(), (1, 2));
}

#[test]
fn disk_hit_fills_the_memory_tier() {
    let mut cache = EmbeddingCache::new("m".to_string(), 2);
    let v = bits(&[0.5, 0.75]);
    let hash = match cache.get("x") {
        CacheLookup::AskDisk { hash } => hash,
        CacheLookup::Hit(_) => panic!("empty cache"),
    };
    let found = cache.complete_get(hash, Some(serialize_vector(&v)));
    assert_eq!(found, Some(v.clone()));
    assert_eq!(cache.stats().disk_hits, 1);
    assert!(matches!(cache.get("x"), CacheLookup::Hit(ref w) if *w == v));
    assert_eq!(cache.stats().memory_hits, 1);
    assert_eq!(cache.stats().misses, 0);
}

#[test]
fn memory_tier_drops_the_least_recently_used() {
    let mut cache = EmbeddingCache::new("m".to_string(), 2);
    cache.put("a", vec![1]);
    cache.put("b", vec![2]);
    // a is used, so b is the least recently used
    assert!(matches!(cache.get("a"), CacheLookup::Hit(_)));
    cache.put("c", vec![3]);
    assert!(matches!(cache.get("b"), CacheLookup::AskDisk { .. }));
    assert!(matches!(cache.get("a"), CacheLookup::Hit(ref v) if *v == vec![1]));
    assert!(matches!(cache.get("c"), CacheLookup::Hit(ref v) if *v == vec![3]));
    // storing a key again replaces its vector and drops nothing
    cache.put("a", vec![9]);
    assert!(matches!(cache.get("c"), CacheLookup::Hit(_)));
    assert!(matches!(cache.get("a"), CacheLookup::Hit(ref v) if *v == vec![9]));
    cache.clear_memory();
    assert!(matches!(cache.get("a"), CacheLookup::AskDisk { .. }));
    assert_eq!(cache.stats().memory_hits, 5);
}

#[test]
fn eviction_cutoff_goes_back_whole_days() {
    assert_eq!(eviction_cutoff(1_700_000_000_000, 30), Some(1_700_000_000_000 - 30 * 86_400_000));
    assert_eq!(eviction_cutoff(5, 0), Some(5));
    assert_eq!(eviction_cutoff(0, -1), Some(86_400_000));
    assert_eq!(eviction_cutoff(i64::MIN, 1), None);
    assert_eq!(eviction_cutoff(0, i64::MAX), None);
}
