use asset_pipeline::embedding::{bytes_to_vector, score_key, semantic_rank, vector_to_bytes};

fn f32s_to_bits(v: &[f32]) -> Vec<u32> {
    v.iter().map(|f| f.to_bits()).collect()
}

fn bits_to_f32s(v: &[u32]) -> Vec<f32> {
    v.iter().map(|b| f32::from_bits(*b)).collect()
}

fn cosine(a: &[f32], b: &[f32]) -> f32 {
    if a.len() != b.len() || a.is_empty() {
        return 0.0;
    }
    let mut dot = 0.0f32;
    let mut na = 0.0f32;
    let mut nb = 0.0f32;
    for i in 0..a.len() {
        dot += a[i] * b[i];
        na += a[i] * a[i];
        nb += b[i] * b[i];
    }
    let denom = na.sqrt() * nb.sqrt();
    if denom == 0.0 {
        0.0
    } else {
        dot / denom
    }
}

#[test]
fn vector_round_trip_is_exact() {
    let v: Vec<f32> = vec![0.5, -1.25, 3.75e-3, 0.0, 1.0e20, -0.0, f32::MIN_POSITIVE];
    let bits = f32s_to_bits(&v);
    let bytes = vector_to_bytes(&bits);
    assert_eq!(bytes.len(), 4 * v.len());
    let back = bytes_to_vector(&bytes);
    let vv = bits_to_f32s(&back);
    assert_eq!(v, vv);
    for (a, b) in bits.iter().zip(back.iter()) {
        assert_eq!(a, b);
    }
}

#[test]
fn vector_encoding_is_little_endian() {
    let bytes = vector_to_bytes(&vec![0x0403_0201u32]);
    assert_eq!(bytes, vec![0x01, 0x02, 0x03, 0x04]);
}

#[test]
fn trailing_partial_group_is_dropped() {
    let back = bytes_to_vector(&vec![1, 0, 0, 0, 9]);
    assert_eq!(back, vec![1u32]);
    assert_eq!(bytes_to_vector(&vec![9, 9, 9]), Vec::<u32>::new());
}

#[test]
fn score_key_orders_like_floats() {
    let vals: Vec<f32> = vec![-10.0, -0.5, -0.0, 0.0, 0.25, 1.0, 100.0];
    for w in vals.windows(2) {
        let (a, b) = (w[0], w[1]);
        assert!(score_key(a.to_bits()) <= score_key(b.to_bits()));
        if a < b {
            assert!(score_key(a.to_bits()) < score_key(b.to_bits()) || a == 0.0 && b == 0.0);
        }
    }
}

#[test]
fn semantic_rank_keeps_best_first_and_ties_stable() {
    let entries = vec![
        ("a".to_string(), 5u32),
        ("b".to_string(), 9u32),
        ("c".to_string(), 9u32),
        ("d".to_string(), 1u32),
    ];
    let top = semantic_rank(&entries, 3);
    assert_eq!(top.len(), 3);
    assert_eq!(top[0].asset_id, "b");
    assert_eq!(top[1].asset_id, "c");
    assert_eq!(top[2].asset_id, "a");
    let none = semantic_rank(&entries, 0);
    assert!(none.is_empty());
}

#[test]
fn exact_match_ranks_first_with_score_one() {
    // three stored embeddings; the query equals the second exactly
    let stored: Vec<Vec<f32>> = vec![
        vec![1.0, 0.0, 0.0],
        vec![0.6, 0.8, 0.0],
        vec![0.0, 0.0, 1.0],
    ];
    let query = vec![0.6f32, 0.8, 0.0];
    let mut scored: Vec<(String, u32)> = Vec::new();
    for (i, v) in stored.iter().enumerate() {
        // storage round trip, as the search pipeline does it
        let bytes = vector_to_bytes(&f32s_to_bits(v));
        let back = bits_to_f32s(&bytes_to_vector(&bytes));
        let score = cosine(&query, &back);
        scored.push((format!("asset-{}", i), score_key(score.to_bits())));
    }
    let ranked = semantic_rank(&scored, 3);
    assert_eq!(ranked[0].asset_id, "asset-1");
    assert_eq!(ranked[0].key, score_key(1.0f32.to_bits()));
}
