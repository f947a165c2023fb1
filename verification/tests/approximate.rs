use lore::embed::DIM;
use lore::hnsw::{splitmix64, HnswConfig, HnswIndex};
use lore::index::{BruteForceIndex, VectorIndex};

fn unit01(s: &mut u64) -> f32 {
    (splitmix64(s) >> 11) as f32 / (1u64 << 53) as f32
}

fn random_unit(n: usize, dim: usize, mut seed: u64) -> Vec<Vec<f32>> {
    (0..n)
        .map(|_| {
            let mut v: Vec<f32> = (0..dim).map(|_| unit01(&mut seed) * 2.0 - 1.0).collect();
            normalize(&mut v);
            v
        })
        .collect()
}

fn normalize(v: &mut [f32]) {
    let norm = v.iter().map(|x| x * x).sum::<f32>().sqrt();
    if norm > 0.0 {
        for x in v {
            *x /= norm;
        }
    }
}

fn bits(v: &[f32]) -> Vec<u32> {
    v.iter().map(|x| x.to_bits()).collect()
}

fn cosine(a: &Vec<u32>, b: &Vec<u32>) -> f32 {
    if a.len() != b.len() {
        return 0.0;
    }
    a.iter().zip(b).map(|(x, y)| f32::from_bits(*x) * f32::from_bits(*y)).sum()
}

fn dist(a: &Vec<u32>, b: &Vec<u32>) -> u32 {
    (1.0 - cosine(a, b)).to_bits()
}

fn level(draw: u64) -> usize {
    let r = 1.0 - draw as f64 / (1u64 << 53) as f64;
    ((-r.ln()) * (1.0 / 16f64.ln())).floor() as usize
}

fn put(ix: &mut HnswIndex, key: u128, v: &[f32]) {
    ix.upsert(key, bits(v), &level, &dist);
}

fn search(ix: &HnswIndex, q: &[f32], k: usize) -> Vec<(u128, f32)> {
    ix.search(&bits(q), k, &dist).iter().map(|(id, d)| (*id, 1.0 - f32::from_bits(*d))).collect()
}

#[test]
fn self_query_returns_self() {
    let mut idx = HnswIndex::new();
    let vecs = random_unit(300, DIM, 1);
    for (i, v) in vecs.iter().enumerate() {
        put(&mut idx, i as u128, v);
    }
    assert_eq!(idx.len(), 300);
    for (i, v) in vecs.iter().enumerate() {
        let hits = search(&idx, v, 1);
        assert_eq!(hits[0].0, i as u128, "self-query must return self (connectivity)");
        assert!(hits[0].1 > 0.999, "self-similarity ~1.0");
    }
}

#[test]
fn upsert_replaces_in_place() {
    let mut idx = HnswIndex::new();
    put(&mut idx, 1, &[1.0, 0.0]);
    put(&mut idx, 2, &[0.0, 1.0]);
    put(&mut idx, 1, &[0.0, 1.0]);
    assert_eq!(idx.len(), 2, "idempotent: count stays");
    let hit = search(&idx, &[0.0, 1.0], 1);
    assert!((hit[0].1 - 1.0).abs() < 1e-6, "replaced vector is in effect");
}

#[test]
fn recall_at_1_matches_brute_force_oracle_256d() {
    let corpus = random_unit(800, DIM, 0xABCD);
    let mut oracle = BruteForceIndex::new();
    let mut hnsw = HnswIndex::new();
    for (i, v) in corpus.iter().enumerate() {
        oracle.upsert(i as u128, bits(v));
        put(&mut hnsw, i as u128, v);
    }
    let mut noise_seed = 0x1234u64;
    let mut agree = 0usize;
    let trials = 300usize;
    for _ in 0..trials {
        let base = (splitmix64(&mut noise_seed) as usize) % corpus.len();
        let mut q: Vec<f32> = corpus[base]
            .iter()
            .map(|x| x + (unit01(&mut noise_seed) * 2.0 - 1.0) * 0.05)
            .collect();
        normalize(&mut q);
        let qb = bits(&q);
        let sims: Vec<u32> = oracle.entries().iter().map(|e| cosine(&qb, &e.vec).to_bits()).collect();
        let truth = oracle.search(&sims, 1);
        let approx = search(&hnsw, &q, 1);
        if let (Some(t), Some(a)) = (truth.first(), approx.first()) {
            if t.0 == a.0 {
                agree += 1;
            }
        }
    }
    let recall = agree as f64 / trials as f64;
    assert!(recall >= 0.98, "recall@1 vs brute-force oracle = {recall:.4} (< 0.98)");
}

#[test]
fn draws_are_those_of_splitmix() {
    let mut s = 0u64;
    assert_eq!(splitmix64(&mut s), 0xE220_A839_7B1D_CDAF);
    assert_eq!(splitmix64(&mut s), 0x6E78_9E6A_A1B9_65F4);
}

#[test]
fn a_small_index_is_searched_whole() {
    let cfg = HnswConfig { m: 4, m0: 8, ef_construction: 50, ef_search: 50, seed: 7 };
    let mut idx = HnswIndex::with_config(cfg);
    assert!(idx.is_empty());
    assert!(search(&idx, &[1.0, 0.0], 3).is_empty());
    for i in 0..6 {
        let a = i as f32 * 0.2;
        put(&mut idx, 10 + i as u128, &[a.cos(), a.sin()]);
    }
    put(&mut idx, 12, &[0.4f32.cos(), 0.4f32.sin()]);
    let hits = search(&idx, &[1.0, 0.0], 9);
    let ids: Vec<u128> = hits.iter().map(|h| h.0).collect();
    assert_eq!(ids, vec![10, 11, 12, 13, 14, 15]);
    assert_eq!(search(&idx, &[1.0, 0.0], 2).len(), 2);
    assert!(search(&idx, &[1.0, 0.0], 0).is_empty());
    assert_eq!(idx.entries().len(), 6);
}

#[test]
fn either_index_answers() {
    let sim = |a: &Vec<u32>, b: &Vec<u32>| cosine(a, b).to_bits();
    let turn = |d: u32| (1.0 - f32::from_bits(d)).to_bits();
    let mut exact = VectorIndex::new();
    let mut near = VectorIndex::approximate();
    assert!(exact.is_empty() && near.is_empty());
    for i in 0..5u32 {
        let a = i as f32 * 0.3;
        let v = bits(&[a.cos(), a.sin()]);
        exact = exact.upsert(i as u128, v.clone(), &level, &dist);
        near = near.upsert(i as u128, v, &level, &dist);
    }
    let q = bits(&[0.0, 1.0]);
    let a: Vec<u128> = exact.search(&q, 3, &sim, &dist, &turn).iter().map(|h| h.0).collect();
    let b: Vec<u128> = near.search(&q, 3, &sim, &dist, &turn).iter().map(|h| h.0).collect();
    assert_eq!(a, vec![4, 3, 2]);
    assert_eq!(b, a);
    assert_eq!(exact.backend(), "brute-force (exact cosine)");
    assert_eq!(near.backend(), "hnsw (approximate, --features index-hnsw)");
    assert_eq!((exact.len(), near.len()), (5, 5));
    assert_eq!(exact.entries()[2].id, near.entries()[2].id);
}

#[test]
fn the_net_is_reproducible() {
    let vecs = random_unit(120, 16, 5);
    let queries = random_unit(20, 16, 6);
    let mut a = HnswIndex::new();
    let mut b = HnswIndex::new();
    for (i, v) in vecs.iter().enumerate() {
        put(&mut a, i as u128, v);
        put(&mut b, i as u128, if i == 40 { &queries[0] } else { v });
    }
    put(&mut b, 40, &vecs[40]);
    put(&mut b, 41, &vecs[41]);
    for q in &queries {
        assert_eq!(search(&a, q, 7), search(&b, q, 7));
    }
}
