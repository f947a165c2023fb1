use lore::embed::{
    select_backend, Backend, BackendError, HashEmbedder, StaticEmbedder, TableLoader, COUNT_LIMIT, DIM,
};
use lore::index::BruteForceIndex;

fn bits(v: &[f32]) -> Vec<u32> {
    v.iter().map(|x| x.to_bits()).collect()
}

fn normalize(v: &mut Vec<f32>) {
    let norm = v.iter().map(|x| x * x).sum::<f32>().sqrt();
    if norm > 0.0 {
        for x in v.iter_mut() {
            *x /= norm;
        }
    }
}

fn dot(a: &[f32], b: &[f32]) -> f32 {
    a.iter().zip(b).map(|(x, y)| x * y).sum()
}

fn hash_embed(text: &str) -> Vec<f32> {
    let mut v: Vec<f32> = HashEmbedder.counts(text).iter().map(|c| *c as f32).collect();
    normalize(&mut v);
    v
}

fn static_embed(e: &StaticEmbedder, text: &str) -> Vec<f32> {
    let rows = e.known_rows(text);
    let mut v = vec![0f32; e.dim()];
    for row in &rows {
        for (acc, x) in v.iter_mut().zip(row) {
            *acc += f32::from_bits(*x);
        }
    }
    if !rows.is_empty() {
        let inv = 1.0 / rows.len() as f32;
        for x in v.iter_mut() {
            *x *= inv;
        }
    }
    normalize(&mut v);
    v
}

#[test]
fn similar_text_scores_higher() {
    let a = hash_embed("we decided to use redb for the durable store");
    let b = hash_embed("the durable store uses redb");
    let c = hash_embed("the canvas renders nodes with a force simulation");
    assert!(dot(&a, &b) > dot(&a, &c), "lexically closer text is nearer");
}

#[test]
fn counts_follow_the_digest() {
    assert_eq!(HashEmbedder.dim(), DIM);
    assert_eq!(HashEmbedder.id(), "hash-v1");
    let h = blake3::hash(b"redb");
    let h = h.as_bytes();
    let at = (u32::from_le_bytes([h[0], h[1], h[2], h[3]]) % 256) as usize;
    let sign = if h[4] & 1 == 0 { 1 } else { -1 };
    let v = HashEmbedder.counts("Redb redb");
    assert_eq!(v.len(), 256);
    for i in 0..256 {
        assert_eq!(v[i], if i == at { 2 * sign } else { 0 });
    }
    assert!(HashEmbedder.counts("").iter().all(|c| *c == 0));
    assert_eq!(COUNT_LIMIT as f32 + 1.0, COUNT_LIMIT as f32);
}

#[test]
fn static_embedder_is_semantic_via_the_table() {
    let e = StaticEmbedder::from_table(
        "static:test:2",
        vec![
            ("car".to_string(), bits(&[1.0, 0.0])),
            ("automobile".to_string(), bits(&[1.0, 0.0])),
            ("banana".to_string(), bits(&[0.0, 1.0])),
        ],
    );
    assert_eq!(e.dim(), 2);
    assert_eq!(e.id(), "static:test:2");
    let q = static_embed(&e, "car");
    assert!(
        dot(&q, &static_embed(&e, "automobile")) > dot(&q, &static_embed(&e, "banana")),
        "synonym (shared vector) beats an unrelated word"
    );
    assert!(static_embed(&e, "zzz qqq").iter().all(|x| *x == 0.0));
}

#[test]
fn tables_are_loaded_leniently() {
    let lines = ["2 3", "Car 1 0 0", "bad 1 x 0", "ragged 1 0", "", "car 0 1 0", "bus 0 0 1"];
    let mut l = TableLoader::new();
    for line in lines {
        if let Some((token, fields)) = l.read_line(line) {
            let values: Vec<Option<u32>> =
                fields.iter().map(|f| f.parse::<f32>().ok().map(|x| x.to_bits())).collect();
            l.add_row(&token, &values);
        }
    }
    let e = l.finish(Some("glove")).unwrap();
    assert_eq!(e.dim(), 3);
    let whole: String = lines.iter().map(|l| format!("{l}\n")).collect();
    assert_eq!(e.id(), format!("static:glove:3:{}", blake3::hash(whole.as_bytes()).to_hex()));
    assert_eq!(e.row(&['c', 'a', 'r']), Some(&bits(&[0.0, 1.0, 0.0])), "the later row wins");
    assert_eq!(e.row(&['b', 'a', 'd']), None);
    assert_eq!(e.known_rows("bus and CAR").len(), 2);
    assert!(TableLoader::new().finish(None).is_none());
}

#[test]
fn backends_are_chosen_by_name() {
    assert!(matches!(select_backend(None, None), Ok(Backend::Hash)));
    assert!(matches!(select_backend(Some("hash"), None), Ok(Backend::Hash)));
    assert!(matches!(select_backend(Some("static"), Some("v.txt")), Ok(Backend::Static(p)) if p == "v.txt"));
    assert!(matches!(select_backend(Some("localmodel"), None), Err(BackendError::NeedsModel)));
    assert!(matches!(select_backend(Some("neural"), None), Err(BackendError::NeuralNotBuilt)));
    assert!(matches!(select_backend(Some("x"), None), Err(BackendError::Unknown)));
}

fn search(ix: &BruteForceIndex, q: &[f32], k: usize) -> Vec<(u128, f32)> {
    let sims: Vec<u32> = ix
        .entries()
        .iter()
        .map(|e| {
            let v: Vec<f32> = e.vec.iter().map(|b| f32::from_bits(*b)).collect();
            dot(q, &v).to_bits()
        })
        .collect();
    ix.search(&sims, k).iter().map(|(id, s)| (*id, f32::from_bits(*s))).collect()
}

#[test]
fn upsert_replaces_in_place_no_dup() {
    let mut ix = BruteForceIndex::new();
    ix.upsert(1, bits(&[1.0, 0.0]));
    ix.upsert(2, bits(&[0.0, 1.0]));
    ix.upsert(1, bits(&[0.0, 1.0]));
    assert_eq!(ix.len(), 2, "idempotent: re-insert replaces, count stays");
    let hit = search(&ix, &[0.0, 1.0], 2);
    assert!((hit[0].1 - 1.0).abs() < 1e-6, "replaced vector is in effect");
    assert_eq!(ix.entries()[0].id, 1);
    assert_eq!(ix.entries()[1].id, 2);
    assert!(!ix.is_empty());
}

#[test]
fn nearest_vectors_come_first() {
    let mut ix = BruteForceIndex::new();
    ix.upsert(1, bits(&[1.0, 0.0]));
    ix.upsert(2, bits(&[0.6, 0.8]));
    ix.upsert(3, bits(&[0.0, 1.0]));
    let ids: Vec<u128> = search(&ix, &[0.0, 1.0], 2).iter().map(|h| h.0).collect();
    assert_eq!(ids, vec![3, 2]);
    assert_eq!(search(&ix, &[0.0, 1.0], 9).len(), 3);
}
