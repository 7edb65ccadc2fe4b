use std::collections::HashMap;

use litevec::collection::{Distance, SimilarityResult};
use litevec::db::{Db, Error};
use litevec::embedding::Embedding;
use litevec::store::{file_name, load_collections, pending_writes, MARKER_FILE};

fn bits(v: &[f32]) -> Vec<u32> {
    v.iter().map(|x| x.to_bits()).collect()
}

fn normalized(v: &[f32]) -> Vec<f32> {
    let norm = v.iter().map(|x| x * x).sum::<f32>().sqrt();
    v.iter().map(|x| x / norm).collect()
}

fn embedding(id: &str, vector: &[f32], metadata: Option<&[(&str, &str)]>) -> Embedding {
    Embedding {
        id: id.to_string(),
        vector: bits(vector),
        metadata: metadata.map(|m| m.iter().map(|(k, v)| (k.to_string(), v.to_string())).collect()),
    }
}

/// Sortable scores of every embedding of a collection against `query`.
fn scores(db: &Db, name: &str, query: &[f32]) -> Vec<u32> {
    let c = db.get_collection(name).unwrap();
    c.embeddings
        .iter()
        .map(|e| {
            let v: Vec<f32> = e.vector.iter().map(|b| f32::from_bits(*b)).collect();
            let s = match c.distance {
                Distance::Euclidean => v.iter().zip(query).map(|(a, b)| (a - b) * (a - b)).sum::<f32>(),
                _ => -v.iter().zip(query).map(|(a, b)| a * b).sum::<f32>(),
            };
            s.to_bits()
        })
        .collect()
}

fn save(db: &mut Db, store: &mut HashMap<String, Vec<u8>>) {
    for name in db.tombstones() {
        store.remove(&file_name(&name));
        assert!(db.remove_deleted(&name));
    }
    for w in pending_writes(db) {
        store.insert(w.file_name.clone(), w.bytes.clone());
        assert!(db.mark_saved(&w.name));
    }
}

fn listing(store: &HashMap<String, Vec<u8>>) -> Vec<(String, Vec<u8>)> {
    let mut files: Vec<(String, Vec<u8>)> = vec![(MARKER_FILE.to_string(), Vec::new())];
    for (k, v) in store {
        files.push((k.clone(), v.clone()));
    }
    files
}

fn ids(results: &[SimilarityResult]) -> Vec<String> {
    results.iter().map(|r| r.embedding.id.clone()).collect()
}

#[test]
fn cosine_query_finds_normalised_vector() {
    let mut db = Db::new();
    db.create_collection("docs".to_string(), 3, Distance::Cosine).unwrap();
    let stored = normalized(&[3.0, 0.0, 0.0]);
    db.insert_into_collection("docs", embedding("a", &stored, None)).unwrap();
    let query = normalized(&[1.0, 0.0, 0.0]);
    let s = scores(&db, "docs", &query);
    let c = db.get_collection("docs").unwrap();
    let results = c.get_by_metadata_and_similarity(&Vec::new(), &s, 1);
    assert_eq!(results.len(), 1);
    assert_eq!(results[0].embedding.id, "a");
    assert!((f32::from_bits(results[0].score) + 1.0).abs() < 1e-6);
    let norm: f32 = results[0].embedding.vector.iter().map(|b| f32::from_bits(*b).powi(2)).sum::<f32>().sqrt();
    assert!((norm - 1.0).abs() <= 1e-6);
}

#[test]
fn euclidean_query_returns_two_nearest() {
    let mut db = Db::new();
    db.create_collection("v".to_string(), 2, Distance::Euclidean).unwrap();
    db.insert_into_collection("v", embedding("a", &[0.0, 0.0], None)).unwrap();
    db.insert_into_collection("v", embedding("b", &[3.0, 4.0], None)).unwrap();
    db.insert_into_collection("v", embedding("c", &[1.0, 1.0], None)).unwrap();
    let s = scores(&db, "v", &[0.0, 0.0]);
    let results = db.get_collection("v").unwrap().get_by_metadata_and_similarity(&Vec::new(), &s, 2);
    assert_eq!(ids(&results), vec!["a".to_string(), "c".to_string()]);
    assert_eq!(f32::from_bits(results[0].score), 0.0);
    assert_eq!(f32::from_bits(results[1].score), 2.0);
}

#[test]
fn duplicate_id_is_a_unique_violation() {
    let mut db = Db::new();
    db.create_collection("c".to_string(), 2, Distance::Dot).unwrap();
    db.insert_into_collection("c", embedding("a", &[1.0, 2.0], None)).unwrap();
    let second = db.insert_into_collection("c", embedding("a", &[3.0, 4.0], None));
    assert_eq!(second, Err(Error::UniqueViolation));
    assert_eq!(db.get_collection("c").unwrap().embeddings.len(), 1);
}

#[test]
fn wrong_length_is_a_dimension_mismatch() {
    let mut db = Db::new();
    db.create_collection("c".to_string(), 3, Distance::Euclidean).unwrap();
    let r = db.insert_into_collection("c", embedding("a", &[1.0, 2.0, 3.0, 4.0], None));
    assert_eq!(r, Err(Error::DimensionMismatch));
    assert!(db.get_collection("c").unwrap().embeddings.is_empty());
}

#[test]
fn insert_into_missing_collection_is_not_found() {
    let mut db = Db::new();
    let r = db.insert_into_collection("nope", embedding("a", &[1.0], None));
    assert_eq!(r, Err(Error::NotFound));
}

#[test]
fn filter_clauses_are_alternatives() {
    let mut db = Db::new();
    db.create_collection("m".to_string(), 1, Distance::Euclidean).unwrap();
    db.insert_into_collection("m", embedding("x", &[1.0], Some(&[("lang", "en"), ("kind", "doc")]))).unwrap();
    db.insert_into_collection("m", embedding("y", &[2.0], Some(&[("lang", "fr")]))).unwrap();
    let filter = vec![
        vec![("lang".to_string(), "en".to_string())],
        vec![("kind".to_string(), "doc".to_string())],
    ];
    let c = db.get_collection("m").unwrap();
    let found = c.get_by_metadata(&filter, 10, false);
    assert_eq!(found.len(), 1);
    assert_eq!(found[0].id, "x");
    let s = scores(&db, "m", &[0.0]);
    let results = c.get_by_metadata_and_similarity(&filter, &s, 10);
    assert_eq!(ids(&results), vec!["x".to_string()]);
}

#[test]
fn rename_then_save_leaves_only_new_file() {
    let mut db = Db::new();
    let mut store: HashMap<String, Vec<u8>> = HashMap::new();
    db.create_collection("k1".to_string(), 2, Distance::Dot).unwrap();
    db.insert_into_collection("k1", embedding("e", &[1.0, 2.0], None)).unwrap();
    save(&mut db, &mut store);
    assert!(!db.is_dirty());
    assert!(store.contains_key("k1"));
    db.rename_collection("k1", "k2".to_string()).unwrap();
    assert_eq!(db.tombstones(), vec!["k1".to_string()]);
    assert!(db.is_dirty());
    save(&mut db, &mut store);
    assert!(db.tombstones().is_empty());
    assert!(!db.is_dirty());
    let mut keys: Vec<&String> = store.keys().collect();
    keys.sort();
    assert_eq!(keys, vec!["k2"]);
    let loaded = load_collections(&listing(&store)).unwrap();
    assert_eq!(loaded.list(), vec!["k2".to_string()]);
    let c = loaded.get_collection("k2").unwrap();
    assert_eq!(c.list(), vec!["e".to_string()]);
    assert!(!c.is_dirty());
}

#[test]
fn recreated_collection_replaces_deleted_one() {
    let mut db = Db::new();
    let mut store: HashMap<String, Vec<u8>> = HashMap::new();
    db.create_collection("n".to_string(), 2, Distance::Euclidean).unwrap();
    db.insert_into_collection("n", embedding("old", &[1.0, 1.0], None)).unwrap();
    save(&mut db, &mut store);
    db.delete_collection("n").unwrap();
    let created = db.create_collection("n".to_string(), 3, Distance::Cosine).unwrap();
    assert!(created.is_dirty());
    assert!(db.get_collection("n").unwrap().is_dirty());
    assert!(db.tombstones().is_empty());
    save(&mut db, &mut store);
    let loaded = load_collections(&listing(&store)).unwrap();
    let c = loaded.get_collection("n").unwrap();
    assert_eq!(c.dimension, 3);
    assert_eq!(c.distance, Distance::Cosine);
    assert!(c.embeddings.is_empty());
}

#[test]
fn save_and_load_keep_collections() {
    let mut db = Db::new();
    let mut store: HashMap<String, Vec<u8>> = HashMap::new();
    db.create_collection("a/b".to_string(), 2, Distance::Dot).unwrap();
    db.create_collection("plain".to_string(), 1, Distance::Euclidean).unwrap();
    db.insert_into_collection("a/b", embedding("p", &[0.5, -1.5], Some(&[("k", "v"), ("é", "ü")]))).unwrap();
    db.insert_into_collection("a/b", embedding("q", &[2.0, 3.0], None)).unwrap();
    db.insert_into_collection("plain", embedding("r", &[7.0], Some(&[]))).unwrap();
    save(&mut db, &mut store);
    assert!(store.contains_key("a%2Fb"));
    let loaded = load_collections(&listing(&store)).unwrap();
    let mut names = loaded.list();
    names.sort();
    assert_eq!(names, vec!["a/b".to_string(), "plain".to_string()]);
    for name in ["a/b", "plain"] {
        let before = db.get_collection(name).unwrap();
        let after = loaded.get_collection(name).unwrap();
        assert_eq!(before.dimension, after.dimension);
        assert_eq!(before.distance, after.distance);
        assert_eq!(format!("{:?}", before.embeddings), format!("{:?}", after.embeddings));
    }
    assert!(!loaded.is_dirty());
}

#[test]
fn delete_of_missing_collection_is_not_found() {
    let mut db = Db::new();
    assert_eq!(db.delete_collection("x"), Err(Error::NotFound));
    assert!(!db.is_dirty());
}

#[test]
fn rename_errors() {
    let mut db = Db::new();
    db.create_collection("a".to_string(), 1, Distance::Dot).unwrap();
    db.create_collection("b".to_string(), 1, Distance::Dot).unwrap();
    assert_eq!(db.rename_collection("a", "b".to_string()), Err(Error::UniqueViolation));
    assert_eq!(db.rename_collection("zz", "c".to_string()), Err(Error::NotFound));
    assert_eq!(db.create_collection("a".to_string(), 2, Distance::Dot).err(), Some(Error::UniqueViolation));
}

#[test]
fn list_excludes_deleted_names() {
    let mut db = Db::new();
    db.create_collection("a".to_string(), 1, Distance::Dot).unwrap();
    db.create_collection("b".to_string(), 1, Distance::Dot).unwrap();
    db.delete_collection("a").unwrap();
    assert_eq!(db.list(), vec!["b".to_string()]);
    assert_eq!(db.tombstones(), vec!["a".to_string()]);
    assert!(db.is_dirty());
}

#[test]
fn error_messages() {
    assert_eq!(Error::UniqueViolation.message(), "Collection already exists");
    assert_eq!(Error::NotFound.message(), "Collection doesn't exist");
    assert!(Error::DimensionMismatch.message().contains("dimension"));
}

#[test]
fn stored_vectors_have_collection_dimension() {
    let mut db = Db::new();
    db.create_collection("d".to_string(), 3, Distance::Dot).unwrap();
    let attempts: [&[f32]; 4] = [&[1.0, 2.0, 3.0], &[1.0], &[4.0, 5.0, 6.0], &[]];
    for (i, v) in attempts.iter().enumerate() {
        let _ = db.insert_into_collection("d", embedding(&format!("e{i}"), v, None));
    }
    let c = db.get_collection("d").unwrap();
    assert_eq!(c.embeddings.len(), 2);
    assert!(c.embeddings.iter().all(|e| e.vector.len() == c.dimension));
}
