use std::collections::HashMap;

use litevec::api::{AppVersion, RootResponse};
use litevec::codec::{decode_collection, decode_database, encode_collection};
use litevec::collection::{Collection, Distance};
use litevec::embedding::{match_embedding, Embedding};
use litevec::score::{bits_of_key, order_key};
use litevec::store::{
    collection_name, convert_old_store, file_name, load_collections, store_layout, LoadError,
    StoreLayout, MARKER_FILE,
};
use litevec::text::str_equal;
use litevec::topk::{select_top_k, ScoreIndex};

fn pairs(m: &[(&str, &str)]) -> Vec<(String, String)> {
    m.iter().map(|(k, v)| (k.to_string(), v.to_string())).collect()
}

fn emb(id: &str, vector: &[f32], metadata: Option<&[(&str, &str)]>) -> Embedding {
    Embedding {
        id: id.to_string(),
        vector: vector.iter().map(|x| x.to_bits()).collect(),
        metadata: metadata.map(pairs),
    }
}

fn sample() -> Collection {
    let mut c = Collection::new(2, Distance::Euclidean);
    c.embeddings.push(emb("a", &[1.0, 0.0], Some(&[("lang", "en")])));
    c.embeddings.push(emb("b", &[0.0, 1.0], None));
    c.embeddings.push(emb("c", &[1.0, 1.0], Some(&[("lang", "fr"), ("kind", "doc")])));
    c.unset_dirty();
    c
}

#[test]
fn empty_filter_matches_everything() {
    let e = emb("a", &[1.0], None);
    assert!(match_embedding(&e, &Vec::new()));
}

#[test]
fn missing_metadata_fails_non_empty_filter() {
    let e = emb("a", &[1.0], None);
    assert!(!match_embedding(&e, &vec![Vec::new()]));
    assert!(!match_embedding(&e, &vec![pairs(&[("k", "v")])]));
}

#[test]
fn empty_clause_matches_any_metadata() {
    let e = emb("a", &[1.0], Some(&[("k", "v")]));
    assert!(match_embedding(&e, &vec![pairs(&[("k", "w")]), Vec::new()]));
}

#[test]
fn clause_needs_every_entry_exactly() {
    let e = emb("a", &[1.0], Some(&[("lang", "en"), ("kind", "doc")]));
    assert!(match_embedding(&e, &vec![pairs(&[("lang", "en"), ("kind", "doc")])]));
    assert!(!match_embedding(&e, &vec![pairs(&[("lang", "en"), ("kind", "Doc")])]));
    assert!(!match_embedding(&e, &vec![pairs(&[("lang", "EN")])]));
    assert!(!match_embedding(&e, &vec![pairs(&[("missing", "en")])]));
}

#[test]
fn collection_list_keeps_insertion_order() {
    let c = sample();
    assert_eq!(c.list(), vec!["a".to_string(), "b".to_string(), "c".to_string()]);
}

#[test]
fn collection_get_by_id() {
    let c = sample();
    assert_eq!(c.get("b").unwrap().id, "b");
    assert!(c.get("z").is_none());
    assert_eq!(c.position_of("c"), Some(2));
}

#[test]
fn get_by_metadata_takes_first_k_and_strips_vectors() {
    let c = sample();
    let all = c.get_by_metadata(&Vec::new(), 2, false);
    assert_eq!(all.iter().map(|e| e.id.clone()).collect::<Vec<_>>(), vec!["a", "b"]);
    assert_eq!(all[0].vector, c.embeddings[0].vector);
    let bare = c.get_by_metadata(&vec![Vec::new()], 5, true);
    assert_eq!(bare.iter().map(|e| e.id.clone()).collect::<Vec<_>>(), vec!["a", "c"]);
    assert!(bare.iter().all(|e| e.vector.is_empty()));
    assert!(c.get_by_metadata(&Vec::new(), 0, false).is_empty());
}

#[test]
fn similarity_skips_nan_and_filtered() {
    let c = sample();
    let scores = vec![f32::NAN.to_bits(), 5.0f32.to_bits(), (-1.0f32).to_bits()];
    let r = c.get_by_metadata_and_similarity(&Vec::new(), &scores, 3);
    assert_eq!(r.iter().map(|x| x.embedding.id.clone()).collect::<Vec<_>>(), vec!["c", "b"]);
    assert_eq!(f32::from_bits(r[0].score), -1.0);
    let filtered = c.get_by_metadata_and_similarity(&vec![pairs(&[("lang", "en")])], &scores, 3);
    assert!(filtered.is_empty());
}

#[test]
fn update_metadata_replaces_and_marks_dirty() {
    let mut c = sample();
    assert!(c.update_metadata("b", Some(pairs(&[("x", "y")]))));
    assert!(c.is_dirty());
    assert_eq!(c.embeddings[1].metadata, Some(pairs(&[("x", "y")])));
    assert!(c.update_metadata("a", None));
    assert_eq!(c.embeddings[0].metadata, None);
    let mut d = sample();
    assert!(!d.update_metadata("zz", None));
    assert!(!d.is_dirty());
}

#[test]
fn delete_by_id() {
    let mut c = sample();
    assert!(c.delete("b"));
    assert_eq!(c.list(), vec!["a".to_string(), "c".to_string()]);
    assert!(c.is_dirty());
    assert!(!c.delete("b"));
}

#[test]
fn delete_by_metadata_removes_every_match() {
    let mut c = sample();
    c.embeddings.push(emb("d", &[2.0, 2.0], Some(&[("lang", "fr")])));
    assert!(c.delete_by_metadata(&vec![pairs(&[("lang", "fr")])]));
    assert_eq!(c.list(), vec!["a".to_string(), "b".to_string()]);
    assert!(c.is_dirty());
    let mut d = sample();
    assert!(!d.delete_by_metadata(&vec![pairs(&[("lang", "de")])]));
    assert!(!d.is_dirty());
    assert!(d.delete_by_metadata(&Vec::new()));
    assert!(d.embeddings.is_empty());
}

#[test]
fn top_k_sorted_and_bounded() {
    let cands = vec![
        ScoreIndex { key: 5, index: 0 },
        ScoreIndex { key: 1, index: 1 },
        ScoreIndex { key: 3, index: 2 },
        ScoreIndex { key: 1, index: 3 },
        ScoreIndex { key: 9, index: 4 },
    ];
    let r = select_top_k(&cands, 3);
    assert_eq!(r, vec![
        ScoreIndex { key: 1, index: 1 },
        ScoreIndex { key: 1, index: 3 },
        ScoreIndex { key: 3, index: 2 },
    ]);
    assert_eq!(select_top_k(&cands, 10).len(), 5);
    assert!(select_top_k(&cands, 0).is_empty());
    assert!(select_top_k(&Vec::new(), 4).is_empty());
}

#[test]
fn order_keys_follow_float_order() {
    let values = [f32::NEG_INFINITY, -2.5, -1.0, -0.0, 0.0, 1e-30, 1.0, 3.5, f32::INFINITY];
    let keys: Vec<u32> = values.iter().map(|v| order_key(v.to_bits()).unwrap()).collect();
    for w in keys.windows(2) {
        assert!(w[0] < w[1]);
    }
    assert_eq!(order_key(f32::NAN.to_bits()), None);
    assert_eq!(order_key(0.0f32.to_bits()), Some(0x8000_0000));
    for v in values {
        assert_eq!(bits_of_key(order_key(v.to_bits()).unwrap()), v.to_bits());
    }
}

#[test]
fn str_equal_compares_characters() {
    assert!(str_equal("héllo", "héllo"));
    assert!(!str_equal("a", "ab"));
    assert!(!str_equal("a", "A"));
}

#[test]
fn file_names_are_percent_encoded() {
    assert_eq!(file_name("a/b c%"), "a%2Fb%20c%25");
    assert_eq!(file_name("plain"), "plain");
    assert_eq!(collection_name("a%2Fb%20c%25"), "a/b c%");
    assert_eq!(collection_name(&file_name("ünï/cødé")), "ünï/cødé");
}

#[test]
fn layout_decision() {
    assert_eq!(store_layout(false, false), StoreLayout::Missing);
    assert_eq!(store_layout(false, true), StoreLayout::Missing);
    assert_eq!(store_layout(true, true), StoreLayout::Current);
    assert_eq!(store_layout(true, false), StoreLayout::Legacy);
}

type LegacyEmbedding = (String, Vec<f32>, Option<HashMap<String, String>>);
type LegacyCollection = (u64, u32, Vec<LegacyEmbedding>);

fn legacy_sample() -> LegacyCollection {
    let mut meta = HashMap::new();
    meta.insert("lang".to_string(), "en".to_string());
    (
        2,
        1,
        vec![
            ("a".to_string(), vec![1.0, 0.0], Some(meta)),
            ("b".to_string(), vec![0.0, 1.0], None),
        ],
    )
}

#[test]
fn collection_record_matches_bincode_layout() {
    let mut c = Collection::new(2, Distance::Euclidean);
    c.embeddings.push(emb("a", &[1.0, 0.0], Some(&[("lang", "en")])));
    c.embeddings.push(emb("b", &[0.0, 1.0], None));
    let ours = encode_collection(&c);
    let theirs = bincode::serialize(&legacy_sample()).unwrap();
    assert_eq!(ours, theirs);
}

#[test]
fn collection_record_round_trip() {
    let c = sample();
    let bytes = encode_collection(&c);
    let back = decode_collection(&bytes).unwrap();
    assert_eq!(back.dimension, 2);
    assert_eq!(back.distance, Distance::Euclidean);
    assert_eq!(format!("{:?}", back.embeddings), format!("{:?}", c.embeddings));
    assert!(!back.is_dirty());
}

#[test]
fn malformed_records_are_rejected() {
    let bytes = encode_collection(&sample());
    assert!(decode_collection(&bytes[..bytes.len() - 1].to_vec()).is_none());
    let mut longer = bytes.clone();
    longer.push(0);
    assert!(decode_collection(&longer).is_none());
    let mut bad_metric = bytes.clone();
    bad_metric[8] = 7;
    assert!(decode_collection(&bad_metric).is_none());
    assert!(decode_collection(&Vec::new()).is_none());
}

#[test]
fn load_reports_corrupt_file() {
    let good = encode_collection(&sample());
    let files = vec![
        (MARKER_FILE.to_string(), Vec::new()),
        ("ok".to_string(), good),
        ("bad".to_string(), vec![1, 2, 3]),
    ];
    assert_eq!(load_collections(&files).err(), Some(LoadError::Corrupt(2)));
}

#[test]
fn load_rejects_duplicate_ids() {
    let mut c = Collection::new(1, Distance::Dot);
    c.embeddings.push(emb("a", &[1.0], None));
    c.embeddings.push(emb("a", &[2.0], None));
    assert!(!c.is_well_formed());
    let files = vec![("x".to_string(), encode_collection(&c))];
    assert_eq!(load_collections(&files).err(), Some(LoadError::Corrupt(0)));
}

#[test]
fn legacy_store_is_migrated() {
    let mut legacy: HashMap<String, LegacyCollection> = HashMap::new();
    legacy.insert("first".to_string(), legacy_sample());
    legacy.insert("second".to_string(), (3, 2, Vec::new()));
    let bytes = bincode::serialize(&legacy).unwrap();
    assert_eq!(decode_database(&bytes).unwrap().len(), 2);
    let db = convert_old_store(&bytes).unwrap();
    let mut names = db.list();
    names.sort();
    assert_eq!(names, vec!["first".to_string(), "second".to_string()]);
    let first = db.get_collection("first").unwrap();
    assert_eq!(first.dimension, 2);
    assert_eq!(first.distance, Distance::Euclidean);
    assert_eq!(first.list(), vec!["a".to_string(), "b".to_string()]);
    assert!(first.is_dirty());
    let second = db.get_collection("second").unwrap();
    assert_eq!(second.distance, Distance::Dot);
    assert!(db.is_dirty());
    assert!(db.tombstones().is_empty());
}

#[test]
fn corrupt_legacy_store_is_refused() {
    assert_eq!(convert_old_store(&vec![1, 0, 0]).err(), Some(LoadError::LegacyCorrupt));
}

#[test]
fn root_response_urls() {
    let version = AppVersion { semver: "0.1.0".to_string(), rev: None, compile_time: "now".to_string() };
    let r = RootResponse::new(version);
    assert_eq!(r.docs_url, "/docs");
    assert_eq!(r.openapi_url, "/openapi.json");
    assert_eq!(r.version.semver, "0.1.0");
}
