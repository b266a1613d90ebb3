use cognitive_compute_mesh::cache::EmbeddingCache;
use cognitive_compute_mesh::embeddings::{fnv1a_hash, MockEmbeddings};
use cognitive_compute_mesh::protocol::Document;
use cognitive_compute_mesh::reranker::Reranker;
use cognitive_compute_mesh::retrieval::{is_whitespace, tokenize, BM25Index};
use cognitive_compute_mesh::vector::MemoryVectorStore;
use std::collections::HashMap;

fn make_doc(id: &str, content: &str) -> Document {
    Document { id: id.to_string(), content: content.to_string(), metadata: HashMap::new() }
}

#[test]
fn test_mock_embeddings_are_deterministic() {
    let embedder = MockEmbeddings::new(128);
    let a = embedder.embedding_seeds("hello world");
    let b = embedder.embedding_seeds("hello world");
    assert_eq!(a, b, "Same text must produce same embedding");
    let c = embedder.embedding_seeds("completely different text xyz");
    assert_ne!(a, c, "Different texts must produce different embeddings");
}

#[test]
fn embedding_seeds_follow_fnv1a_and_the_coordinate_step() {
    assert_eq!(fnv1a_hash(b""), 14695981039346656037);
    assert_eq!(fnv1a_hash(b"a"), 0xaf63dc4c8601ec8c);
    let embedder = MockEmbeddings::new(3);
    assert_eq!(embedder.dimensions(), 3);
    assert_eq!(embedder.model_name(), "mock-embeddings-v1");
    let seeds = embedder.embedding_seeds("a");
    assert_eq!(seeds.len(), 3);
    let h = fnv1a_hash(b"a");
    for (i, s) in seeds.iter().enumerate() {
        let seed = h.wrapping_add(i as u64).wrapping_mul(6364136223846793005).wrapping_add(1442695040888963407);
        assert_eq!(*s as u64, seed >> 33);
    }
    assert!(MockEmbeddings::new(0).embedding_seeds("x").is_empty());
}

#[test]
fn tokenize_lowercases_trims_and_drops_short_words() {
    let t = tokenize("Rust, is a  systems\tprogramming-language! x é");
    assert_eq!(t, vec!["rust", "is", "systems", "programming-language", "é"]);
    assert!(tokenize("   ").is_empty());
    assert_eq!(tokenize("(Hello)World"), vec!["hello)world"]);
}

#[test]
fn bm25_index_counts_tokens_and_documents() {
    let mut index = BM25Index::new();
    index.add_document(make_doc("1", "Rust is a systems programming language"));
    index.add_document(make_doc("2", "Python is used for data science and machine learning"));
    index.add_document(make_doc("3", "Rust ownership model prevents memory errors"));
    assert_eq!(index.len(), 3);
    assert_eq!(index.doc_freq("rust"), 2);
    assert_eq!(index.doc_freq("is"), 2);
    assert_eq!(index.doc_freq("programming"), 1);
    assert_eq!(index.doc_freq("absent"), 0);
    assert_eq!(index.postings("rust"), vec![(0, 1), (2, 1)]);
    assert_eq!(index.doc_length(0), 5);
    assert_eq!(index.doc_length(1), 9);
    assert_eq!(index.total_length(), 5 + 9 + 6);
    assert_eq!(index.term_count(1, "python"), 1);
    assert_eq!(index.get_document(2).unwrap().id, "3");
    assert!(index.get_document(3).is_none());
    let n = index.len();
    index.add_document(make_doc("4", "Verified code"));
    assert_eq!(index.len(), n + 1);
    assert_eq!(index.get_document(n).unwrap().id, "4");
    assert_eq!(index.get_document(0).unwrap().id, "1");
    let mut repeated = BM25Index::new();
    repeated.add_document(make_doc("r", "go go GO stop"));
    assert_eq!(repeated.term_count(0, "go"), 3);
    assert_eq!(repeated.doc_freq("go"), 1);
    assert!(repeated.try_add_document(make_doc("s", "go")).is_ok());
    assert_eq!(repeated.doc_freq("go"), 2);
}

#[test]
fn embedding_cache_reads_back_writes_and_evicts_least_recent() {
    let mut cache = EmbeddingCache::new(2);
    assert_eq!(cache.get("a"), None);
    cache.set("a".to_string(), vec![1]);
    cache.set("b".to_string(), vec![2]);
    assert_eq!(cache.get("a"), Some(vec![1]));
    cache.set("c".to_string(), vec![3]);
    assert_eq!(cache.get("b"), None);
    assert_eq!(cache.get("a"), Some(vec![1]));
    assert_eq!(cache.get("c"), Some(vec![3]));
    cache.set("a".to_string(), vec![9]);
    assert_eq!(cache.get("a"), Some(vec![9]));
    let mut default_sized = EmbeddingCache::new(0);
    for i in 0..1001u32 {
        default_sized.set(i.to_string(), vec![i]);
    }
    assert_eq!(default_sized.get("0"), None);
    assert_eq!(default_sized.get("1"), Some(vec![1]));
}

#[test]
fn reranker_keeps_the_order() {
    let r = Reranker::new();
    assert_eq!(r.rerank("q", vec![3, 1, 2]), vec![3, 1, 2]);
}

#[test]
fn vector_store_upserts_replaces_and_deletes() {
    let mut store = MemoryVectorStore::new();
    assert_eq!(store.count(), 0);
    store.upsert("a", vec![1, 2], serde_json::Value::Null);
    store.upsert("b", vec![3], serde_json::Value::Bool(true));
    store.upsert("a", vec![4], serde_json::Value::Null);
    assert_eq!(store.count(), 2);
    let a = store.entries().iter().find(|e| e.0 == "a").unwrap();
    assert_eq!(a.1.vector, vec![4]);
    assert_eq!(a.1.id, "a");
    store.delete("a");
    store.delete("missing");
    assert_eq!(store.count(), 1);
    assert_eq!(store.entries()[0].0, "b");
}

#[test]
fn whitespace_matches_the_standard_library() {
    for u in 0..=0x10FFFFu32 {
        if let Some(c) = char::from_u32(u) {
            assert_eq!(is_whitespace(c), c.is_whitespace(), "U+{:04X}", u);
        }
    }
}

#[test]
fn embedding_batches_are_deterministic() {
    let a = MockEmbeddings::new(8);
    let b = MockEmbeddings::new(8);
    let texts = vec!["alpha".to_string(), "beta".to_string(), "alpha".to_string()];
    let first = a.embed_seeds(&texts);
    assert_eq!(first.len(), 3);
    assert!(first.iter().all(|v| v.len() == 8));
    assert_eq!(first[0], first[2]);
    assert_ne!(first[0], first[1]);
    assert_eq!(first, b.embed_seeds(&texts));
    assert_eq!(first[1], a.embedding_seeds("beta"));
}
