use semsearch::cache::{cache_key, key_of_digest, VectorCache};
use semsearch::embeddings::EmbeddingError;
use semsearch::similarity::MAX_DIMENSION;

#[test]
fn key_is_namespaced_md5_hex() {
    assert_eq!(cache_key("hello"), "embedding:5d41402abc4b2a76b9719d911017c592");
    assert_eq!(cache_key(""), "embedding:d41d8cd98f00b204e9800998ecf8427e");
}

#[test]
fn same_text_same_key() {
    assert_eq!(cache_key("hello"), cache_key("hello"));
    assert_ne!(cache_key("hello"), cache_key("hello "));
}

#[test]
fn second_embedding_of_same_text_is_a_hit() {
    let mut cache = VectorCache::new();
    let texts = vec!["hello".to_string()];
    let missing = cache.misses(&texts);
    assert_eq!(missing, vec!["hello".to_string()]);
    assert_eq!(cache.store_batch(missing, vec![vec![1, 2, 3]]), Ok(()));
    assert!(cache.misses(&texts).is_empty());
    assert_eq!(cache.lookup("hello"), Some(vec![1, 2, 3]));
    assert_eq!(cache.embeddings_for(&texts), Some(vec![vec![1, 2, 3]]));
    assert_eq!(cache.len(), 1);
}

#[test]
fn misses_are_deduplicated_and_ordered() {
    let mut cache = VectorCache::new();
    assert_eq!(cache.insert("b".to_string(), vec![1]), Ok(()));
    let texts: Vec<String> = ["c", "a", "b", "c", "a"].iter().map(|s| s.to_string()).collect();
    assert_eq!(cache.misses(&texts), vec!["c".to_string(), "a".to_string()]);
    assert_eq!(cache.embeddings_for(&texts), None);
}

#[test]
fn reinsertion_overwrites() {
    let mut cache = VectorCache::new();
    assert_eq!(cache.insert("x".to_string(), vec![1, 0]), Ok(()));
    assert_eq!(cache.insert("x".to_string(), vec![0, 1]), Ok(()));
    assert_eq!(cache.len(), 1);
    assert_eq!(cache.lookup("x"), Some(vec![0, 1]));
    assert_eq!(cache.lookup("y"), None);
}

#[test]
fn store_batch_refuses_mismatched_batches() {
    let mut cache = VectorCache::new();
    let texts = vec!["a".to_string(), "b".to_string()];
    assert_eq!(cache.store_batch(texts.clone(), vec![vec![1]]), Err(EmbeddingError::CountMismatch));
    let big = vec![0i16; MAX_DIMENSION + 1];
    assert_eq!(cache.store_batch(texts, vec![vec![1], big.clone()]), Err(EmbeddingError::DimensionTooLarge));
    assert_eq!(cache.len(), 0);
    assert_eq!(cache.insert("a".to_string(), big), Err(EmbeddingError::DimensionTooLarge));
    assert_eq!(cache.len(), 0);
}

#[test]
fn stored_documents_are_scored_in_order() {
    let mut cache = VectorCache::new();
    let texts = vec!["java".to_string(), "rust".to_string()];
    assert_eq!(cache.store_batch(texts, vec![vec![0, 10000], vec![9000, 1000]]), Ok(()));
    let scores = cache.retrieve_documents_and_compute_similarity(&vec![10000, 0]);
    assert_eq!(scores, Ok(vec![("java".to_string(), 0), ("rust".to_string(), 993883)]));
}

#[test]
fn stored_documents_of_other_dimension_fail_retrieval() {
    let mut cache = VectorCache::new();
    assert_eq!(cache.insert("a".to_string(), vec![1, 0]), Ok(()));
    assert_eq!(cache.insert("b".to_string(), vec![1, 0, 0]), Ok(()));
    let r = cache.retrieve_documents_and_compute_similarity(&vec![1, 0]);
    assert_eq!(r, Err(EmbeddingError::DimensionMismatch));
    let r = cache.retrieve_documents_and_compute_similarity(&vec![0; MAX_DIMENSION + 1]);
    assert_eq!(r, Err(EmbeddingError::DimensionTooLarge));
}

#[test]
fn empty_cache_lists_nothing() {
    let cache = VectorCache::new();
    assert_eq!(cache.len(), 0);
    assert!(cache.documents().is_empty());
    assert_eq!(cache.retrieve_documents_and_compute_similarity(&vec![1, 2]), Ok(Vec::new()));
}

#[test]
fn key_of_digest_is_prefixed_lower_hex() {
    assert_eq!(key_of_digest(&vec![0x00, 0x0f, 0xa5, 0xff]), "embedding:000fa5ff");
    assert_eq!(key_of_digest(&Vec::new()), "embedding:");
    let hello = vec![
        0x5d, 0x41, 0x40, 0x2a, 0xbc, 0x4b, 0x2a, 0x76, 0xb9, 0x71, 0x9d, 0x91, 0x10, 0x17, 0xc5, 0x92,
    ];
    assert_eq!(key_of_digest(&hello), "embedding:5d41402abc4b2a76b9719d911017c592");
}

#[test]
fn cached_documents_form_a_corpus() {
    let mut cache = VectorCache::new();
    assert_eq!(cache.insert("hello".to_string(), vec![3, 4]), Ok(()));
    let docs = cache.documents();
    assert_eq!(docs.len(), 1);
    assert_eq!(docs[0].path, "embedding:5d41402abc4b2a76b9719d911017c592");
    assert_eq!(docs[0].content, "hello");
    assert_eq!(docs[0].embedding, vec![3, 4]);
}
