use semsearch::corpus::File;
use semsearch::embeddings::{append_embeddings_to_files, EmbeddingError};
use semsearch::similarity::MAX_DIMENSION;

fn corpus() -> Vec<File> {
    vec![
        File::new("test1".to_string(), "console.log()".to_string()),
        File::new("test2".to_string(), "System.out.println()".to_string()),
    ]
}

#[test]
fn attaches_each_vector_to_its_file() {
    let r = append_embeddings_to_files(corpus(), vec![vec![1, 2], vec![3, 4]]).unwrap();
    assert_eq!(r.len(), 2);
    assert_eq!(r[0].path, "test1");
    assert_eq!(r[0].content, "console.log()");
    assert_eq!(r[0].embedding, vec![1, 2]);
    assert_eq!(r[1].path, "test2");
    assert_eq!(r[1].embedding, vec![3, 4]);
}

#[test]
fn count_mismatch_is_an_error() {
    let r = append_embeddings_to_files(corpus(), vec![vec![1, 2]]);
    assert_eq!(r.unwrap_err(), EmbeddingError::CountMismatch);
}

#[test]
fn dimension_mismatch_is_an_error() {
    let r = append_embeddings_to_files(corpus(), vec![vec![1, 2], vec![3]]);
    assert_eq!(r.unwrap_err(), EmbeddingError::DimensionMismatch);
}

#[test]
fn too_large_dimension_is_an_error() {
    let big = vec![1i16; MAX_DIMENSION + 1];
    let r = append_embeddings_to_files(corpus(), vec![big.clone(), big]);
    assert_eq!(r.unwrap_err(), EmbeddingError::DimensionTooLarge);
}

#[test]
fn empty_batch_for_empty_corpus() {
    let r = append_embeddings_to_files(Vec::new(), Vec::new()).unwrap();
    assert!(r.is_empty());
}
