use semsearch::corpus::File;
use semsearch::embeddings::EmbeddingError;
use semsearch::ranking::get_files_matching_query_with_precision;
use semsearch::similarity::MAX_DIMENSION;

fn embedded(path: &str, embedding: Vec<i16>) -> File {
    let mut f = File::new(path.to_string(), format!("content of {}", path));
    f.embedding = embedding;
    f
}

#[test]
fn ranks_and_filters_by_threshold() {
    let files = vec![
        embedded("F1", vec![10000, 0]),
        embedded("F2", vec![0, 10000]),
        embedded("F3", vec![9000, 1000]),
    ];
    let r = get_files_matching_query_with_precision(&vec![10000, 0], files, 500000).unwrap();
    assert_eq!(r.len(), 2);
    assert_eq!(r[0].0.path, "F1");
    assert_eq!(r[0].1, 1000000);
    assert_eq!(r[1].0.path, "F3");
    assert_eq!(r[1].1, 993883);
}

#[test]
fn output_is_sorted_descending() {
    let files = vec![
        embedded("low", vec![1, 1]),
        embedded("high", vec![1, 0]),
        embedded("mid", vec![2, 1]),
    ];
    let r = get_files_matching_query_with_precision(&vec![1, 0], files, 0).unwrap();
    let paths: Vec<&str> = r.iter().map(|(f, _)| f.path.as_str()).collect();
    assert_eq!(paths, vec!["high", "mid", "low"]);
    assert!(r.windows(2).all(|w| w[0].1 >= w[1].1));
}

#[test]
fn equal_scores_keep_corpus_order() {
    let files = vec![
        embedded("a", vec![1, 0]),
        embedded("b", vec![0, 1]),
        embedded("c", vec![2, 0]),
        embedded("d", vec![5, 0]),
    ];
    let r = get_files_matching_query_with_precision(&vec![3, 0], files, -1).unwrap();
    let paths: Vec<&str> = r.iter().map(|(f, _)| f.path.as_str()).collect();
    assert_eq!(paths, vec!["a", "c", "d", "b"]);
}

#[test]
fn score_equal_to_threshold_is_excluded() {
    let files = vec![embedded("exact", vec![3, 4]), embedded("boundary", vec![4, 3])];
    let r = get_files_matching_query_with_precision(&vec![3, 4], files, 960000).unwrap();
    assert_eq!(r.len(), 1);
    assert_eq!(r[0].0.path, "exact");
    assert!(r.iter().all(|(_, s)| *s > 960000));
}

#[test]
fn zero_magnitude_file_scores_zero() {
    let files = vec![embedded("empty", vec![0, 0]), embedded("zero", vec![0, 0])];
    let r = get_files_matching_query_with_precision(&vec![1, 0], files, -1).unwrap();
    assert_eq!(r.len(), 2);
    assert_eq!(r[0].1, 0);
    assert_eq!(r[1].1, 0);
    assert_eq!(r[0].0.path, "empty");
}

#[test]
fn empty_corpus_gives_empty_ranking() {
    let r = get_files_matching_query_with_precision(&vec![1, 0], Vec::new(), 0).unwrap();
    assert!(r.is_empty());
}

#[test]
fn query_dimension_differing_from_a_file_is_an_error() {
    let files = vec![embedded("ok", vec![1, 0]), embedded("longer", vec![1, 0, 0])];
    let r = get_files_matching_query_with_precision(&vec![1, 0], files, 0);
    assert_eq!(r.unwrap_err(), EmbeddingError::DimensionMismatch);
    let files = vec![embedded("short", vec![1, 0])];
    let r = get_files_matching_query_with_precision(&vec![1, 0, 0], files, 0);
    assert_eq!(r.unwrap_err(), EmbeddingError::DimensionMismatch);
}

#[test]
fn too_long_query_is_an_error() {
    let r = get_files_matching_query_with_precision(&vec![1; MAX_DIMENSION + 1], Vec::new(), 0);
    assert_eq!(r.unwrap_err(), EmbeddingError::DimensionTooLarge);
}
