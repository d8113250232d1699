use semsearch::scan::{collect_files, is_hidden, ScanEntry};

fn entry(components: &[&str], content: Result<&str, &str>) -> ScanEntry {
    ScanEntry {
        components: components.iter().map(|c| c.to_string()).collect(),
        content: content.map(|s| s.to_string()).map_err(|e| e.to_string()),
    }
}

#[test]
fn hidden_entries_are_skipped_at_any_depth() {
    let entries = vec![
        entry(&[".hidden"], Ok("secret")),
        entry(&["sub", "inner.txt"], Ok("inner")),
        entry(&[".git", "config"], Ok("cfg")),
        entry(&["sub", ".deep", "x.txt"], Ok("x")),
        entry(&["visible.txt"], Ok("visible")),
    ];
    let r = collect_files("root", &entries);
    let paths: Vec<&str> = r.files.iter().map(|f| f.path.as_str()).collect();
    assert_eq!(paths, vec!["root/sub/inner.txt", "root/visible.txt"]);
    assert_eq!(r.files[0].content, "inner");
    assert!(r.files.iter().all(|f| f.embedding.is_empty()));
    assert!(r.skipped.is_empty());
}

#[test]
fn nested_directories_are_aggregated() {
    let entries = vec![
        entry(&["a", "b", "c", "d", "e.txt"], Ok("deep")),
        entry(&["top.rs"], Ok("top")),
    ];
    let r = collect_files("test_files", &entries);
    let paths: Vec<&str> = r.files.iter().map(|f| f.path.as_str()).collect();
    assert_eq!(paths, vec!["test_files/a/b/c/d/e.txt", "test_files/top.rs"]);
}

#[test]
fn unreadable_file_is_reported_and_skipped() {
    let entries = vec![
        entry(&["one.txt"], Ok("1")),
        entry(&["locked.txt"], Err("permission denied")),
        entry(&["two.txt"], Ok("2")),
    ];
    let r = collect_files("d", &entries);
    let paths: Vec<&str> = r.files.iter().map(|f| f.path.as_str()).collect();
    assert_eq!(paths, vec!["d/one.txt", "d/two.txt"]);
    assert_eq!(r.skipped, vec![("d/locked.txt".to_string(), "permission denied".to_string())]);
}

#[test]
fn unreadable_hidden_file_is_not_reported() {
    let entries = vec![entry(&[".cache", "blob"], Err("invalid UTF-8"))];
    let r = collect_files("d", &entries);
    assert!(r.files.is_empty());
    assert!(r.skipped.is_empty());
}

#[test]
fn hidden_names_start_with_a_dot() {
    assert!(is_hidden(".git"));
    assert!(is_hidden("."));
    assert!(!is_hidden("visible.txt"));
    assert!(!is_hidden("a.b"));
    assert!(!is_hidden(""));
}

#[test]
fn test_read_files_in_dir() {
    let entries = vec![entry(&["example.rs"], Ok("fn main() {}")), entry(&["test1.js"], Ok("console.log()"))];
    let files = collect_files("test_files", &entries).files;
    assert_eq!(files.len(), 2);
    assert_eq!(files[0].path, "test_files/example.rs");
    assert_eq!(files[1].path, "test_files/test1.js");
}
