use vecdb::corpus::{join, parent_dir, DEFAULT_COLLECTION, DEFAULT_QDRANT_URL, DEFAULT_QUERY, DEFAULT_TOP_K};
use vecdb::default_corpus_path;

#[test]
fn corpus_path_lives_under_workspace_root() {
    let p = default_corpus_path("/home/dev/rust-vector-databases/crates/vec-cli").unwrap();
    let s = p.as_str();
    assert!(s.ends_with("data/films.json"), "got {s}");
}

#[test]
fn corpus_path_is_two_levels_up() {
    let p = default_corpus_path("/home/dev/ws/crates/vec-cli").unwrap();
    assert_eq!(p, "/home/dev/ws/data/films.json");
}

#[test]
fn corpus_path_ignores_trailing_separators() {
    let p = default_corpus_path("/ws/crates/vec-cli/").unwrap();
    assert_eq!(p, "/ws/data/films.json");
}

#[test]
fn corpus_path_under_root_directory() {
    assert_eq!(default_corpus_path("/crates/vec-cli").unwrap(), "/data/films.json");
}

#[test]
fn corpus_path_needs_a_grandparent() {
    assert_eq!(default_corpus_path("/"), None);
    assert_eq!(default_corpus_path(""), None);
    assert_eq!(default_corpus_path("vec-cli"), None);
    assert_eq!(default_corpus_path("/vec-cli"), None);
}

#[test]
fn relative_crate_dir_gives_relative_corpus_path() {
    assert_eq!(default_corpus_path("crates/vec-cli").unwrap(), "data/films.json");
}

#[test]
fn parent_of_paths() {
    assert_eq!(parent_dir("/a/b"), Some("/a".to_string()));
    assert_eq!(parent_dir("/a"), Some("/".to_string()));
    assert_eq!(parent_dir("a//b"), Some("a".to_string()));
    assert_eq!(parent_dir("a"), Some(String::new()));
    assert_eq!(parent_dir("/"), None);
}

#[test]
fn join_adds_one_separator() {
    assert_eq!(join("a", "b"), "a/b");
    assert_eq!(join("a/", "b"), "a/b");
    assert_eq!(join("", "b"), "b");
}

#[test]
fn defaults_match_the_demos() {
    assert_eq!(DEFAULT_QDRANT_URL, "http://localhost:6334");
    assert_eq!(DEFAULT_COLLECTION, "sakila_films");
    assert_eq!(DEFAULT_TOP_K, 5);
    assert_eq!(DEFAULT_QUERY, "a romantic comedy");
}

#[test]
fn parent_skips_dot_components_like_std() {
    for p in ["a/.", "a/b/.", "a/./b", "./a", ".", "./", "/.", "a/..", "..", ".a/b", "a//./b//", "//a", "/a/./"] {
        let expected = std::path::Path::new(p).parent().map(|q| q.to_str().unwrap().to_string());
        assert_eq!(parent_dir(p), expected, "parent of {p:?}");
    }
    assert_eq!(parent_dir("a/."), Some(String::new()));
    assert_eq!(parent_dir("./a"), Some(".".to_string()));
}

#[test]
fn corpus_path_with_dot_components() {
    assert_eq!(default_corpus_path("/ws/crates/./vec-cli/.").unwrap(), "/ws/data/films.json");
}
