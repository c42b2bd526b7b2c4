use vecdb::{EmbedError, HashEmbedder, DEFAULT_DIM};

#[test]
fn dim_is_what_we_asked_for() {
    let e = HashEmbedder::new(64);
    assert_eq!(e.dim(), 64);
    let v = e.hash_components("hello").unwrap();
    assert_eq!(v.len(), 64);
}

#[test]
fn deterministic_across_calls() {
    let e = HashEmbedder::new(DEFAULT_DIM);
    let a = e.hash_components("a romantic comedy").unwrap();
    let b = e.hash_components("a romantic comedy").unwrap();
    assert_eq!(a, b);
}

#[test]
fn different_inputs_different_vectors() {
    let e = HashEmbedder::new(DEFAULT_DIM);
    let a = e.hash_components("a romantic comedy").unwrap();
    let b = e.hash_components("a war epic").unwrap();
    assert_ne!(a, b);
}

#[test]
fn empty_text_errors() {
    let e = HashEmbedder::new(DEFAULT_DIM);
    assert_eq!(e.hash_components("").unwrap_err(), EmbedError::EmptyText);
}

#[test]
fn batch_matches_single() {
    let e = HashEmbedder::new(DEFAULT_DIM);
    let texts = ["one", "two", "three"];
    let batch = e.hash_components_batch(&texts).unwrap();
    assert_eq!(batch.len(), 3);
    for (i, t) in texts.iter().enumerate() {
        assert_eq!(batch[i], e.hash_components(t).unwrap());
    }
}

#[test]
fn batch_with_an_empty_text_errors() {
    let e = HashEmbedder::new(8);
    assert_eq!(e.hash_components_batch(&["one", "", "three"]).unwrap_err(), EmbedError::EmptyText);
}

#[test]
fn empty_batch_is_empty() {
    let e = HashEmbedder::new(8);
    assert_eq!(e.hash_components_batch(&[]).unwrap(), Vec::<Vec<u64>>::new());
}

#[test]
fn components_differ_from_each_other_and_from_their_index() {
    let e = HashEmbedder::new(4);
    let v = e.hash_components("hello").unwrap();
    assert_ne!(v, vec![0, 1, 2, 3]);
    assert_ne!(v[0], v[1]);
}

#[test]
fn one_dimension_embedder() {
    let e = HashEmbedder::new(1);
    assert_eq!(e.dim(), 1);
    assert_eq!(e.hash_components("x").unwrap().len(), 1);
}

#[test]
fn prefix_of_longer_embedding_matches() {
    let small = HashEmbedder::new(4).hash_components("film").unwrap();
    let large = HashEmbedder::new(16).hash_components("film").unwrap();
    assert_eq!(&large[..4], &small[..]);
}
