use std::collections::HashSet;

use vecdb::pipeline::{score_bits_of, RetrievedChunk};
use vecdb::rank::score_key_of;
use vecdb::{Film, FilmRagPipeline, PipelineError};

fn three_films() -> Vec<Film> {
    vec![
        Film {
            id: 1,
            title: "ACADEMY DINOSAUR".to_string(),
            description: "An epic comedy of a dinosaur and a teacher who must defeat a moose."
                .to_string(),
        },
        Film {
            id: 2,
            title: "ROMANCE LIONS".to_string(),
            description: "A romantic comedy about two lions in love at the central park zoo."
                .to_string(),
        },
        Film {
            id: 3,
            title: "WAR ENGINES".to_string(),
            description: "An epic war drama about a brave squadron of helicopter pilots."
                .to_string(),
        },
    ]
}

#[test]
fn build_pipeline_default_succeeds() {
    let p = FilmRagPipeline::new();
    assert!(p.is_ok(), "default builder should succeed: {:?}", p.err());
}

#[test]
fn index_films_populates_lookup() {
    let mut p = FilmRagPipeline::new().unwrap();
    let films = three_films();
    p.index_films(&films).unwrap();
    assert_eq!(p.film_count(), 3);
}

#[test]
fn search_returns_hits_with_known_ids() {
    let mut p = FilmRagPipeline::new().unwrap();
    let films = three_films();
    p.index_films(&films).unwrap();
    let hits = p.search("a romantic comedy", 3).unwrap();
    assert!(!hits.is_empty(), "should return at least one hit");
    let allowed: HashSet<u64> = films.iter().map(|f| f.id).collect();
    for h in &hits {
        assert!(allowed.contains(&h.id), "hit id {} not in {:?}", h.id, allowed);
    }
}

#[test]
fn search_top_k_limits_results() {
    let mut p = FilmRagPipeline::new().unwrap();
    p.index_films(&three_films()).unwrap();
    let hits = p.search("anything", 2).unwrap();
    assert!(hits.len() <= 2, "expected at most 2 hits, got {}", hits.len());
}

#[test]
fn hits_are_distinct_sorted_and_titled() {
    let mut p = FilmRagPipeline::new().unwrap();
    let films = three_films();
    p.index_films(&films).unwrap();
    let hits = p.search("an epic comedy", 3).unwrap();
    let ids: HashSet<u64> = hits.iter().map(|h| h.id).collect();
    assert_eq!(ids.len(), hits.len());
    for w in hits.windows(2) {
        assert!(score_key_of(w[0].score_bits) >= score_key_of(w[1].score_bits));
        assert!(f32::from_bits(w[0].score_bits) >= f32::from_bits(w[1].score_bits));
    }
    for h in &hits {
        let f = films.iter().find(|f| f.id == h.id).unwrap();
        assert_eq!(h.title, f.title);
        assert!(f32::from_bits(h.score_bits) >= 0.0);
    }
}

#[test]
fn reindexing_same_id_keeps_one_film() {
    let mut p = FilmRagPipeline::new().unwrap();
    let films = three_films();
    p.index_films(&films).unwrap();
    p.index_films(&films[..1]).unwrap();
    assert_eq!(p.film_count(), 3);
}

#[test]
fn empty_pipeline_search_has_no_hits() {
    let p = FilmRagPipeline::new().unwrap();
    assert_eq!(p.film_count(), 0);
    let hits = p.search("a romantic comedy", 5).unwrap();
    assert!(hits.is_empty());
}

#[test]
fn top_zero_returns_nothing() {
    let mut p = FilmRagPipeline::new().unwrap();
    p.index_films(&three_films()).unwrap();
    assert!(p.search("a romantic comedy", 0).unwrap().is_empty());
}

#[test]
fn empty_description_fails_indexing_of_that_film() {
    let mut p = FilmRagPipeline::new().unwrap();
    let mut films = three_films();
    films[1].description = String::new();
    match p.index_films(&films) {
        Err(PipelineError::Index { film_id, .. }) => assert_eq!(film_id, 2),
        other => panic!("expected an index error, got {:?}", other),
    }
    assert_eq!(p.film_count(), 1);
}

#[test]
fn unknown_chunks_are_skipped() {
    let mut p = FilmRagPipeline::new().unwrap();
    p.index_films(&three_films()).unwrap();
    let stray = RetrievedChunk {
        chunk_key: 12345,
        fused_bits: Some(1.0_f32.to_bits()),
        dense_bits: None,
        sparse_bits: None,
    };
    assert!(p.select_hits(&vec![stray], 5).is_empty());
}

#[test]
fn best_available_score_is_chosen_in_order() {
    let r = RetrievedChunk {
        chunk_key: 1,
        fused_bits: None,
        dense_bits: Some(0.5_f32.to_bits()),
        sparse_bits: Some(2.0_f32.to_bits()),
    };
    assert_eq!(score_bits_of(&r), 0.5_f32.to_bits());
    let none = RetrievedChunk { chunk_key: 1, fused_bits: None, dense_bits: None, sparse_bits: None };
    assert_eq!(score_bits_of(&none), 0.0_f32.to_bits());
    let fused = RetrievedChunk { fused_bits: Some(0.25_f32.to_bits()), ..r };
    assert_eq!(score_bits_of(&fused), 0.25_f32.to_bits());
}

#[test]
fn a_film_cut_into_several_chunks_is_one_hit() {
    let mut p = FilmRagPipeline::new().unwrap();
    let mut films = three_films();
    films[0].description = "An epic comedy of a dinosaur and a teacher. ".repeat(40);
    p.index_films(&films).unwrap();
    let hits = p.search("an epic comedy of a dinosaur", 5).unwrap();
    let ids: HashSet<u64> = hits.iter().map(|h| h.id).collect();
    assert_eq!(ids.len(), hits.len());
    assert_eq!(hits.len(), 3);
}

#[test]
fn later_film_with_same_id_replaces_earlier() {
    let mut p = FilmRagPipeline::new().unwrap();
    let films = three_films();
    p.index_films(&films).unwrap();
    let renamed = Film { id: 2, title: "ROMANCE TIGERS".to_string(), description: films[1].description.clone() };
    p.index_films(&[renamed]).unwrap();
    assert_eq!(p.film_count(), 3);
    let hits = p.search("a romantic comedy about two lions", 3).unwrap();
    assert_eq!(hits.len(), 3);
    let two = hits.iter().find(|h| h.id == 2).unwrap();
    assert_eq!(two.title, "ROMANCE TIGERS");
}

#[test]
fn empty_query_is_a_query_error() {
    let mut p = FilmRagPipeline::new().unwrap();
    p.index_films(&three_films()).unwrap();
    assert!(matches!(p.search("", 3), Err(PipelineError::Query { .. })));
}

#[test]
fn top_k_is_honoured_when_enough_films_are_indexed() {
    let mut p = FilmRagPipeline::new().unwrap();
    let mut films = three_films();
    for id in 4..=7u64 {
        films.push(Film {
            id,
            title: format!("FILM {id}"),
            description: format!("A short drama number {id} about a dog and a cat."),
        });
    }
    p.index_films(&films).unwrap();
    assert_eq!(p.film_count(), 7);
    let hits = p.search("a romantic comedy", 5).unwrap();
    assert_eq!(hits.len(), 5);
    assert!(f32::from_bits(hits[0].score_bits) >= 0.0);
    for h in &hits {
        let s = f32::from_bits(h.score_bits);
        assert!(s > 0.0 && s.is_finite());
        assert!(h.id > 0);
    }
    assert_eq!(p.search("anything", 2).unwrap().len(), 2);
}

#[test]
fn first_empty_description_is_reported_and_later_films_are_not_indexed() {
    let mut p = FilmRagPipeline::new().unwrap();
    let mut films = three_films();
    films[0].description = String::new();
    films[2].description = String::new();
    match p.index_films(&films) {
        Err(PipelineError::Index { film_id, .. }) => assert_eq!(film_id, 1),
        other => panic!("expected an index error, got {:?}", other),
    }
    assert_eq!(p.film_count(), 0);
}
