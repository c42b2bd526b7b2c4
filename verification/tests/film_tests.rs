use vecdb::film::{collection_step, creation_already_done, decode_hit, hit_id, hit_title, CollectionStep, PayloadValueModel, PointIdModel};
use vecdb::Film;

#[test]
fn numeric_point_id_is_the_film_id() {
    assert_eq!(hit_id(&Some(PointIdModel::Num(42))), 42);
}

#[test]
fn missing_or_uuid_point_id_is_zero() {
    assert_eq!(hit_id(&None), 0);
    assert_eq!(hit_id(&Some(PointIdModel::Uuid("5c56c793-69f3-4fbf-87e6-c4bf54c28c26".to_string()))), 0);
}

#[test]
fn title_comes_from_string_payload() {
    assert_eq!(hit_title(&Some(PayloadValueModel::Text("TITANIC".to_string()))), "TITANIC");
    assert_eq!(hit_title(&Some(PayloadValueModel::Other)), "");
    assert_eq!(hit_title(&None), "");
}

#[test]
fn decode_hit_keeps_score_bits() {
    let h = decode_hit(
        &Some(PointIdModel::Num(7)),
        &Some(PayloadValueModel::Text("TITANIC".to_string())),
        0.92_f32.to_bits(),
    );
    assert_eq!(h.id, 7);
    assert_eq!(h.title, "TITANIC");
    assert_eq!(f32::from_bits(h.score_bits), 0.92_f32);
}

#[test]
fn existing_collection_is_left_alone() {
    assert_eq!(collection_step(true), CollectionStep::Ready);
    assert_eq!(collection_step(false), CollectionStep::Create);
}

#[test]
fn duplicate_film_is_identical() {
    let f = Film {
        id: 42,
        title: "ACADEMY DINOSAUR".to_string(),
        description: "A short film about an old fossil and a brand-new student.".to_string(),
    };
    let g = f.duplicate();
    assert_eq!(g.id, 42);
    assert_eq!(g.title, f.title);
    assert_eq!(g.description, f.description);
}

#[test]
fn film_point_is_keyed_by_id_and_embeds_the_description() {
    let f = Film { id: 7, title: "ACE GOLDFINGER".to_string(), description: "A astounding epistle.".to_string() };
    let p = vecdb::film::film_point(&f).unwrap();
    assert_eq!(p.point_id, 7);
    assert_eq!(p.embedded_text, "A astounding epistle.");
    assert_eq!(p.payload_id, 7);
    assert_eq!(p.payload_title, "ACE GOLDFINGER");
    assert_eq!(p.payload_description, "A astounding epistle.");
}

#[test]
fn already_exists_reply_counts_as_done() {
    assert!(creation_already_done("Wrong input: Collection `sakila_films` already exists!"));
    assert!(creation_already_done("already exists"));
    assert!(!creation_already_done("connection refused"));
    assert!(!creation_already_done("already exist"));
    assert!(!creation_already_done(""));
}

#[test]
fn film_without_title_is_refused_as_empty_text() {
    let f = Film { id: 1, title: String::new(), description: "x".to_string() };
    assert!(matches!(vecdb::film::film_point(&f), Err(vecdb::EmbedError::EmptyText)));
}

#[test]
fn qdrant_hits_are_sorted_by_score_highest_first() {
    let hit = |id: u64, s: f32| vecdb::FilmHitRecord { id, title: format!("F{id}"), score_bits: s.to_bits() };
    let hits = vec![hit(1, 0.2), hit(2, 0.9), hit(3, 0.2), hit(4, -0.5), hit(5, 0.7)];
    let sorted = vecdb::film::order_hits_by_score(&hits);
    let ids: Vec<u64> = sorted.iter().map(|h| h.id).collect();
    assert_eq!(ids, vec![2, 5, 1, 3, 4]);
    assert_eq!(sorted[0].title, "F2");
}
