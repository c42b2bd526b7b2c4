use vecdb::fusion::rank_groups;
use vecdb::rank::{order_by_key_desc, order_by_score_desc, score_key_of};

/// Reciprocal rank fusion assembled from the library's pieces: rank groups,
/// a score per group, then the score order.
fn fuse(k: f32, lists: &[&[i32]]) -> Vec<(i32, f32)> {
    let (ids, ranks) = rank_groups(lists);
    let scores: Vec<f32> = ranks
        .iter()
        .map(|rs| {
            let mut s = 0.0_f32;
            for &r in rs {
                s += 1.0_f32 / (k + r as f32);
            }
            s
        })
        .collect();
    let bits: Vec<u32> = scores.iter().map(|s| s.to_bits()).collect();
    order_by_score_desc(&bits)
        .into_iter()
        .map(|g| (ids[g], scores[g]))
        .collect()
}

#[test]
fn rrf_combines_two_lists() {
    let dense = vec![1, 2, 3];
    let sparse = vec![2, 1, 4];
    let fused = fuse(60.0, &[&dense, &sparse]);
    let ids: Vec<i32> = fused.iter().map(|(id, _)| *id).collect();
    assert!(ids.starts_with(&[1, 2]) || ids.starts_with(&[2, 1]));
    assert!(ids.contains(&3));
    assert!(ids.contains(&4));
}

#[test]
fn rrf_one_list_is_identity_ranking() {
    let only = vec![10, 20, 30];
    let fused = fuse(60.0, &[&only]);
    let ids: Vec<i32> = fused.iter().map(|(id, _)| *id).collect();
    assert_eq!(ids, vec![10, 20, 30]);
}

#[test]
fn rrf_higher_rank_means_higher_score() {
    let only = vec![5, 6];
    let fused = fuse(60.0, &[&only]);
    assert!(fused[0].1 > fused[1].1);
}

#[test]
fn rrf_empty_input_is_empty_output() {
    let empty: Vec<i32> = vec![];
    let fused = fuse(60.0, &[&empty]);
    assert!(fused.is_empty());
}

#[test]
fn rrf_no_lists_is_empty() {
    let fused = fuse(60.0, &[]);
    assert!(fused.is_empty());
}

#[test]
fn rrf_tie_keeps_first_appearance() {
    let dense = vec![10, 20, 30];
    let sparse = vec![20, 10, 40];
    let fused = fuse(60.0, &[&dense, &sparse]);
    assert_eq!(fused[0].0, 10);
    assert_eq!(fused[1].0, 20);
}

#[test]
fn rank_groups_collects_ranks_in_walk_order() {
    let dense = [1, 2, 3];
    let sparse = [2, 1, 4];
    let (ids, ranks) = rank_groups(&[&dense[..], &sparse[..]]);
    assert_eq!(ids, vec![1, 2, 3, 4]);
    assert_eq!(ranks, vec![vec![1, 2], vec![2, 1], vec![3], vec![3]]);
}

#[test]
fn rank_groups_of_repeated_id_in_one_list() {
    let list = [7, 7, 8];
    let (ids, ranks) = rank_groups(&[&list[..]]);
    assert_eq!(ids, vec![7, 8]);
    assert_eq!(ranks, vec![vec![1, 2], vec![3]]);
}

#[test]
fn score_keys_order_like_scores() {
    let values = [-3.5_f32, -1.0, -0.0, 0.0, 0.25, 1.0, 42.0];
    for w in values.windows(2) {
        let a = score_key_of(w[0].to_bits());
        let b = score_key_of(w[1].to_bits());
        if w[0] == w[1] {
            assert_eq!(a, b);
        } else {
            assert!(a < b, "{} vs {}", w[0], w[1]);
        }
    }
    assert_eq!(score_key_of(0.0_f32.to_bits()), 0x8000_0000);
    assert_eq!(score_key_of(1.0_f32.to_bits()), 0x8000_0000 + 0x3F80_0000);
}

#[test]
fn order_is_stable_and_descending() {
    let keys = vec![5u32, 9, 5, 1, 9];
    assert_eq!(order_by_key_desc(&keys), vec![1, 4, 0, 2, 3]);
}

#[test]
fn order_by_score_puts_negative_scores_last() {
    let scores = [0.5_f32, -2.0, 3.0, 0.0];
    let bits: Vec<u32> = scores.iter().map(|s| s.to_bits()).collect();
    assert_eq!(order_by_score_desc(&bits), vec![2, 0, 3, 1]);
}

#[test]
fn order_lists_every_index_once() {
    let keys = vec![3u32, 3, 3, 0, 7, 7];
    let mut order = order_by_key_desc(&keys);
    assert_eq!(order, vec![4, 5, 0, 1, 2, 3]);
    order.sort();
    assert_eq!(order, vec![0, 1, 2, 3, 4, 5]);
}
